//! Entries of a history, linked into a doubly-linked list.
//!
//! The entries of one history live together in a `Vec`; links between
//! entries are indices into it.
use vstd::prelude::*;

verus! {

/// A link to another entry of the same history: its index, if any.
pub type EntryLink = Option<usize>;

/// An entry.
///
/// Entries in a history can either be a _call_ entry, indicating that an
/// operation has started, or a _return_ entry, indicating that an operation
/// has finished. In a _complete_ history, each call entry has a corresponding
/// return entry.
#[derive(Clone, Debug)]
pub struct Entry<T> {
    pub id: usize,
    // It can be helpful to introduce entries into a history that do *not*
    // correspond to a particular operation, hence the Option type.
    pub operation: Option<T>,
    pub next: EntryLink,
    pub prev: EntryLink,
    pub rtrn: EntryLink,
}

/// Every link of every entry points into the history.
pub open spec fn links_valid<T>(s: Seq<Entry<T>>) -> bool {
    forall|i: int|
        0 <= i < s.len() ==> {
            &&& ((#[trigger] s[i]).next matches Some(j) ==> j < s.len())
            &&& (s[i].prev matches Some(j) ==> j < s.len())
            &&& (s[i].rtrn matches Some(j) ==> j < s.len())
        }
}

/// `path` is the chain of entries reached from `path[0]` by following
/// `next` links until the last entry.
pub open spec fn is_chain<T>(s: Seq<Entry<T>>, path: Seq<int>) -> bool {
    &&& path.len() > 0
    &&& forall|k: int| 0 <= k < path.len() ==> 0 <= #[trigger] path[k] < s.len()
    &&& path.no_duplicates()
    &&& forall|k: int|
        0 <= k < path.len() - 1 ==> s[#[trigger] path[k]].next == Some(path[k + 1] as usize)
    &&& s[path.last()].next is None
}

/// The history beginning at entry `at` is finite.
pub open spec fn has_chain<T>(s: Seq<Entry<T>>, at: int) -> bool {
    exists|path: Seq<int>| is_chain(s, path) && path[0] == at
}

/// Links `next` and `prev` agree, in both directions.
pub open spec fn doubly_linked<T>(s: Seq<Entry<T>>) -> bool {
    &&& links_valid(s)
    &&& forall|i: int|
        0 <= i < s.len() ==> ((#[trigger] s[i]).next matches Some(j) ==> s[j as int].prev == Some(
            i as usize,
        ))
    &&& forall|i: int|
        0 <= i < s.len() ==> ((#[trigger] s[i]).prev matches Some(j) ==> s[j as int].next == Some(
            i as usize,
        ))
}

/// Makes the entry at `i` bypassed: its predecessor is linked to its
/// successor and back.
pub open spec fn bypass<T>(s: Seq<Entry<T>>, i: int) -> Seq<Entry<T>> {
    let e = s[i];
    let s1 = match e.prev {
        Some(p) => s.update(p as int, Entry { next: e.next, ..s[p as int] }),
        None => s,
    };
    match e.next {
        Some(n) => s1.update(n as int, Entry { prev: e.prev, ..s1[n as int] }),
        None => s1,
    }
}

/// Makes the entry at `i` reachable again from its predecessor and successor.
pub open spec fn relink<T>(s: Seq<Entry<T>>, i: int) -> Seq<Entry<T>> {
    let e = s[i];
    let s1 = match e.prev {
        Some(p) => s.update(p as int, Entry { next: Some(i as usize), ..s[p as int] }),
        None => s,
    };
    match e.next {
        Some(n) => s1.update(n as int, Entry { prev: Some(i as usize), ..s1[n as int] }),
        None => s1,
    }
}

/// The history after lifting the entry at `i` (and its return entry).
pub open spec fn lift_links<T>(s: Seq<Entry<T>>, i: int) -> Seq<Entry<T>> {
    let s1 = bypass(s, i);
    match s[i].rtrn {
        Some(r) => bypass(s1, r as int),
        None => s1,
    }
}

/// The history after re-introducing the entry at `i` (and its return entry).
pub open spec fn unlift_links<T>(s: Seq<Entry<T>>, i: int) -> Seq<Entry<T>> {
    let s1 = match s[i].rtrn {
        Some(r) => relink(s, r as int),
        None => s,
    };
    relink(s1, i)
}

impl<T> Entry<T> {
    /// Returns a new, blank, entry with the given id.
    pub fn new(id: usize) -> (r: Self)
        ensures
            r.id == id,
            r.operation is None,
            r.next is None,
            r.prev is None,
            r.rtrn is None,
    {
        Self { id, operation: None, prev: None, next: None, rtrn: None }
    }

    /// Returns a history of entries, each with their given id, linked in
    /// order; the first entry of the history is at index 0.
    ///
    /// There must be at least one id.
    pub fn from_iter(ids: Vec<usize>) -> (r: Vec<Entry<T>>)
        requires
            ids.len() > 0,
        ensures
            r@.len() == ids@.len(),
            forall|k: int|
                0 <= k < r@.len() ==> {
                    &&& (#[trigger] r@[k]).id == ids@[k]
                    &&& r@[k].operation is None
                    &&& r@[k].rtrn is None
                    &&& r@[k].next == (if k + 1 < r@.len() {
                        Some((k + 1) as usize)
                    } else {
                        None
                    })
                    &&& r@[k].prev == (if k > 0 {
                        Some((k - 1) as usize)
                    } else {
                        None
                    })
                },
            doubly_linked(r@),
            is_chain(r@, Seq::new(r@.len(), |k: int| k)),
    {
        let n = ids.len();
        let mut r: Vec<Entry<T>> = Vec::new();
        let mut k: usize = 0;
        while k < n
            invariant
                n == ids@.len(),
                k <= n,
                r@.len() == k,
                forall|j: int|
                    0 <= j < k ==> {
                        &&& (#[trigger] r@[j]).id == ids@[j]
                        &&& r@[j].operation is None
                        &&& r@[j].rtrn is None
                        &&& r@[j].next == (if j + 1 < n {
                            Some((j + 1) as usize)
                        } else {
                            None
                        })
                        &&& r@[j].prev == (if j > 0 {
                            Some((j - 1) as usize)
                        } else {
                            None
                        })
                    },
            decreases n - k,
        {
            let next = if k + 1 < n {
                Some(k + 1)
            } else {
                None
            };
            let prev = if k > 0 {
                Some(k - 1)
            } else {
                None
            };
            r.push(Entry { id: ids[k], operation: None, next, prev, rtrn: None });
            k = k + 1;
        }
        proof {
            let path = Seq::new(r@.len(), |k: int| k);
            assert(path.no_duplicates());
            assert(path.last() == n - 1);
        }
        r
    }

    /// Returns if the entry is the last in its history.
    pub fn is_last(&self) -> (r: bool)
        ensures
            r == self.next is None,
    {
        self.next.is_none()
    }

    /// Returns whether or not the entry is for the call to an operation
    /// (versus the return from an operation).
    pub fn is_call(&self) -> (r: bool)
        ensures
            r == self.rtrn is Some,
    {
        self.rtrn.is_some()
    }

    /// Returns the length of the history beginning at the entry at index `at`.
    pub fn len(entries: &Vec<Entry<T>>, at: usize) -> (r: usize)
        requires
            has_chain(entries@, at as int),
        ensures
            forall|path: Seq<int>|
                is_chain(entries@, path) && path[0] == at ==> r == path.len(),
    {
        let ghost path = choose|path: Seq<int>| is_chain(entries@, path) && path[0] == at;
        proof {
            lemma_chain_len(entries@, path);
        }
        let total = entries.len();
        let mut cur = at;
        let mut count: usize = 1;
        while entries[cur].next.is_some()
            invariant
                is_chain(entries@, path),
                path.len() <= entries@.len(),
                total == entries@.len(),
                1 <= count <= path.len(),
                cur == path[count - 1],
            decreases path.len() - count,
        {
            proof {
                if count == path.len() {
                    assert(entries@[path.last()].next is None);
                }
            }
            cur = entries[cur].next.unwrap();
            count = count + 1;
        }
        proof {
            assert forall|p2: Seq<int>| is_chain(entries@, p2) && p2[0] == at implies count
                == p2.len() by {
                lemma_chain_unique(entries@, path, p2);
            }
        }
        count
    }

    /// Removes the entry at index `at` from its history: its neighbours, and
    /// those of its return entry, are linked to each other.
    ///
    /// The lifted entry retains its links to other entries in the history,
    /// which can be used to re-introduce it into the history later. See
    /// [`unlift`][Entry::unlift].
    pub fn lift(entries: &mut Vec<Entry<T>>, at: usize)
        requires
            at < old(entries)@.len(),
            links_valid(old(entries)@),
        ensures
            final(entries)@ == lift_links(old(entries)@, at as int),
    {
        bypass_at(entries, at);
        if let Some(r) = entries[at].rtrn {
            bypass_at(entries, r);
        }
    }

    /// Re-introduces the entry at index `at`, and its return entry, back into
    /// its history.
    ///
    /// See [`lift`][Entry::lift].
    pub fn unlift(entries: &mut Vec<Entry<T>>, at: usize)
        requires
            at < old(entries)@.len(),
            links_valid(old(entries)@),
        ensures
            final(entries)@ == unlift_links(old(entries)@, at as int),
    {
        if let Some(r) = entries[at].rtrn {
            relink_at(entries, r);
        }
        relink_at(entries, at);
    }
}

fn bypass_at<T>(entries: &mut Vec<Entry<T>>, i: usize)
    requires
        i < old(entries)@.len(),
        links_valid(old(entries)@),
    ensures
        final(entries)@ == bypass(old(entries)@, i as int),
        links_valid(final(entries)@),
{
    let prev = entries[i].prev;
    let next = entries[i].next;
    if let Some(p) = prev {
        entries[p].next = next;
    }
    if let Some(n) = next {
        entries[n].prev = prev;
    }
    proof {
        assert(entries@ =~= bypass(old(entries)@, i as int));
    }
}

fn relink_at<T>(entries: &mut Vec<Entry<T>>, i: usize)
    requires
        i < old(entries)@.len(),
        links_valid(old(entries)@),
    ensures
        final(entries)@ == relink(old(entries)@, i as int),
        links_valid(final(entries)@),
{
    let prev = entries[i].prev;
    let next = entries[i].next;
    if let Some(p) = prev {
        let mut e = entries.remove(p);
        e.next = Some(i);
        entries.insert(p, e);
    }
    if let Some(n) = next {
        let mut e = entries.remove(n);
        e.prev = Some(i);
        entries.insert(n, e);
    }
    proof {
        assert(entries@ =~= relink(old(entries)@, i as int));
    }
}

proof fn lemma_chain_len<T>(s: Seq<Entry<T>>, path: Seq<int>)
    requires
        is_chain(s, path),
    ensures
        path.len() <= s.len(),
{
    let range = vstd::set_lib::set_int_range(0, s.len() as int);
    vstd::set_lib::lemma_int_range(0, s.len() as int);
    path.unique_seq_to_set();
    vstd::seq_lib::seq_to_set_is_finite(path);
    assert(path.to_set().subset_of(range));
    vstd::set_lib::lemma_len_subset(path.to_set(), range);
}

proof fn lemma_chain_unique<T>(s: Seq<Entry<T>>, p1: Seq<int>, p2: Seq<int>)
    requires
        is_chain(s, p1),
        is_chain(s, p2),
        p1[0] == p2[0],
        s.len() <= usize::MAX,
    ensures
        p1 == p2,
{
    // The two chains agree on every common index.
    assert forall|k: int| 0 <= k < p1.len() && k < p2.len() implies p1[k] == p2[k] by {
        lemma_chain_prefix(s, p1, p2, k);
    }
    if p1.len() < p2.len() {
        let k = p1.len() - 1;
        assert(p1[k] == p2[k]);
        assert(s[p2[k]].next == Some(p2[k + 1] as usize));
    } else if p2.len() < p1.len() {
        let k = p2.len() - 1;
        assert(p1[k] == p2[k]);
        assert(s[p1[k]].next == Some(p1[k + 1] as usize));
    }
    assert(p1 =~= p2);
}

proof fn lemma_chain_prefix<T>(s: Seq<Entry<T>>, p1: Seq<int>, p2: Seq<int>, k: int)
    requires
        is_chain(s, p1),
        is_chain(s, p2),
        p1[0] == p2[0],
        s.len() <= usize::MAX,
        0 <= k < p1.len(),
        k < p2.len(),
    ensures
        p1[k] == p2[k],
    decreases k,
{
    if k > 0 {
        lemma_chain_prefix(s, p1, p2, k - 1);
        assert(s[p1[k - 1]].next == Some(p1[k] as usize));
        assert(s[p2[k - 1]].next == Some(p2[k] as usize));
    }
}

/// The neighbours of the entry at `y` link back to it.
pub open spec fn consistent_at<T>(t: Seq<Entry<T>>, y: int) -> bool {
    &&& (t[y].prev matches Some(p) ==> p < t.len() && t[p as int].next == Some(y as usize))
    &&& (t[y].next matches Some(q) ==> q < t.len() && t[q as int].prev == Some(y as usize))
}

proof fn lemma_relink_bypass<T>(t: Seq<Entry<T>>, x: int)
    requires
        0 <= x < t.len() <= usize::MAX,
        consistent_at(t, x),
    ensures
        bypass(t, x)[x] == t[x],
        relink(bypass(t, x), x) == t,
{
    let b = bypass(t, x);
    assert(b[x] == t[x]);
    assert(relink(b, x) =~= t);
}

proof fn lemma_bypass_consistent<T>(s: Seq<Entry<T>>, i: int, y: int)
    requires
        0 <= i < s.len() <= usize::MAX,
        0 <= y < s.len(),
        y != i,
        doubly_linked(s),
    ensures
        consistent_at(bypass(s, i), y),
{
    let b = bypass(s, i);
    assert(consistent_at(s, i));
    assert(consistent_at(s, y));
    if let Some(p) = b[y].prev {
        let p = p as int;
        if s[y].prev == Some(i as usize) {
            assert(s[i].next == Some(y as usize));
        }
        if let Some(pp) = s[p].prev {
            assert(consistent_at(s, p));
        }
    }
    if let Some(q) = b[y].next {
        let q = q as int;
        if s[y].next == Some(i as usize) {
            assert(s[i].prev == Some(y as usize));
        }
        if let Some(qq) = s[q].next {
            assert(consistent_at(s, q));
        }
    }
}

/// Re-introducing a lifted entry restores its history, when the
/// history is doubly linked and the entry's return entry (if any) is
/// another entry.
pub proof fn unlift_undoes_lift<T>(s: Seq<Entry<T>>, i: int)
    requires
        0 <= i < s.len() <= usize::MAX,
        doubly_linked(s),
        s[i].rtrn matches Some(r) ==> r != i,
    ensures
        unlift_links(lift_links(s, i), i) == s,
{
    assert(consistent_at(s, i));
    lemma_relink_bypass(s, i);
    let s1 = bypass(s, i);
    match s[i].rtrn {
        Some(r) => {
            let r = r as int;
            lemma_bypass_consistent(s, i, r);
            lemma_relink_bypass(s1, r);
            let s2 = bypass(s1, r);
            assert(relink(s2, r) == s1);
        },
        None => {},
    }
}

/// Lifting an entry takes it and its return entry out of the history:
/// afterwards no other entry links, forwards or backwards, to either of
/// them, wherever the return entry lies. The history must be doubly linked,
/// with no entry linked to itself, and the return entry must be another
/// entry.
pub proof fn lift_unlinks_call_and_return<T>(s: Seq<Entry<T>>, i: int)
    requires
        0 <= i < s.len() <= usize::MAX,
        doubly_linked(s),
        forall|k: int| 0 <= k < s.len() ==> (#[trigger] s[k]).next != Some(k as usize),
        s[i].rtrn matches Some(r) && r != i,
    ensures
        ({
            let t = lift_links(s, i);
            let r = s[i].rtrn->0 as int;
            forall|k: int|
                0 <= k < s.len() && k != i && k != r ==> {
                    &&& (#[trigger] t[k]).next != Some(i as usize)
                    &&& t[k].next != Some(r as usize)
                    &&& t[k].prev != Some(i as usize)
                    &&& t[k].prev != Some(r as usize)
                }
        }),
{
    let r = s[i].rtrn->0 as int;
    let s1 = bypass(s, i);
    let t = lift_links(s, i);
    assert(t == bypass(s1, r));
    assert forall|k: int| 0 <= k < s.len() && k != i && k != r implies {
        &&& (#[trigger] t[k]).next != Some(i as usize)
        &&& t[k].next != Some(r as usize)
        &&& t[k].prev != Some(i as usize)
        &&& t[k].prev != Some(r as usize)
    } by {
        assert(s[i].next != Some(i as usize));
        assert(s[r].next != Some(r as usize));
        if s[i].prev == Some(i as usize) {
            assert(s[i].next == Some(i as usize));
        }
        if s[r].prev == Some(r as usize) {
            assert(s[r].next == Some(r as usize));
        }
        if let Some(p) = s[i].prev {
            assert(s[p as int].next == Some(i as usize));
        }
        if let Some(n) = s[i].next {
            assert(s[n as int].prev == Some(i as usize));
        }
        if let Some(p) = s[r].prev {
            assert(s[p as int].next == Some(r as usize));
        }
        if let Some(n) = s[r].next {
            assert(s[n as int].prev == Some(r as usize));
        }
        if s[k].next == Some(i as usize) {
            assert(s[i].prev == Some(k as usize));
        }
        if s[k].prev == Some(i as usize) {
            assert(s[i].next == Some(k as usize));
        }
        if s[k].next == Some(r as usize) {
            assert(s[r].prev == Some(k as usize));
        }
        if s[k].prev == Some(r as usize) {
            assert(s[r].next == Some(k as usize));
        }
    }
}

} // verus!
