//! A history of calls to, and responses from, operations on a shared object.
use std::collections::VecDeque;
use vstd::prelude::*;

verus! {

/// An action performed by a process: either the call to an operation or
/// the response from it.
#[derive(PartialEq, Eq, Clone, Debug)]
pub enum Action<T> {
    Call(T),
    Response(T),
}

/// The entry for the call to an operation. `response` is the id of the
/// entry for the matching response.
#[derive(PartialEq, Eq, Clone, Debug)]
pub struct CallEntry<T> {
    pub id: usize,
    pub operation: T,
    pub response: usize,
}

/// The entry for the response from an operation.
#[derive(PartialEq, Eq, Clone, Debug)]
pub struct ResponseEntry<T> {
    pub id: usize,
    pub operation: T,
}

/// An entry of a history.
#[derive(PartialEq, Eq, Clone, Debug)]
pub enum Entry<T> {
    Call(CallEntry<T>),
    Response(ResponseEntry<T>),
}

impl<T> Entry<T> {
    /// The id of the entry.
    pub open spec fn entry_id(self) -> usize {
        match self {
            Entry::Call(e) => e.id,
            Entry::Response(e) => e.id,
        }
    }

    /// The operation recorded by the entry.
    pub open spec fn entry_operation(self) -> T {
        match self {
            Entry::Call(e) => e.operation,
            Entry::Response(e) => e.operation,
        }
    }

    /// The id of the matching response, for a call entry.
    pub open spec fn response_id(self) -> usize {
        match self {
            Entry::Call(e) => e.response,
            Entry::Response(e) => e.id,
        }
    }

    /// Returns the id of the entry.
    pub fn id(&self) -> (r: usize)
        ensures
            r == self.entry_id(),
    {
        match self {
            Entry::Call(entry) => entry.id,
            Entry::Response(entry) => entry.id,
        }
    }
}

/// The index of the first entry of `s` with the given id.
pub open spec fn first_index_of<T>(s: Seq<Entry<T>>, id: usize) -> int {
    choose|k: int|
        0 <= k < s.len() && s[k].entry_id() == id && forall|j: int|
            0 <= j < k ==> s[j].entry_id() != id
}

/// Whether some entry of `s` has the given id.
pub open spec fn has_id<T>(s: Seq<Entry<T>>, id: usize) -> bool {
    exists|k: int| 0 <= k < s.len() && s[k].entry_id() == id
}

pub proof fn lemma_first_index_of<T>(s: Seq<Entry<T>>, id: usize)
    requires
        has_id(s, id),
    ensures
        0 <= first_index_of(s, id) < s.len(),
        s[first_index_of(s, id)].entry_id() == id,
        forall|j: int| 0 <= j < first_index_of(s, id) ==> s[j].entry_id() != id,
{
    let k0 = choose|k: int| 0 <= k < s.len() && s[k].entry_id() == id;
    lemma_first_exists(s, id, k0);
}

proof fn lemma_first_exists<T>(s: Seq<Entry<T>>, id: usize, k0: int)
    requires
        0 <= k0 < s.len(),
        s[k0].entry_id() == id,
    ensures
        exists|k: int|
            0 <= k < s.len() && s[k].entry_id() == id && forall|j: int|
                0 <= j < k ==> s[j].entry_id() != id,
    decreases k0,
{
    if exists|j: int| 0 <= j < k0 && s[j].entry_id() == id {
        let j = choose|j: int| 0 <= j < k0 && s[j].entry_id() == id;
        lemma_first_exists(s, id, j);
    } else {
        assert(0 <= k0 < s.len() && s[k0].entry_id() == id && forall|j: int|
            0 <= j < k0 ==> s[j].entry_id() != id);
    }
}

/// Whether `s` is a complete history: the id of each entry is its index,
/// and every call is matched with its own response entry.
pub open spec fn entries_complete<T>(s: Seq<Entry<T>>) -> bool {
    &&& forall|k: int| 0 <= k < s.len() ==> (#[trigger] s[k]).entry_id() == k
    &&& forall|k: int|
        0 <= k < s.len() && (#[trigger] s[k]) is Call ==> {
            &&& s[k].response_id() < s.len()
            &&& s[s[k].response_id() as int] is Response
        }
    &&& forall|k1: int, k2: int|
        0 <= k1 < s.len() && 0 <= k2 < s.len() && k1 != k2 && (#[trigger] s[k1]) is Call && (
        #[trigger] s[k2]) is Call ==> s[k1].response_id() != s[k2].response_id()
}

/// The number of calls made by process `p` among the first `k` actions.
pub open spec fn calls_before<T>(actions: Seq<(usize, Action<T>)>, p: usize, k: int) -> nat
    decreases k,
{
    if k <= 0 {
        0
    } else if actions[k - 1].0 == p && actions[k - 1].1 is Call {
        calls_before(actions, p, k - 1) + 1
    } else {
        calls_before(actions, p, k - 1)
    }
}

/// The number of responses to process `p` among the first `k` actions.
pub open spec fn responses_before<T>(actions: Seq<(usize, Action<T>)>, p: usize, k: int) -> nat
    decreases k,
{
    if k <= 0 {
        0
    } else if actions[k - 1].0 == p && actions[k - 1].1 is Response {
        responses_before(actions, p, k - 1) + 1
    } else {
        responses_before(actions, p, k - 1)
    }
}

/// The action at index `r` is the response that matches the call at index
/// `i`: the n-th call of a process is matched with its n-th response.
pub open spec fn matching_response<T>(actions: Seq<(usize, Action<T>)>, i: int, r: int) -> bool {
    &&& 0 <= r < actions.len()
    &&& actions[r].0 == actions[i].0
    &&& actions[r].1 is Response
    &&& responses_before(actions, actions[i].0, r) == calls_before(actions, actions[i].0, i)
}

/// Every call in `actions` has a matching response.
pub open spec fn actions_complete<T>(actions: Seq<(usize, Action<T>)>) -> bool {
    forall|i: int|
        0 <= i < actions.len() && (#[trigger] actions[i]).1 is Call ==> calls_before(
            actions,
            actions[i].0,
            i,
        ) < responses_before(actions, actions[i].0, actions.len() as int)
}

/// The entry that `from_actions` makes of the action at index `i`.
pub open spec fn entry_for_action<T>(actions: Seq<(usize, Action<T>)>, i: int, e: Entry<T>) -> bool {
    match actions[i].1 {
        Action::Call(op) => e matches Entry::Call(c) && c.id == i && c.operation == op
            && matching_response(actions, i, c.response as int),
        Action::Response(op) => e == Entry::Response(ResponseEntry { id: i as usize, operation: op }),
    }
}

/// The entries and removal record after lifting the call at index `i`,
/// together with the call and response entries that were taken out.
pub open spec fn lift_spec<T>(entries: Seq<Entry<T>>, removed: Seq<Option<usize>>, i: int) -> (
    Seq<Entry<T>>,
    Seq<Option<usize>>,
    Entry<T>,
    Entry<T>,
) {
    let call = entries[i];
    let rest = entries.remove(i);
    let j = first_index_of(rest, call.response_id());
    let response = rest[j];
    (
        rest.remove(j),
        removed.update(call.entry_id() as int, Some(i as usize)).update(
            response.entry_id() as int,
            Some(j as usize),
        ),
        call,
        response,
    )
}

/// When the call at index `i` can be lifted.
pub open spec fn can_lift<T>(entries: Seq<Entry<T>>, removed: Seq<Option<usize>>, i: int) -> bool {
    &&& 0 <= i < entries.len() <= usize::MAX
    &&& entries[i] is Call
    &&& has_id(entries.remove(i), entries[i].response_id())
    &&& forall|k: int| 0 <= k < entries.len() ==> (#[trigger] entries[k]).entry_id() < removed.len()
}

/// The entries and removal record after re-inserting a call and its response.
pub open spec fn unlift_spec<T>(
    entries: Seq<Entry<T>>,
    removed: Seq<Option<usize>>,
    call: Entry<T>,
    response: Entry<T>,
) -> (Seq<Entry<T>>, Seq<Option<usize>>) {
    let a = removed[response.entry_id() as int]->Some_0;
    let b = removed[call.entry_id() as int]->Some_0;
    (
        entries.insert(a as int, response).insert(b as int, call),
        removed.update(response.entry_id() as int, None).update(call.entry_id() as int, None),
    )
}

/// When a call and its response can be re-inserted.
pub open spec fn can_unlift<T>(
    entries: Seq<Entry<T>>,
    removed: Seq<Option<usize>>,
    call: Entry<T>,
    response: Entry<T>,
) -> bool {
    &&& call.entry_id() < removed.len()
    &&& response.entry_id() < removed.len()
    &&& call.entry_id() != response.entry_id()
    &&& removed[response.entry_id() as int] matches Some(a) && a <= entries.len()
    &&& removed[call.entry_id() as int] matches Some(b) && b <= entries.len() + 1
}

/// No two entries share an id, and the id of every entry is recorded as not
/// removed.
pub open spec fn removal_consistent<T>(entries: Seq<Entry<T>>, removed: Seq<Option<usize>>) -> bool {
    &&& forall|k: int|
        0 <= k < entries.len() ==> (#[trigger] entries[k]).entry_id() < removed.len()
            && removed[entries[k].entry_id() as int] is None
    &&& forall|k1: int, k2: int|
        0 <= k1 < k2 < entries.len() ==> (#[trigger] entries[k1]).entry_id() != (
        #[trigger] entries[k2]).entry_id()
}

/// Removing an entry, and recording its index, keeps the record consistent.
proof fn lemma_remove_consistent<T>(entries: Seq<Entry<T>>, removed: Seq<Option<usize>>, i: int)
    requires
        removal_consistent(entries, removed),
        0 <= i < entries.len(),
    ensures
        removal_consistent(
            entries.remove(i),
            removed.update(entries[i].entry_id() as int, Some(i as usize)),
        ),
{
    let e2 = entries.remove(i);
    let id = entries[i].entry_id();
    assert forall|k: int| 0 <= k < e2.len() implies (#[trigger] e2[k]).entry_id() != id by {
        let kk = if k < i { k } else { k + 1 };
        assert(e2[k] == entries[kk]);
        if kk < i {
            assert(entries[kk].entry_id() != entries[i].entry_id());
        } else {
            assert(entries[i].entry_id() != entries[kk].entry_id());
        }
    }
    assert forall|k1: int, k2: int|
        0 <= k1 < k2 < e2.len() implies (#[trigger] e2[k1]).entry_id() != (
        #[trigger] e2[k2]).entry_id() by {
        let a = if k1 < i { k1 } else { k1 + 1 };
        let b = if k2 < i { k2 } else { k2 + 1 };
        assert(e2[k1] == entries[a] && e2[k2] == entries[b]);
    }
}

/// Inserting an entry whose id is recorded as removed, and clearing the
/// record, keeps the record consistent.
proof fn lemma_insert_consistent<T>(
    entries: Seq<Entry<T>>,
    removed: Seq<Option<usize>>,
    a: int,
    entry: Entry<T>,
)
    requires
        removal_consistent(entries, removed),
        0 <= a <= entries.len(),
        entry.entry_id() < removed.len(),
        removed[entry.entry_id() as int] is Some,
    ensures
        removal_consistent(entries.insert(a, entry), removed.update(entry.entry_id() as int, None)),
{
    let e2 = entries.insert(a, entry);
    let id = entry.entry_id();
    assert forall|k: int| 0 <= k < entries.len() implies (#[trigger] entries[k]).entry_id() != id by {}
    assert forall|k1: int, k2: int|
        0 <= k1 < k2 < e2.len() implies (#[trigger] e2[k1]).entry_id() != (
        #[trigger] e2[k2]).entry_id() by {
        if k1 != a && k2 != a {
            let x = if k1 < a { k1 } else { k1 - 1 };
            let y = if k2 < a { k2 } else { k2 - 1 };
            assert(e2[k1] == entries[x] && e2[k2] == entries[y]);
        } else if k1 == a {
            assert(e2[k2] == entries[k2 - 1]);
        } else {
            assert(e2[k1] == entries[k1]);
        }
    }
    assert forall|k: int| 0 <= k < e2.len() implies (#[trigger] e2[k]).entry_id() < removed.len()
        && removed.update(id as int, None)[e2[k].entry_id() as int] is None by {
        if k != a {
            let x = if k < a { k } else { k - 1 };
            assert(e2[k] == entries[x]);
        }
    }
}

/// A history: a sequence of entries, together with a record of where each
/// removed entry used to be.
#[derive(PartialEq, Eq, Clone, Debug)]
pub struct History<T> {
    pub entries: Vec<Entry<T>>,
    /// When an entry is removed from this history, its index is recorded here.
    removed_from: Vec<Option<usize>>,
}

impl<T> View for History<T> {
    type V = Seq<Entry<T>>;

    /// The entries of the history, in order.
    closed spec fn view(&self) -> Seq<Entry<T>> {
        self.entries@
    }
}

impl<T> History<T> {
    /// For each entry id, the index that the entry was removed from, if it was.
    pub closed spec fn removed(&self) -> Seq<Option<usize>> {
        self.removed_from@
    }

    /// No two entries share an id, and the id of every entry is recorded as
    /// not removed.
    pub open spec fn wf(&self) -> bool {
        removal_consistent(self@, self.removed())
    }

    /// A complete history from which nothing has been removed.
    pub open spec fn complete(&self) -> bool {
        &&& entries_complete(self@)
        &&& self.removed().len() == self@.len()
        &&& forall|k: int| 0 <= k < self.removed().len() ==> (#[trigger] self.removed()[k]) is None
    }

    /// Builds a history from a sequence of actions, each performed by a
    /// process. The n-th call of a process is matched with its n-th response.
    ///
    /// The sequence must not be empty, and every call must have a matching
    /// response.
    pub fn from_actions(actions: Vec<(usize, Action<T>)>) -> (r: Self)
        requires
            actions.len() > 0,
            actions_complete(actions@),
            forall|i: int| 0 <= i < actions.len() ==> (#[trigger] actions@[i]).0 < usize::MAX,
        ensures
            r@.len() == actions@.len(),
            forall|i: int|
                0 <= i < actions@.len() ==> entry_for_action(actions@, i, #[trigger] r@[i]),
            r.complete(),
            r.wf(),
    {
        let ghost acts = actions@;
        let n = actions.len();
        // The responses of each process, in order; the n-th call of a process
        // takes the n-th of them.
        let mut max_process: usize = 0;
        let mut i: usize = 0;
        while i < n
            invariant
                n == actions.len(),
                acts == actions@,
                i <= n,
                forall|k: int| 0 <= k < i ==> (#[trigger] acts[k]).0 <= max_process,
            decreases n - i,
        {
            if actions[i].0 > max_process {
                max_process = actions[i].0;
            }
            i = i + 1;
        }
        let mut queues: Vec<VecDeque<usize>> = Vec::new();
        while queues.len() <= max_process
            invariant
                queues@.len() <= max_process + 1,
                forall|q: int| 0 <= q < queues@.len() ==> (#[trigger] queues@[q])@ == Seq::<usize>::empty(),
            decreases max_process + 1 - queues@.len(),
        {
            queues.push(VecDeque::new());
        }
        let mut i: usize = 0;
        while i < n
            invariant
                n == actions.len(),
                acts == actions@,
                i <= n,
                queues@.len() == max_process + 1,
                forall|k: int| 0 <= k < n ==> (#[trigger] acts[k]).0 <= max_process,
                forall|q: int|
                    0 <= q <= max_process ==> (#[trigger] queues@[q])@ == responses_of(
                        acts,
                        q as usize,
                        i as int,
                    ),
            decreases n - i,
        {
            let p = actions[i].0;
            let is_response = match &actions[i].1 {
                Action::Call(_) => false,
                Action::Response(_) => true,
            };
            if is_response {
                let ghost before = queues@;
                queues[p].push_back(i);
                proof {
                    assert forall|q: int| 0 <= q <= max_process implies (#[trigger] queues@[q])@
                        == responses_of(acts, q as usize, i + 1) by {
                        if q != p {
                            assert(queues@[q] == before[q]);
                        }
                    }
                }
            }
            i = i + 1;
        }
        // For each action, the index of its matching response (calls only).
        let mut responses: Vec<usize> = Vec::new();
        let mut i: usize = 0;
        while i < n
            invariant
                n == actions.len(),
                acts == actions@,
                actions_complete(acts),
                i <= n,
                responses@.len() == i,
                queues@.len() == max_process + 1,
                forall|k: int| 0 <= k < n ==> (#[trigger] acts[k]).0 <= max_process,
                forall|q: int|
                    0 <= q <= max_process ==> (#[trigger] queues@[q])@ == responses_of(
                        acts,
                        q as usize,
                        n as int,
                    ).skip(calls_before(acts, q as usize, i as int) as int),
                forall|k: int|
                    0 <= k < i && (#[trigger] acts[k]).1 is Call ==> matching_response(
                        acts,
                        k,
                        responses@[k] as int,
                    ),
            decreases n - i,
        {
            let p = actions[i].0;
            let is_call = match &actions[i].1 {
                Action::Call(_) => true,
                Action::Response(_) => false,
            };
            if is_call {
                let ghost before = queues@;
                let ghost c = calls_before(acts, p, i as int);
                proof {
                    lemma_responses_of(acts, p, n as int);
                    assert(c < responses_before(acts, p, n as int));
                }
                let r = match queues[p].pop_front() {
                    Some(r) => r,
                    None => {
                        proof {
                            assert(false);
                        }
                        0
                    },
                };
                proof {
                    let all = responses_of(acts, p, n as int);
                    assert(r == all[c as int]);
                    assert(matching_response(acts, i as int, r as int));
                    assert forall|q: int| 0 <= q <= max_process implies (#[trigger] queues@[q])@
                        == responses_of(acts, q as usize, n as int).skip(
                        calls_before(acts, q as usize, i + 1) as int,
                    ) by {
                        if q != p {
                            assert(queues@[q] == before[q]);
                        } else {
                            assert(queues@[q]@ =~= all.skip(c + 1 as int));
                        }
                    }
                }
                responses.push(r);
            } else {
                responses.push(0);
            }
            i = i + 1;
        }
        // Take the actions apart, from the last to the first.
        let mut actions = actions;
        let mut reversed: Vec<Entry<T>> = Vec::new();
        let mut k: usize = n;
        while k > 0
            invariant
                k <= n,
                actions@ == acts.take(k as int),
                responses@.len() == n,
                n == acts.len(),
                reversed@.len() == n - k,
                forall|m: int|
                    0 <= m < n && (#[trigger] acts[m]).1 is Call ==> matching_response(
                        acts,
                        m,
                        responses@[m] as int,
                    ),
                forall|m: int|
                    0 <= m < n - k ==> entry_for_action(acts, n - 1 - m, #[trigger] reversed@[m]),
            decreases k,
        {
            let ghost before = actions@;
            let (_p, action) = actions.pop().unwrap();
            k = k - 1;
            proof {
                assert(before.last() == acts[k as int]);
                assert(action == acts[k as int].1);
            }
            let entry = match action {
                Action::Call(operation) => Entry::Call(
                    CallEntry { id: k, operation, response: responses[k] },
                ),
                Action::Response(operation) => Entry::Response(ResponseEntry { id: k, operation }),
            };
            let ghost prev_rev = reversed@;
            reversed.push(entry);
            proof {
                assert(actions@ =~= acts.take(k as int));
                assert(entry_for_action(acts, k as int, entry));
                assert forall|m: int|
                    0 <= m < n - k implies entry_for_action(acts, n - 1 - m, #[trigger] reversed@[m]) by {
                    if m < n - k - 1 {
                        assert(reversed@[m] == prev_rev[m]);
                    }
                }
            }
        }
        let mut entries: Vec<Entry<T>> = Vec::new();
        let mut removed_from: Vec<Option<usize>> = Vec::new();
        while reversed.len() > 0
            invariant
                n == acts.len(),
                reversed@.len() + entries@.len() == n,
                removed_from@.len() == entries@.len(),
                forall|m: int| 0 <= m < removed_from@.len() ==> (#[trigger] removed_from@[m]) is None,
                forall|m: int|
                    0 <= m < reversed@.len() ==> entry_for_action(
                        acts,
                        n - 1 - m,
                        #[trigger] reversed@[m],
                    ),
                forall|m: int|
                    0 <= m < entries@.len() ==> entry_for_action(acts, m, #[trigger] entries@[m]),
            decreases reversed@.len(),
        {
            let entry = reversed.pop().unwrap();
            proof {
                assert(entry_for_action(acts, n - 1 - reversed@.len(), entry));
            }
            entries.push(entry);
            removed_from.push(None);
        }
        let r = History { entries, removed_from };
        proof {
            lemma_from_actions_complete(acts, r@);
            assert forall|k1: int, k2: int|
                0 <= k1 < k2 < r@.len() implies (#[trigger] r@[k1]).entry_id()
                != (#[trigger] r@[k2]).entry_id() by {}
        }
        r
    }

    /// Returns the index of the first entry with the given id.
    ///
    /// Some entry must have the id.
    pub fn index_of_id(&self, id: usize) -> (r: usize)
        requires
            has_id(self@, id),
        ensures
            r == first_index_of(self@, id),
            r < self@.len(),
            self@[r as int].entry_id() == id,
    {
        proof {
            lemma_first_index_of(self@, id);
        }
        let mut k: usize = 0;
        while k < self.entries.len()
            invariant
                has_id(self@, id),
                0 <= first_index_of(self@, id) < self@.len(),
                self@[first_index_of(self@, id)].entry_id() == id,
                forall|j: int|
                    0 <= j < first_index_of(self@, id) ==> self@[j].entry_id() != id,
                k <= first_index_of(self@, id),
            decreases self@.len() - k,
        {
            if self.entries[k].id() == id {
                return k;
            }
            k = k + 1;
        }
        proof {
            assert(false);
        }
        k
    }

    /// Puts a removed entry back at the index that it was removed from, and
    /// returns that index.
    ///
    /// The entry must have been removed, from an index that is not past the
    /// end.
    pub fn insert(&mut self, entry: Entry<T>) -> (r: usize)
        requires
            entry.entry_id() < old(self).removed().len(),
            old(self).removed()[entry.entry_id() as int] matches Some(a) && a <= old(
                self,
            )@.len(),
        ensures
            Some(r) == old(self).removed()[entry.entry_id() as int],
            final(self)@ == old(self)@.insert(r as int, entry),
            final(self).removed() == old(self).removed().update(entry.entry_id() as int, None),
            old(self).wf() ==> final(self).wf(),
    {
        proof {
            if old(self).wf() {
                let a = old(self).removed()[entry.entry_id() as int]->Some_0;
                lemma_insert_consistent(old(self)@, old(self).removed(), a as int, entry);
            }
        }
        let id = entry.id();
        let index = self.removed_from[id].unwrap();
        self.removed_from.set(id, None);
        self.entries.insert(index, entry);
        index
    }

    /// Whether the history has no entries.
    pub fn is_empty(&self) -> (r: bool)
        ensures
            r == (self@.len() == 0),
    {
        self.entries.len() == 0
    }

    /// The entries of the history, in order.
    pub fn iter(&self) -> (r: &Vec<Entry<T>>)
        ensures
            r@ == self@,
    {
        &self.entries
    }

    /// The number of entries in the history.
    pub fn len(&self) -> (r: usize)
        ensures
            r == self@.len(),
    {
        self.entries.len()
    }

    /// The entry at index `i`.
    pub fn index(&self, i: usize) -> (r: &Entry<T>)
        requires
            i < self@.len(),
        ensures
            *r == self@[i as int],
    {
        &self.entries[i]
    }

    /// The entry at index `i`, to be changed in place.
    pub fn index_mut(&mut self, i: usize) -> (r: &mut Entry<T>)
        requires
            i < old(self)@.len(),
        ensures
            *r == old(self)@[i as int],
            final(self)@ == old(self)@.update(i as int, *final(r)),
            final(self).removed() == old(self).removed(),
    {
        &mut self.entries[i]
    }

    /// Removes the call entry at index `i` and its response entry from the
    /// history, and returns both.
    ///
    /// The entry at `i` must be a call.
    pub fn lift(&mut self, i: usize) -> (r: (Entry<T>, Entry<T>))
        requires
            can_lift(old(self)@, old(self).removed(), i as int),
        ensures
            (final(self)@, final(self).removed(), r.0, r.1) == lift_spec(
                old(self)@,
                old(self).removed(),
                i as int,
            ),
            old(self).wf() ==> final(self).wf(),
    {
        let ghost s = self@;
        let call = self.remove(i);
        proof {
            lemma_first_index_of(s.remove(i as int), call.response_id());
            assert(self@ == s.remove(i as int));
        }
        let response_id = match &call {
            Entry::Call(c) => c.response,
            Entry::Response(_) => {
                proof {
                    assert(false);
                }
                0
            },
        };
        let j = self.index_of_id(response_id);
        proof {
            assert(self@[j as int].entry_id() < self.removed().len()) by {
                assert(self@[j as int] == s[if j < i { j as int } else { j + 1 }]);
            }
        }
        let response = self.remove(j);
        (call, response)
    }

    /// Removes the entry at index `i`, recording where it was.
    pub fn remove(&mut self, i: usize) -> (r: Entry<T>)
        requires
            i < old(self)@.len(),
            old(self)@[i as int].entry_id() < old(self).removed().len(),
        ensures
            r == old(self)@[i as int],
            final(self)@ == old(self)@.remove(i as int),
            final(self).removed() == old(self).removed().update(r.entry_id() as int, Some(i)),
            old(self).wf() ==> final(self).wf(),
    {
        proof {
            if old(self).wf() {
                lemma_remove_consistent(old(self)@, old(self).removed(), i as int);
            }
        }
        let entry = self.entries.remove(i);
        let id = entry.id();
        self.removed_from.set(id, Some(i));
        entry
    }

    /// Puts a call and its response back where they were lifted from, and
    /// returns their indices.
    pub fn unlift(&mut self, call: Entry<T>, response: Entry<T>) -> (r: (usize, usize))
        requires
            can_unlift(old(self)@, old(self).removed(), call, response),
        ensures
            (final(self)@, final(self).removed()) == unlift_spec(
                old(self)@,
                old(self).removed(),
                call,
                response,
            ),
            Some(r.0) == old(self).removed()[call.entry_id() as int],
            Some(r.1) == old(self).removed()[response.entry_id() as int],
            old(self).wf() ==> final(self).wf(),
    {
        let response_index = self.insert(response);
        let call_index = self.insert(call);
        (call_index, response_index)
    }
}

/// The indices of the responses to process `p` among the first `k` actions,
/// in order.
pub open spec fn responses_of<T>(actions: Seq<(usize, Action<T>)>, p: usize, k: int) -> Seq<usize>
    decreases k,
{
    if k <= 0 {
        Seq::empty()
    } else if actions[k - 1].0 == p && actions[k - 1].1 is Response {
        responses_of(actions, p, k - 1).push((k - 1) as usize)
    } else {
        responses_of(actions, p, k - 1)
    }
}

/// The m-th response to `p` is a response to `p`, preceded by m others.
proof fn lemma_responses_of<T>(actions: Seq<(usize, Action<T>)>, p: usize, k: int)
    requires
        0 <= k <= actions.len() <= usize::MAX,
    ensures
        responses_of(actions, p, k).len() == responses_before(actions, p, k),
        forall|m: int|
            0 <= m < responses_of(actions, p, k).len() ==> {
                let r = #[trigger] responses_of(actions, p, k)[m];
                &&& r < k
                &&& actions[r as int].0 == p
                &&& actions[r as int].1 is Response
                &&& responses_before(actions, p, r as int) == m
            },
    decreases k,
{
    if k > 0 {
        lemma_responses_of(actions, p, k - 1);
    }
}

proof fn lemma_calls_monotone<T>(actions: Seq<(usize, Action<T>)>, p: usize, a: int, b: int)
    requires
        a <= b,
    ensures
        calls_before(actions, p, a) <= calls_before(actions, p, b),
    decreases b - a,
{
    if a < b {
        lemma_calls_monotone(actions, p, a, b - 1);
    }
}

/// Two different calls of one process have different matching responses.
proof fn lemma_matching_injective<T>(actions: Seq<(usize, Action<T>)>, i1: int, i2: int, r: int)
    requires
        0 <= i1 < i2 < actions.len(),
        actions[i1].1 is Call,
        actions[i2].1 is Call,
        actions[i1].0 == actions[i2].0,
    ensures
        calls_before(actions, actions[i1].0, i1) < calls_before(actions, actions[i2].0, i2),
{
    let p = actions[i1].0;
    lemma_calls_monotone(actions, p, i1 + 1, i2);
}

proof fn lemma_from_actions_complete<T>(actions: Seq<(usize, Action<T>)>, s: Seq<Entry<T>>)
    requires
        s.len() == actions.len(),
        actions.len() <= usize::MAX,
        forall|i: int| 0 <= i < actions.len() ==> entry_for_action(actions, i, #[trigger] s[i]),
    ensures
        entries_complete(s),
{
    assert forall|k: int| 0 <= k < s.len() implies (#[trigger] s[k]).entry_id() == k by {
        assert(entry_for_action(actions, k, s[k]));
    }
    assert forall|k: int| 0 <= k < s.len() && (#[trigger] s[k]) is Call implies {
        &&& s[k].response_id() < s.len()
        &&& s[s[k].response_id() as int] is Response
    } by {
        assert(entry_for_action(actions, k, s[k]));
        let r = s[k].response_id() as int;
        assert(entry_for_action(actions, r, s[r]));
    }
    assert forall|k1: int, k2: int|
        0 <= k1 < s.len() && 0 <= k2 < s.len() && k1 != k2 && (#[trigger] s[k1]) is Call && (
        #[trigger] s[k2]) is Call implies s[k1].response_id() != s[k2].response_id() by {
        assert(entry_for_action(actions, k1, s[k1]));
        assert(entry_for_action(actions, k2, s[k2]));
        if s[k1].response_id() == s[k2].response_id() {
            let r = s[k1].response_id() as int;
            if actions[k1].1 is Response {
            } else if actions[k2].1 is Response {
            } else if k1 < k2 {
                lemma_matching_injective(actions, k1, k2, r);
            } else {
                lemma_matching_injective(actions, k2, k1, r);
            }
        }
    }
}

/// Re-inserting what was lifted from a history gives back the history,
/// provided nothing had been recorded as removed at the two entries' ids.
pub proof fn unlift_undoes_lift<T>(entries: Seq<Entry<T>>, removed: Seq<Option<usize>>, i: int)
    requires
        can_lift(entries, removed, i),
        removed[entries[i].entry_id() as int] is None,
        removed[entries[i].response_id() as int] is None,
        entries[i].entry_id() != entries[i].response_id(),
    ensures
        ({
            let (e2, r2, call, response) = lift_spec(entries, removed, i);
            &&& can_unlift(e2, r2, call, response)
            &&& unlift_spec(e2, r2, call, response) == (entries, removed)
        }),
{
    let rest = entries.remove(i);
    lemma_first_index_of(rest, entries[i].response_id());
    let j = first_index_of(rest, entries[i].response_id());
    let (e2, r2, call, response) = lift_spec(entries, removed, i);
    assert(call == entries[i]);
    assert(response == rest[j]);
    assert(response.entry_id() == entries[i].response_id());
    assert(call.entry_id() < removed.len());
    assert(response.entry_id() < removed.len()) by {
        assert(rest[j] == entries[if j < i { j } else { j + 1 }]);
    }
    assert(r2[response.entry_id() as int] == Some(j as usize));
    assert(r2[call.entry_id() as int] == Some(i as usize));
    assert(e2 == rest.remove(j));
    assert(r2 == removed.update(call.entry_id() as int, Some(i as usize)).update(
        response.entry_id() as int,
        Some(j as usize),
    ));
    assert(j < rest.len());
    assert(rest.remove(j).insert(j, response) =~= rest);
    assert(rest.insert(i, call) =~= entries);
    assert(r2.update(response.entry_id() as int, None).update(call.entry_id() as int, None)
        =~= removed);
}

/// Inserting an entry that was removed from a history gives back the
/// history, provided nothing had been recorded as removed at the entry's id.
pub proof fn insert_undoes_remove<T>(entries: Seq<Entry<T>>, removed: Seq<Option<usize>>, i: int)
    requires
        0 <= i < entries.len(),
        entries[i].entry_id() < removed.len(),
        removed[entries[i].entry_id() as int] is None,
    ensures
        ({
            let id = entries[i].entry_id() as int;
            let e2 = entries.remove(i);
            let r2 = removed.update(id, Some(i as usize));
            &&& r2[id] matches Some(a) && a <= e2.len()
            &&& e2.insert(i, entries[i]) == entries
            &&& r2.update(id, None) == removed
        }),
{
    let id = entries[i].entry_id() as int;
    assert(entries.remove(i).insert(i, entries[i]) =~= entries);
    assert(removed.update(id, Some(i as usize)).update(id, None) =~= removed);
}

/// The entries, the removal record and the lifted pairs after lifting, in
/// turn, the calls at the indices in `ps`.
pub open spec fn lift_all<T>(entries: Seq<Entry<T>>, removed: Seq<Option<usize>>, ps: Seq<int>) -> (
    Seq<Entry<T>>,
    Seq<Option<usize>>,
    Seq<(Entry<T>, Entry<T>)>,
)
    decreases ps.len(),
{
    if ps.len() == 0 {
        (entries, removed, Seq::empty())
    } else {
        let (e, r, pairs) = lift_all(entries, removed, ps.drop_last());
        let (e2, r2, call, response) = lift_spec(e, r, ps.last());
        (e2, r2, pairs.push((call, response)))
    }
}

/// Each lift of `lift_all` can be made, from a call whose id and whose
/// response's id differ and have nothing recorded as removed.
pub open spec fn can_lift_all<T>(
    entries: Seq<Entry<T>>,
    removed: Seq<Option<usize>>,
    ps: Seq<int>,
) -> bool
    decreases ps.len(),
{
    if ps.len() == 0 {
        true
    } else {
        let (e, r, _) = lift_all(entries, removed, ps.drop_last());
        let i = ps.last();
        &&& can_lift_all(entries, removed, ps.drop_last())
        &&& can_lift(e, r, i)
        &&& r[e[i].entry_id() as int] is None
        &&& r[e[i].response_id() as int] is None
        &&& e[i].entry_id() != e[i].response_id()
    }
}

/// The entries and removal record after re-inserting the pairs, the last
/// first; `None` where one of them cannot be re-inserted.
pub open spec fn unlift_all<T>(
    entries: Seq<Entry<T>>,
    removed: Seq<Option<usize>>,
    pairs: Seq<(Entry<T>, Entry<T>)>,
) -> Option<(Seq<Entry<T>>, Seq<Option<usize>>)>
    decreases pairs.len(),
{
    if pairs.len() == 0 {
        Some((entries, removed))
    } else if can_unlift(entries, removed, pairs.last().0, pairs.last().1) {
        let (e2, r2) = unlift_spec(entries, removed, pairs.last().0, pairs.last().1);
        unlift_all(e2, r2, pairs.drop_last())
    } else {
        None
    }
}

/// Unlifting a stack of lifted pairs, the last lifted first, gives back the
/// history and its removal record.
#[verifier::spinoff_prover]
#[verifier::rlimit(50)]
pub proof fn unlift_all_undoes_lift_all<T>(
    entries: Seq<Entry<T>>,
    removed: Seq<Option<usize>>,
    ps: Seq<int>,
)
    requires
        can_lift_all(entries, removed, ps),
    ensures
        ({
            let (e, r, pairs) = lift_all(entries, removed, ps);
            unlift_all(e, r, pairs) == Some((entries, removed))
        }),
    decreases ps.len(),
{
    if ps.len() > 0 {
        let (e1, r1, pairs1) = lift_all(entries, removed, ps.drop_last());
        unlift_undoes_lift(e1, r1, ps.last());
        unlift_all_undoes_lift_all(entries, removed, ps.drop_last());
        let (e2, r2, pairs) = lift_all(entries, removed, ps);
        let (e3, r3, call, response) = lift_spec(e1, r1, ps.last());
        assert(e2 == e3 && r2 == r3 && pairs == pairs1.push((call, response)));
        assert(pairs.last() == (call, response));
        assert(can_unlift(e2, r2, call, response));
        assert(unlift_spec(e2, r2, call, response) == (e1, r1));
        assert(pairs.drop_last() =~= pairs1);
    }
}

/// Lifting a call out of a history whose removal record is consistent keeps
/// it consistent; the call and its response have distinct ids, neither
/// recorded as removed.
proof fn lemma_lift_consistent<T>(entries: Seq<Entry<T>>, removed: Seq<Option<usize>>, i: int)
    requires
        removal_consistent(entries, removed),
        can_lift(entries, removed, i),
    ensures
        removed[entries[i].entry_id() as int] is None,
        removed[entries[i].response_id() as int] is None,
        entries[i].entry_id() != entries[i].response_id(),
        removal_consistent(lift_spec(entries, removed, i).0, lift_spec(entries, removed, i).1),
{
    let rest = entries.remove(i);
    let rid = entries[i].response_id();
    lemma_first_index_of(rest, rid);
    let j = first_index_of(rest, rid);
    let kk = if j < i { j } else { j + 1 };
    assert(rest[j] == entries[kk]);
    if kk < i {
        assert(entries[kk].entry_id() != entries[i].entry_id());
    } else {
        assert(entries[i].entry_id() != entries[kk].entry_id());
    }
    lemma_remove_consistent(entries, removed, i);
    lemma_remove_consistent(rest, removed.update(entries[i].entry_id() as int, Some(i as usize)), j);
}

/// Each lift of `lift_all` can be made.
pub open spec fn lifts_possible<T>(
    entries: Seq<Entry<T>>,
    removed: Seq<Option<usize>>,
    ps: Seq<int>,
) -> bool
    decreases ps.len(),
{
    if ps.len() == 0 {
        true
    } else {
        let (e, r, _) = lift_all(entries, removed, ps.drop_last());
        lifts_possible(entries, removed, ps.drop_last()) && can_lift(e, r, ps.last())
    }
}

/// From a history whose removal record is consistent, lifts that can be made
/// keep it consistent.
proof fn lemma_lift_all_consistent<T>(entries: Seq<Entry<T>>, removed: Seq<Option<usize>>, ps: Seq<int>)
    requires
        removal_consistent(entries, removed),
        lifts_possible(entries, removed, ps),
    ensures
        can_lift_all(entries, removed, ps),
        removal_consistent(lift_all(entries, removed, ps).0, lift_all(entries, removed, ps).1),
    decreases ps.len(),
{
    if ps.len() > 0 {
        lemma_lift_all_consistent(entries, removed, ps.drop_last());
        let (e, r, _) = lift_all(entries, removed, ps.drop_last());
        lemma_lift_consistent(e, r, ps.last());
    }
}

/// Lifting a call out of a well-formed history and unlifting the pair gives
/// back the history and its removal record.
pub proof fn lift_then_unlift_restores<T>(h: History<T>, i: int)
    requires
        h.wf(),
        can_lift(h@, h.removed(), i),
    ensures
        ({
            let (e2, r2, call, response) = lift_spec(h@, h.removed(), i);
            &&& can_unlift(e2, r2, call, response)
            &&& unlift_spec(e2, r2, call, response) == (h@, h.removed())
        }),
{
    lemma_lift_consistent(h@, h.removed(), i);
    unlift_undoes_lift(h@, h.removed(), i);
}

/// Lifting, in turn, calls out of a well-formed history and unlifting the
/// pairs, the last lifted first, gives back the history and its removal
/// record.
pub proof fn lifts_undone_in_reverse_restore<T>(h: History<T>, ps: Seq<int>)
    requires
        h.wf(),
        lifts_possible(h@, h.removed(), ps),
    ensures
        ({
            let (e, r, pairs) = lift_all(h@, h.removed(), ps);
            unlift_all(e, r, pairs) == Some((h@, h.removed()))
        }),
{
    lemma_lift_all_consistent(h@, h.removed(), ps);
    unlift_all_undoes_lift_all(h@, h.removed(), ps);
}

} // verus!
