//! Checking [linearizability](https://en.wikipedia.org/wiki/Linearizability).
//!
//! See _Testing for Linearizability_ by Gavin Lowe and _Faster Linearizability
//! Checking via P-Compositionality_ by Horn and Kroening.
pub mod entry;
pub mod history;

use crate::linearizability::history::{Entry, History};
use std::collections::HashSet;
use std::hash::Hash;
use vstd::arithmetic::power::pow;
use vstd::prelude::*;

verus! {

/// The sequential specification of a shared object.
pub trait Specification {
    type State: Clone + Eq + Hash;
    type Op;

    /// Returns an initial state for the specification.
    fn init(&self) -> Self::State;

    /// Returns whether a call and response pair is valid in the given state,
    /// and the state that results from it.
    fn apply(&self, call: &Self::Op, response: &Self::Op, state: &Self::State) -> (bool, Self::State);
}

/// Performing the operation whose call entry is at index `order[d]` in
/// state `trace[d]` can be declared valid by the specification and lead to
/// state `trace[d + 1]`.
pub open spec fn step_ok<S: Specification>(
    spec: S,
    h: Seq<Entry<S::Op>>,
    order: Seq<int>,
    trace: Seq<S::State>,
    d: int,
) -> bool {
    let call = h[order[d]];
    let response = h[call.response_id() as int];
    call_ensures(
        S::apply,
        (&spec, &call.entry_operation(), &response.entry_operation(), &trace[d]),
        (true, trace[d + 1]),
    )
}

/// `trace` lists the states through which the specification can pass when
/// it performs, from a state that `init` can return, the operations whose
/// call entries are at the indices in `order`, each declared valid.
pub open spec fn is_run<S: Specification>(
    spec: S,
    h: Seq<Entry<S::Op>>,
    order: Seq<int>,
    trace: Seq<S::State>,
) -> bool {
    &&& trace.len() == order.len() + 1
    &&& call_ensures(S::init, (&spec,), trace[0])
    &&& forall|d: int| 0 <= d < order.len() ==> #[trigger] step_ok(spec, h, order, trace, d)
}

/// `order` lists every call entry of `h` once, respects real time (an
/// operation whose response precedes another's call is ordered first), and
/// is a sequential run of the specification.
pub open spec fn is_linearization<S: Specification>(
    spec: S,
    h: Seq<Entry<S::Op>>,
    order: Seq<int>,
) -> bool {
    &&& forall|a: int|
        0 <= a < order.len() ==> 0 <= #[trigger] order[a] < h.len() && h[order[a]] is Call
    &&& forall|a: int, b: int| 0 <= a < b < order.len() ==> order[a] != order[b]
    &&& forall|k: int| 0 <= k < h.len() && (#[trigger] h[k]) is Call ==> order.contains(k)
    &&& forall|a: int, b: int|
        0 <= a < b < order.len() ==> #[trigger] order[a] < h[#[trigger] order[b]].response_id()
    &&& exists|trace: Seq<S::State>| is_run(spec, h, order, trace)
}

/// Whether the history has a linearization.
pub open spec fn linearizable<S: Specification>(spec: S, h: Seq<Entry<S::Op>>) -> bool {
    exists|order: Seq<int>| is_linearization(spec, h, order)
}

/// Every call comes before its response, and every response answers a call.
pub open spec fn calls_answered<T>(h: Seq<Entry<T>>) -> bool {
    &&& forall|k: int| 0 <= k < h.len() && (#[trigger] h[k]) is Call ==> k < h[k].response_id()
    &&& forall|k: int|
        0 <= k < h.len() && (#[trigger] h[k]) is Response ==> exists|x: int|
            0 <= x < h.len() && (#[trigger] h[x]) is Call && h[x].response_id() == k
}

/// The specification answers equal arguments alike, its states clone to
/// equal states, and pairs of marks and states behave as keys of a hash set.
///
/// vstd states the hash-set key model for primitive types only; for the
/// pairs cached here, a caller takes it as an assumption about the state
/// type's `Hash` and `Eq`.
#[verifier::opaque]
pub open spec fn well_behaved<S: Specification>(spec: S) -> bool {
    &&& forall|a: S::State, b: S::State|
        #![trigger call_ensures(S::init, (&spec,), a), call_ensures(S::init, (&spec,), b)]
        call_ensures(S::init, (&spec,), a) && call_ensures(S::init, (&spec,), b) ==> a == b
    &&& forall|c: S::Op, r: S::Op, st: S::State, x: (bool, S::State), y: (bool, S::State)|
        #![trigger call_ensures(S::apply, (&spec, &c, &r, &st), x), call_ensures(S::apply, (&spec, &c, &r, &st), y)]
        call_ensures(S::apply, (&spec, &c, &r, &st), x) && call_ensures(
            S::apply,
            (&spec, &c, &r, &st),
            y,
        ) ==> x == y
    &&& forall|a: S::State, b: S::State| #[trigger] cloned(a, b) ==> a == b
    &&& vstd::std_specs::hash::obeys_key_model::<(Vec<bool>, S::State)>()
}

/// The calls of `h` not marked in `marks` can be performed from state `s`,
/// in the order `order` and through the states `trace`, in a way that
/// respects real time, each declared valid.
pub open spec fn completes<S: Specification>(
    spec: S,
    h: Seq<Entry<S::Op>>,
    marks: Seq<bool>,
    s: S::State,
    order: Seq<int>,
    trace: Seq<S::State>,
) -> bool {
    &&& forall|a: int|
        0 <= a < order.len() ==> 0 <= #[trigger] order[a] < h.len() && h[order[a]] is Call
            && !marks[order[a]]
    &&& forall|a: int, b: int| 0 <= a < b < order.len() ==> order[a] != order[b]
    &&& forall|k: int| 0 <= k < h.len() && (#[trigger] h[k]) is Call && !marks[k] ==> order.contains(k)
    &&& forall|a: int, b: int|
        0 <= a < b < order.len() ==> #[trigger] order[a] < h[#[trigger] order[b]].response_id()
    &&& trace.len() == order.len() + 1
    &&& trace[0] == s
    &&& forall|d: int| 0 <= d < order.len() ==> #[trigger] step_ok(spec, h, order, trace, d)
}

/// The calls of `h` not marked in `marks` can be completed from state `s`.
pub open spec fn completable<S: Specification>(
    spec: S,
    h: Seq<Entry<S::Op>>,
    marks: Seq<bool>,
    s: S::State,
) -> bool {
    exists|order: Seq<int>, trace: Seq<S::State>| completes(spec, h, marks, s, order, trace)
}

/// The marks of the calls lifted in `lin`, one per entry of a history of
/// length `n`.
pub open spec fn marks_of(n: nat, lin: Seq<int>) -> Seq<bool> {
    Seq::new(n, |k: int| lin.contains(k))
}

/// A checker for linearizability, following Wing and Gong, Lowe, and Horn and
/// Kroening.
pub struct WLGChecker<S: Specification> {
    pub spec: S,
}

/// Whether `id` is the id of a lifted call or of its response.
spec fn lifted<T>(h0: Seq<Entry<T>>, lin: Seq<int>, id: int) -> bool {
    exists|a: int|
        0 <= a < lin.len() && (lin[a] == id || h0[#[trigger] lin[a]].response_id() == id)
}

/// What holds of a history reached by lifting the calls in `lin` (and their
/// responses) out of `h0`.
spec fn config_ok<T>(h0: Seq<Entry<T>>, e: Seq<Entry<T>>, rem: Seq<Option<usize>>, lin: Seq<
    int,
>) -> bool {
    &&& rem.len() == h0.len()
    &&& e.len() <= h0.len()
    &&& forall|k: int|
        0 <= k < e.len() ==> {
            &&& 0 <= (#[trigger] e[k]).entry_id() < h0.len()
            &&& e[k] == h0[e[k].entry_id() as int]
            &&& rem[e[k].entry_id() as int] is None
        }
    &&& forall|k1: int, k2: int|
        0 <= k1 < k2 < e.len() ==> (#[trigger] e[k1]).entry_id() < (#[trigger] e[k2]).entry_id()
    &&& forall|id: int| 0 <= id < h0.len() ==> (history::has_id(e, id as usize) <==> !lifted(h0, lin, id))
    &&& forall|a: int, k: int|
        0 <= a < lin.len() && 0 <= k < e.len() && (#[trigger] e[k]) is Response ==> #[trigger] lin[a]
            < e[k].entry_id()
}

/// The digits of the position of the search: one per lifted call, and one
/// for the entry under consideration.
spec fn digits(poss: Seq<int>, curr: int, len: nat) -> Seq<int> {
    Seq::new(
        len,
        |d: int|
            if d < poss.len() {
                poss[d] + 1
            } else if d == poss.len() {
                curr + 1
            } else {
                0
            },
    )
}

/// The value of a sequence of digits in base `b`, most significant first.
spec fn value(s: Seq<int>, b: int) -> int
    decreases s.len(),
{
    if s.len() == 0 {
        0
    } else {
        s[0] * pow(b, (s.len() - 1) as nat) + value(s.drop_first(), b)
    }
}

proof fn lemma_value_bound(s: Seq<int>, b: int)
    requires
        b > 1,
        forall|d: int| 0 <= d < s.len() ==> 0 <= #[trigger] s[d] < b,
    ensures
        0 <= value(s, b) < pow(b, s.len()),
    decreases s.len(),
{
    vstd::arithmetic::power::lemma_pow_positive(b, s.len());
    if s.len() > 0 {
        let e = (s.len() - 1) as nat;
        lemma_value_bound(s.drop_first(), b);
        vstd::arithmetic::power::lemma_pow_positive(b, e);
        vstd::arithmetic::power::lemma_pow1(b);
        vstd::arithmetic::power::lemma_pow_adds(b, e, 1);
        assert(pow(b, s.len()) == pow(b, e) * b);
        let p = pow(b, e);
        assert(s[0] * p + p <= b * p) by (nonlinear_arith)
            requires
                s[0] + 1 <= b,
                p > 0,
        ;
        assert(0 <= s[0] * p) by (nonlinear_arith)
            requires
                s[0] >= 0,
                p > 0,
        ;
    }
}

proof fn lemma_value_change(s: Seq<int>, t: Seq<int>, b: int, k: int)
    requires
        s.len() == t.len(),
        0 <= k < s.len(),
        forall|d: int| 0 <= d < s.len() && d != k ==> s[d] == t[d],
    ensures
        value(t, b) - value(s, b) == (t[k] - s[k]) * pow(b, (s.len() - 1 - k) as nat),
    decreases k,
{
    let p = pow(b, (s.len() - 1) as nat);
    if k == 0 {
        assert(s.drop_first() =~= t.drop_first());
        assert(t[0] * p - s[0] * p == (t[0] - s[0]) * p) by (nonlinear_arith);
    } else {
        lemma_value_change(s.drop_first(), t.drop_first(), b, k - 1);
    }
}

/// The search position never moves back: the three moves of the search
/// increase the value of its digits.
proof fn lemma_digit_step(s: Seq<int>, t: Seq<int>, b: int, k: int, delta: int)
    requires
        s.len() == t.len(),
        0 <= k < s.len(),
        b > 1,
        delta >= 1,
        t[k] == s[k] + delta,
        forall|d: int| 0 <= d < s.len() && d != k ==> s[d] == t[d],
    ensures
        value(t, b) > value(s, b),
{
    lemma_value_change(s, t, b, k);
    let p = pow(b, (s.len() - 1 - k) as nat);
    vstd::arithmetic::power::lemma_pow_positive(b, (s.len() - 1 - k) as nat);
    assert(delta * p > 0) by (nonlinear_arith)
        requires
            delta >= 1,
            p > 0,
    ;
}

proof fn lemma_backtrack_step(s: Seq<int>, t: Seq<int>, b: int, m: int)
    requires
        s.len() == t.len(),
        1 <= m < s.len(),
        b > 1,
        0 <= s[m] < b,
        t[m] == 0,
        t[m - 1] == s[m - 1] + 1,
        forall|d: int| 0 <= d < s.len() && d != m && d != m - 1 ==> s[d] == t[d],
    ensures
        value(t, b) > value(s, b),
{
    let mid = s.update(m, 0);
    lemma_value_change(s, mid, b, m);
    lemma_value_change(mid, t, b, m - 1);
    assert(value(mid, b) - value(s, b) == (0 - s[m]) * pow(b, (s.len() - 1 - m) as nat));
    assert(value(t, b) - value(mid, b) == 1 * pow(b, (s.len() - 1 - (m - 1)) as nat));
    let e = (s.len() - 1 - m) as nat;
    let p = pow(b, e);
    vstd::arithmetic::power::lemma_pow_positive(b, e);
    vstd::arithmetic::power::lemma_pow1(b);
    vstd::arithmetic::power::lemma_pow_adds(b, e, 1);
    assert(pow(b, (s.len() - 1 - (m - 1)) as nat) == p * b);
    assert(p * b - s[m] * p > 0) by (nonlinear_arith)
        requires
            s[m] < b,
            p > 0,
    ;
    assert((0 - s[m]) * p == - (s[m] * p)) by (nonlinear_arith);
}

/// Removing the entry at index `i` removes exactly its id, when ids are
/// strictly increasing.
proof fn lemma_remove_has_id<T>(e: Seq<Entry<T>>, i: int, id: usize)
    requires
        0 <= i < e.len(),
        forall|k1: int, k2: int|
            0 <= k1 < k2 < e.len() ==> (#[trigger] e[k1]).entry_id() < (#[trigger] e[k2]).entry_id(),
    ensures
        history::has_id(e.remove(i), id) <==> (history::has_id(e, id) && id != e[i].entry_id()),
{
    let r = e.remove(i);
    if history::has_id(r, id) {
        let k = choose|k: int| 0 <= k < r.len() && r[k].entry_id() == id;
        let k0 = if k < i {
            k
        } else {
            k + 1
        };
        assert(e[k0] == r[k]);
    }
    if history::has_id(e, id) && id != e[i].entry_id() {
        let k = choose|k: int| 0 <= k < e.len() && e[k].entry_id() == id;
        if k < i {
            assert(r[k] == e[k]);
        } else {
            assert(k != i);
            assert(r[k - 1] == e[k]);
        }
    }
}

proof fn lemma_config_after_lift<T>(
    h0: Seq<Entry<T>>,
    e: Seq<Entry<T>>,
    rem: Seq<Option<usize>>,
    lin: Seq<int>,
    curr: int,
)
    requires
        history::entries_complete(h0),
        h0.len() <= usize::MAX,
        config_ok(h0, e, rem, lin),
        history::can_lift(e, rem, curr),
        forall|k: int| 0 <= k < curr ==> (#[trigger] e[k]) is Call,
    ensures
        ({
            let (e2, rem2, call, response) = history::lift_spec(e, rem, curr);
            config_ok(h0, e2, rem2, lin.push(e[curr].entry_id() as int))
        }),
{
    let c = e[curr];
    let cid = c.entry_id() as int;
    let rid = c.response_id();
    let rest = e.remove(curr);
    history::lemma_first_index_of(rest, rid);
    let j = history::first_index_of(rest, rid);
    let (e2, rem2, call, response) = history::lift_spec(e, rem, curr);
    let lin2 = lin.push(cid);
    assert(e2 == rest.remove(j));
    assert(response == rest[j]);
    assert(response.entry_id() == rid);
    // Entries of e2 are entries of e.
    assert forall|k: int| 0 <= k < e2.len() implies exists|k0: int|
        0 <= k0 < e.len() && k0 != curr && e[k0] == #[trigger] e2[k] && (k0 < curr ==> k0 == k)
            && (k0 > curr ==> k0 >= k) by {
        let k1 = if k < j {
            k
        } else {
            k + 1
        };
        assert(e2[k] == rest[k1]);
        let k0 = if k1 < curr {
            k1
        } else {
            k1 + 1
        };
        assert(rest[k1] == e[k0]);
    }
    assert(forall|k1: int, k2: int|
        0 <= k1 < k2 < rest.len() ==> (#[trigger] rest[k1]).entry_id() < (
        #[trigger] rest[k2]).entry_id()) by {
        assert forall|k1: int, k2: int| 0 <= k1 < k2 < rest.len() implies (
        #[trigger] rest[k1]).entry_id() < (#[trigger] rest[k2]).entry_id() by {
            let a = if k1 < curr {
                k1
            } else {
                k1 + 1
            };
            let b = if k2 < curr {
                k2
            } else {
                k2 + 1
            };
            assert(rest[k1] == e[a]);
            assert(rest[k2] == e[b]);
        }
    }
    assert forall|k1: int, k2: int| 0 <= k1 < k2 < e2.len() implies (
    #[trigger] e2[k1]).entry_id() < (#[trigger] e2[k2]).entry_id() by {
        let a = if k1 < j {
            k1
        } else {
            k1 + 1
        };
        let b = if k2 < j {
            k2
        } else {
            k2 + 1
        };
        assert(e2[k1] == rest[a]);
        assert(e2[k2] == rest[b]);
    }
    // The response of the lifted call is a response entry of h0, distinct from the call.
    assert(h0[cid] == c);
    assert(h0[cid] is Call);
    assert(rid < h0.len());
    assert(h0[rid as int] is Response);
    // Presence.
    assert forall|id: int| 0 <= id < h0.len() implies (history::has_id(e2, id as usize) <==> !lifted(
        h0,
        lin2,
        id,
    )) by {
        lemma_remove_has_id(e, curr, id as usize);
        lemma_remove_has_id(rest, j, id as usize);
        if lifted(h0, lin2, id) {
            let a = choose|a: int|
                0 <= a < lin2.len() && (lin2[a] == id || h0[#[trigger] lin2[a]].response_id()
                    == id);
            if a < lin.len() {
                assert(lin2[a] == lin[a]);
                assert(lifted(h0, lin, id));
            }
        }
        if lifted(h0, lin, id) {
            let a = choose|a: int|
                0 <= a < lin.len() && (lin[a] == id || h0[#[trigger] lin[a]].response_id() == id);
            assert(lin2[a] == lin[a]);
        }
        if id == cid || id == rid {
            assert(lin2[lin.len() as int] == cid);
        }
    }
    // Each remaining response follows every lifted call.
    assert forall|a: int, k: int|
        0 <= a < lin2.len() && 0 <= k < e2.len() && (#[trigger] e2[k]) is Response implies #[trigger] lin2[a]
        < e2[k].entry_id() by {
        let k0 = choose|k0: int|
            0 <= k0 < e.len() && k0 != curr && e[k0] == #[trigger] e2[k] && (k0 < curr ==> k0 == k)
                && (k0 > curr ==> k0 >= k);
        if a < lin.len() {
            assert(lin2[a] == lin[a]);
        } else {
            assert(lin2[a] == cid);
            assert(k0 > curr);
        }
    }
    assert forall|k: int| 0 <= k < e2.len() implies {
        &&& 0 <= (#[trigger] e2[k]).entry_id() < h0.len()
        &&& e2[k] == h0[e2[k].entry_id() as int]
        &&& rem2[e2[k].entry_id() as int] is None
    } by {
        let k0 = choose|k0: int|
            0 <= k0 < e.len() && k0 != curr && e[k0] == #[trigger] e2[k] && (k0 < curr ==> k0 == k)
                && (k0 > curr ==> k0 >= k);
        lemma_remove_has_id(e, curr, e2[k].entry_id());
        lemma_remove_has_id(rest, j, e2[k].entry_id());
        assert(history::has_id(e2, e2[k].entry_id()));
    }
}


/// The history that the `d`-th lifted call was lifted into.
spec fn next_config<T>(
    snaps: Seq<(Seq<Entry<T>>, Seq<Option<usize>>)>,
    e: Seq<Entry<T>>,
    rem: Seq<Option<usize>>,
    d: int,
) -> (Seq<Entry<T>>, Seq<Option<usize>>) {
    if d + 1 < snaps.len() {
        snaps[d + 1]
    } else {
        (e, rem)
    }
}

/// What holds at each step of the search in `is_linearizable`.
#[verifier::opaque]
spec fn search_inv<S: Specification>(
    spec: S,
    h0: Seq<Entry<S::Op>>,
    e: Seq<Entry<S::Op>>,
    rem: Seq<Option<usize>>,
    lin: Seq<int>,
    snaps: Seq<(Seq<Entry<S::Op>>, Seq<Option<usize>>)>,
    poss: Seq<int>,
    calls: Seq<((Entry<S::Op>, Entry<S::Op>), S::State)>,
    trace: Seq<S::State>,
    state: S::State,
    curr: int,
) -> bool {
    &&& history::entries_complete(h0)
    &&& 0 < h0.len() <= usize::MAX
    &&& calls.len() == lin.len()
    &&& snaps.len() == lin.len()
    &&& poss.len() == lin.len()
    &&& e.len() + 2 * lin.len() == h0.len()
    &&& config_ok(h0, e, rem, lin)
    &&& 0 <= curr < h0.len()
    &&& e.len() > 0 ==> curr < e.len()
    &&& forall|k: int| 0 <= k < curr && k < e.len() ==> (#[trigger] e[k]) is Call
    &&& forall|a: int| 0 <= a < lin.len() ==> 0 <= #[trigger] lin[a] < h0.len() && h0[lin[a]] is Call
    &&& forall|a: int, c: int| 0 <= a < c < lin.len() ==> lin[a] != lin[c]
    &&& forall|a: int, c: int|
        0 <= a < c < lin.len() ==> #[trigger] lin[a] < h0[#[trigger] lin[c]].response_id()
    &&& forall|a: int|
        0 <= a < lin.len() ==> {
            &&& (#[trigger] calls[a]).0.0 == h0[lin[a]]
            &&& calls[a].0.1 == h0[h0[lin[a]].response_id() as int]
        }
    &&& is_run(spec, h0, lin, trace)
    &&& forall|d: int| 0 <= d < lin.len() ==> (#[trigger] calls[d]).1 == trace[d]
    &&& state == trace[lin.len() as int]
    &&& forall|d: int|
        0 <= d < lin.len() ==> {
            &&& config_ok(h0, (#[trigger] snaps[d]).0, snaps[d].1, lin.take(d))
            &&& history::can_lift(snaps[d].0, snaps[d].1, poss[d])
            &&& 0 <= poss[d] && poss[d] + 2 <= snaps[d].0.len()
            &&& snaps[d].0[poss[d]].entry_id() == lin[d]
            &&& forall|k: int| 0 <= k < poss[d] ==> (#[trigger] snaps[d].0[k]) is Call
            &&& history::lift_spec(snaps[d].0, snaps[d].1, poss[d]) == (
                next_config(snaps, e, rem, d).0,
                next_config(snaps, e, rem, d).1,
                calls[d].0.0,
                calls[d].0.1,
            )
        }
}

proof fn lemma_search_init<S: Specification>(
    spec: S,
    h0: Seq<Entry<S::Op>>,
    rem: Seq<Option<usize>>,
    initial: S::State,
)
    requires
        call_ensures(S::init, (&spec,), initial),
        history::entries_complete(h0),
        0 < h0.len() <= usize::MAX,
        rem.len() == h0.len(),
        forall|k: int| 0 <= k < rem.len() ==> (#[trigger] rem[k]) is None,
    ensures
        search_inv(
            spec,
            h0,
            h0,
            rem,
            Seq::empty(),
            Seq::empty(),
            Seq::empty(),
            Seq::empty(),
            seq![initial],
            initial,
            0,
        ),
{
    reveal(search_inv);
    let lin = Seq::<int>::empty();
    assert forall|id: int| 0 <= id < h0.len() implies (history::has_id(h0, id as usize) <==> !lifted(
        h0,
        lin,
        id,
    )) by {
        assert(h0[id].entry_id() == id);
    }
    assert forall|k1: int, k2: int| 0 <= k1 < k2 < h0.len() implies (
    #[trigger] h0[k1]).entry_id() < (#[trigger] h0[k2]).entry_id() by {}
    assert forall|k: int| 0 <= k < h0.len() implies {
        &&& 0 <= (#[trigger] h0[k]).entry_id() < h0.len()
        &&& h0[k] == h0[h0[k].entry_id() as int]
        &&& rem[h0[k].entry_id() as int] is None
    } by {}
}

/// The response of the call under consideration is in the history, after it.
proof fn lemma_response_present<S: Specification>(
    spec: S,
    h0: Seq<Entry<S::Op>>,
    e: Seq<Entry<S::Op>>,
    rem: Seq<Option<usize>>,
    lin: Seq<int>,
    snaps: Seq<(Seq<Entry<S::Op>>, Seq<Option<usize>>)>,
    poss: Seq<int>,
    calls: Seq<((Entry<S::Op>, Entry<S::Op>), S::State)>,
    trace: Seq<S::State>,
    state: S::State,
    curr: int,
)
    requires
        search_inv(spec, h0, e, rem, lin, snaps, poss, calls, trace, state, curr),
        0 <= curr < e.len(),
        e[curr] is Call,
    ensures
        history::has_id(e, e[curr].response_id()),
        forall|k: int|
            0 <= k < e.len() && (#[trigger] e[k]).entry_id() == e[curr].response_id() ==> {
                &&& k > curr
                &&& e[k] is Response
                &&& e[k] == h0[e[curr].response_id() as int]
            },
        curr + 1 < e.len(),
        e[curr].entry_id() < h0.len(),
{
    reveal(search_inv);
    let cid = e[curr].entry_id() as int;
    let rid = e[curr].response_id();
    assert(e[curr] == h0[cid]);
    assert(h0[cid] is Call);
    assert(rid < h0.len());
    assert(h0[rid as int] is Response);
    assert(history::has_id(e, cid as usize));
    assert(!lifted(h0, lin, cid));
    if lifted(h0, lin, rid as int) {
        let a = choose|a: int|
            0 <= a < lin.len() && (lin[a] == rid as int || h0[#[trigger] lin[a]].response_id()
                == rid);
        assert(h0[lin[a]] is Call);
        assert(lin[a] != rid as int);
        assert(h0[lin[a]].response_id() == rid);
        assert(h0[cid].response_id() == rid);
        assert(lin[a] == cid);
        assert(lifted(h0, lin, cid));
    }
    assert(history::has_id(e, rid));
    assert forall|k: int|
        0 <= k < e.len() && (#[trigger] e[k]).entry_id() == rid implies {
            &&& k > curr
            &&& e[k] is Response
            &&& e[k] == h0[rid as int]
        } by {
        assert(e[k] == h0[e[k].entry_id() as int]);
        if k < curr {
            assert(e[k] is Call);
        }
    }
    let k = choose|k: int| 0 <= k < e.len() && e[k].entry_id() == rid;
    assert(k > curr);
}

proof fn lemma_search_skip<S: Specification>(
    spec: S,
    h0: Seq<Entry<S::Op>>,
    e: Seq<Entry<S::Op>>,
    rem: Seq<Option<usize>>,
    lin: Seq<int>,
    snaps: Seq<(Seq<Entry<S::Op>>, Seq<Option<usize>>)>,
    poss: Seq<int>,
    calls: Seq<((Entry<S::Op>, Entry<S::Op>), S::State)>,
    trace: Seq<S::State>,
    state: S::State,
    curr: int,
)
    requires
        search_inv(spec, h0, e, rem, lin, snaps, poss, calls, trace, state, curr),
        0 <= curr < e.len(),
        e[curr] is Call,
    ensures
        search_inv(spec, h0, e, rem, lin, snaps, poss, calls, trace, state, curr + 1),
{
    lemma_response_present(spec, h0, e, rem, lin, snaps, poss, calls, trace, state, curr);
    reveal(search_inv);
}

proof fn lemma_search_push<S: Specification>(
    spec: S,
    h0: Seq<Entry<S::Op>>,
    e: Seq<Entry<S::Op>>,
    rem: Seq<Option<usize>>,
    lin: Seq<int>,
    snaps: Seq<(Seq<Entry<S::Op>>, Seq<Option<usize>>)>,
    poss: Seq<int>,
    calls: Seq<((Entry<S::Op>, Entry<S::Op>), S::State)>,
    trace: Seq<S::State>,
    state: S::State,
    curr: int,
    index: int,
    new_state: S::State,
)
    requires
        search_inv(spec, h0, e, rem, lin, snaps, poss, calls, trace, state, curr),
        0 <= curr < e.len(),
        e[curr] is Call,
        0 <= index < e.len(),
        e[index].entry_id() == e[curr].response_id(),
        call_ensures(
            S::apply,
            (&spec, &e[curr].entry_operation(), &e[index].entry_operation(), &state),
            (true, new_state),
        ),
    ensures
        history::can_lift(e, rem, curr),
        ({
            let (e2, rem2, c, r) = history::lift_spec(e, rem, curr);
            search_inv(
                spec,
                h0,
                e2,
                rem2,
                lin.push(e[curr].entry_id() as int),
                snaps.push((e, rem)),
                poss.push(curr),
                calls.push(((c, r), state)),
                trace.push(new_state),
                new_state,
                0,
            )
        }),
{
    lemma_response_present(spec, h0, e, rem, lin, snaps, poss, calls, trace, state, curr);
    reveal(search_inv);
    let cid = e[curr].entry_id() as int;
    let rid = e[curr].response_id();
    assert(e[index] is Response);
    assert(!history::has_id(e.remove(curr), rid) ==> false) by {
        lemma_remove_has_id(e, curr, rid);
    }
    assert forall|k: int| 0 <= k < e.len() implies (#[trigger] e[k]).entry_id() < rem.len() by {}
    assert(history::can_lift(e, rem, curr));
    lemma_config_after_lift(h0, e, rem, lin, curr);
    let (e2, rem2, c, r) = history::lift_spec(e, rem, curr);
    let rest = e.remove(curr);
    history::lemma_first_index_of(rest, rid);
    let j = history::first_index_of(rest, rid);
    let jj = if j < curr {
        j
    } else {
        j + 1
    };
    assert(rest[j] == e[jj]);
    assert(r == e[jj]);
    assert(r == h0[rid as int]);
    assert(c == h0[cid]);
    assert(e[index] == h0[rid as int]);
    let lin2 = lin.push(cid);
    let snaps2 = snaps.push((e, rem));
    let poss2 = poss.push(curr);
    let calls2 = calls.push(((c, r), state));
    assert(lin2.take(lin.len() as int) =~= lin);
    assert(history::has_id(e, cid as usize));
    assert(!lifted(h0, lin, cid));
    assert forall|a: int| 0 <= a < lin.len() implies #[trigger] lin[a] < h0[cid].response_id() by {
        assert(e[jj] is Response);
    }
    assert forall|a: int, c2: int|
        0 <= a < c2 < lin2.len() implies #[trigger] lin2[a] < h0[#[trigger] lin2[c2]].response_id() by {
        if c2 < lin.len() {
        } else {
            assert(lin2[c2] == cid);
        }
    }
    assert forall|a: int, c2: int| 0 <= a < c2 < lin2.len() implies lin2[a] != lin2[c2] by {
        if c2 == lin.len() {
            if lin2[a] == cid {
                assert(lifted(h0, lin, cid));
            }
        }
    }
    let trace2 = trace.push(new_state);
    assert forall|d: int| 0 <= d < lin2.len() implies #[trigger] step_ok(
        spec,
        h0,
        lin2,
        trace2,
        d,
    ) by {
        if d < lin.len() {
            assert(step_ok(spec, h0, lin, trace, d));
        }
    }
    assert forall|d: int| 0 <= d < lin2.len() implies (#[trigger] calls2[d]).1 == trace2[d] by {}
    assert forall|d: int| 0 <= d < lin2.len() implies {
        &&& config_ok(h0, (#[trigger] snaps2[d]).0, snaps2[d].1, lin2.take(d))
        &&& history::can_lift(snaps2[d].0, snaps2[d].1, poss2[d])
        &&& 0 <= poss2[d] && poss2[d] + 2 <= snaps2[d].0.len()
        &&& snaps2[d].0[poss2[d]].entry_id() == lin2[d]
        &&& forall|k: int| 0 <= k < poss2[d] ==> (#[trigger] snaps2[d].0[k]) is Call
        &&& history::lift_spec(snaps2[d].0, snaps2[d].1, poss2[d]) == (
            next_config(snaps2, e2, rem2, d).0,
            next_config(snaps2, e2, rem2, d).1,
            calls2[d].0.0,
            calls2[d].0.1,
        )
    } by {
        if d < lin.len() {
            assert(lin2.take(d) =~= lin.take(d));
            assert(snaps2[d] == snaps[d]);
            if d + 1 < lin.len() {
                assert(next_config(snaps2, e2, rem2, d) == next_config(snaps, e, rem, d));
            } else {
                assert(next_config(snaps2, e2, rem2, d) == (e, rem));
            }
        } else {
            assert(snaps2[d] == (e, rem));
        }
    }
}

#[verifier::rlimit(100)]
#[verifier::spinoff_prover]
proof fn lemma_search_pop<S: Specification>(
    spec: S,
    h0: Seq<Entry<S::Op>>,
    e: Seq<Entry<S::Op>>,
    rem: Seq<Option<usize>>,
    lin: Seq<int>,
    snaps: Seq<(Seq<Entry<S::Op>>, Seq<Option<usize>>)>,
    poss: Seq<int>,
    calls: Seq<((Entry<S::Op>, Entry<S::Op>), S::State)>,
    trace: Seq<S::State>,
    state: S::State,
    curr: int,
)
    requires
        search_inv(spec, h0, e, rem, lin, snaps, poss, calls, trace, state, curr),
        lin.len() > 0,
    ensures
        ({
            let top = lin.len() - 1;
            let (c, r) = calls[top].0;
            &&& history::can_unlift(e, rem, c, r)
            &&& history::unlift_spec(e, rem, c, r) == snaps[top]
            &&& rem[c.entry_id() as int] == Some(poss[top] as usize)
            &&& c.entry_id() < h0.len()
            &&& search_inv(
                spec,
                h0,
                snaps[top].0,
                snaps[top].1,
                lin.drop_last(),
                snaps.drop_last(),
                poss.drop_last(),
                calls.drop_last(),
                trace.drop_last(),
                calls[top].1,
                poss[top] + 1,
            )
        }),
{
    reveal(search_inv);
    let top = lin.len() - 1;
    let (se, sr) = snaps[top];
    let p = poss[top];
    assert(config_ok(h0, se, sr, lin.take(top)));
    assert(history::can_lift(se, sr, p));
    assert(history::has_id(se, se[p].entry_id()));
    let rid = se[p].response_id();
    history::lemma_first_index_of(se.remove(p), rid);
    let j = history::first_index_of(se.remove(p), rid);
    let k1 = if j < p {
        j
    } else {
        j + 1
    };
    assert(se.remove(p)[j] == se[k1]);
    assert(history::has_id(se, rid));
    assert(se[p] == h0[lin[top]]);
    assert(rid < h0.len());
    assert(h0[rid as int] is Response);
    history::unlift_undoes_lift(se, sr, p);
    assert(next_config(snaps, e, rem, top) == (e, rem));
    let lin2 = lin.drop_last();
    let snaps2 = snaps.drop_last();
    let poss2 = poss.drop_last();
    let calls2 = calls.drop_last();
    assert(lin.take(top) =~= lin2);
    let trace2 = trace.drop_last();
    assert forall|d: int| 0 <= d < lin2.len() implies #[trigger] step_ok(
        spec,
        h0,
        lin2,
        trace2,
        d,
    ) by {
        assert(step_ok(spec, h0, lin, trace, d));
    }
    assert forall|d: int| 0 <= d < lin2.len() implies (#[trigger] calls2[d]).1 == trace2[d] by {
        assert(calls2[d] == calls[d]);
    }
    assert forall|d: int| 0 <= d < lin2.len() implies {
        &&& config_ok(h0, (#[trigger] snaps2[d]).0, snaps2[d].1, lin2.take(d))
        &&& history::can_lift(snaps2[d].0, snaps2[d].1, poss2[d])
        &&& 0 <= poss2[d] && poss2[d] + 2 <= snaps2[d].0.len()
        &&& snaps2[d].0[poss2[d]].entry_id() == lin2[d]
        &&& forall|k: int| 0 <= k < poss2[d] ==> (#[trigger] snaps2[d].0[k]) is Call
        &&& history::lift_spec(snaps2[d].0, snaps2[d].1, poss2[d]) == (
            next_config(snaps2, se, sr, d).0,
            next_config(snaps2, se, sr, d).1,
            calls2[d].0.0,
            calls2[d].0.1,
        )
    } by {
        assert(lin2.take(d) =~= lin.take(d));
        assert(snaps2[d] == snaps[d]);
        assert(calls2[d] == calls[d]);
        if d + 1 < lin2.len() {
            assert(next_config(snaps2, se, sr, d) == next_config(snaps, e, rem, d));
        } else {
            assert(next_config(snaps, e, rem, d) == snaps[top]);
        }
    }
    assert(forall|a: int| 0 <= a < lin2.len() ==> lin2[a] == lin[a]);
    assert(forall|a: int| 0 <= a < lin2.len() ==> calls2[a] == calls[a]);
}

proof fn lemma_search_done<S: Specification>(
    spec: S,
    h0: Seq<Entry<S::Op>>,
    e: Seq<Entry<S::Op>>,
    rem: Seq<Option<usize>>,
    lin: Seq<int>,
    snaps: Seq<(Seq<Entry<S::Op>>, Seq<Option<usize>>)>,
    poss: Seq<int>,
    calls: Seq<((Entry<S::Op>, Entry<S::Op>), S::State)>,
    trace: Seq<S::State>,
    state: S::State,
    curr: int,
)
    requires
        search_inv(spec, h0, e, rem, lin, snaps, poss, calls, trace, state, curr),
        e.len() == 0,
    ensures
        is_linearization(spec, h0, lin),
{
    reveal(search_inv);
    assert forall|k: int| 0 <= k < h0.len() && (#[trigger] h0[k]) is Call implies lin.contains(k) by {
        assert(!history::has_id(e, k as usize));
        assert(lifted(h0, lin, k));
        let a = choose|a: int|
            0 <= a < lin.len() && (lin[a] == k || h0[#[trigger] lin[a]].response_id() == k);
        assert(lin[a] == k);
    }
}

/// The search position is bounded.
proof fn lemma_search_measure<S: Specification>(
    spec: S,
    h0: Seq<Entry<S::Op>>,
    e: Seq<Entry<S::Op>>,
    rem: Seq<Option<usize>>,
    lin: Seq<int>,
    snaps: Seq<(Seq<Entry<S::Op>>, Seq<Option<usize>>)>,
    poss: Seq<int>,
    calls: Seq<((Entry<S::Op>, Entry<S::Op>), S::State)>,
    trace: Seq<S::State>,
    state: S::State,
    curr: int,
)
    requires
        search_inv(spec, h0, e, rem, lin, snaps, poss, calls, trace, state, curr),
    ensures
        0 <= value(digits(poss, curr, (h0.len() + 1) as nat), h0.len() + 1 as int) < pow(
            h0.len() + 1 as int,
            (h0.len() + 1) as nat,
        ),
        2 * lin.len() + e.len() == h0.len(),
        0 <= curr < h0.len(),
        e.len() > 0 ==> curr < e.len(),
        lin.len() == poss.len(),
        lin.len() == calls.len(),
        lin.len() == snaps.len(),
        forall|d: int| 0 <= d < poss.len() ==> 0 <= #[trigger] poss[d] && poss[d] + 2 <= h0.len(),
{
    reveal(search_inv);
    let n = h0.len();
    let ds = digits(poss, curr, (n + 1) as nat);
    assert forall|d: int| 0 <= d < poss.len() implies 0 <= #[trigger] poss[d] && poss[d] + 2
        <= h0.len() by {
        assert(config_ok(h0, snaps[d].0, snaps[d].1, lin.take(d)));
    }
    assert forall|d: int| 0 <= d < ds.len() implies 0 <= #[trigger] ds[d] < n + 1 by {}
    lemma_value_bound(ds, n + 1 as int);
}

proof fn lemma_measure_skip(poss: Seq<int>, curr: int, w: nat, b: int)
    requires
        poss.len() < w,
        b > 1,
    ensures
        value(digits(poss, curr + 1, w), b) > value(digits(poss, curr, w), b),
{
    lemma_digit_step(digits(poss, curr, w), digits(poss, curr + 1, w), b, poss.len() as int, 1);
}

proof fn lemma_measure_push(poss: Seq<int>, curr: int, w: nat, b: int)
    requires
        poss.len() + 1 < w,
        b > 1,
    ensures
        value(digits(poss.push(curr), 0, w), b) > value(digits(poss, curr, w), b),
{
    let s = digits(poss, curr, w);
    let t = digits(poss.push(curr), 0, w);
    assert forall|d: int| 0 <= d < s.len() && d != poss.len() + 1 implies s[d] == t[d] by {
        if d < poss.len() {
            assert(poss.push(curr)[d] == poss[d]);
        }
    }
    lemma_digit_step(s, t, b, poss.len() + 1 as int, 1);
}

proof fn lemma_measure_pop(poss: Seq<int>, curr: int, w: nat, b: int)
    requires
        1 <= poss.len() < w,
        b > 1,
        0 <= curr + 1 < b,
    ensures
        value(digits(poss.drop_last(), poss.last() + 1, w), b) > value(digits(poss, curr, w), b),
{
    let s = digits(poss, curr, w);
    let t = digits(poss.drop_last(), poss.last() + 1, w);
    let m = poss.len() as int;
    assert forall|d: int| 0 <= d < s.len() && d != m && d != m - 1 implies s[d] == t[d] by {
        if d < m - 1 {
            assert(poss.drop_last()[d] == poss[d]);
        }
    }
    lemma_backtrack_step(s, t, b, m);
}

/// The search has tried the call entry `entry` in the configuration where
/// the calls of `lin` are lifted and the state is `s`: no result of `apply`
/// that declares it valid leads to a configuration that can be completed.
spec fn tried<S: Specification>(
    spec: S,
    h0: Seq<Entry<S::Op>>,
    lin: Seq<int>,
    s: S::State,
    entry: Entry<S::Op>,
) -> bool {
    forall|ns: S::State|
        #[trigger] call_ensures(
            S::apply,
            (&spec, &entry.entry_operation(), &h0[entry.response_id() as int].entry_operation(), &s),
            (true, ns),
        ) ==> !completable(spec, h0, marks_of(h0.len(), lin.push(entry.entry_id() as int)), ns)
}

/// `key` is the cache key of the configuration at depth `j` of the search.
spec fn stack_key<S: Specification>(
    h0: Seq<Entry<S::Op>>,
    lin: Seq<int>,
    trace: Seq<S::State>,
    key: (Vec<bool>, S::State),
    j: int,
) -> bool {
    &&& 1 <= j <= lin.len()
    &&& key.0@ == marks_of(h0.len(), lin.take(j))
    &&& key.1 == trace[j]
}

/// What the search knows of the configurations it has explored: every call
/// before the current position, at the current depth and at each depth
/// below, has been tried; and every cached configuration either cannot be
/// completed or lies on the current path.
#[verifier::opaque]
spec fn memo_inv<S: Specification>(
    spec: S,
    h0: Seq<Entry<S::Op>>,
    e: Seq<Entry<S::Op>>,
    lin: Seq<int>,
    snaps: Seq<(Seq<Entry<S::Op>>, Seq<Option<usize>>)>,
    poss: Seq<int>,
    calls: Seq<((Entry<S::Op>, Entry<S::Op>), S::State)>,
    trace: Seq<S::State>,
    state: S::State,
    curr: int,
    cache: Set<(Vec<bool>, S::State)>,
) -> bool {
    &&& forall|k: int|
        0 <= k < curr && k < e.len() && (#[trigger] e[k]) is Call ==> tried(spec, h0, lin, state, e[k])
    &&& forall|d: int, k: int|
        0 <= d < lin.len() && 0 <= k < poss[d] && k < snaps[d].0.len() && (
        #[trigger] snaps[d].0[k]) is Call ==> tried(spec, h0, lin.take(d), calls[d].1, snaps[d].0[k])
    &&& forall|key: (Vec<bool>, S::State)|
        #[trigger] cache.contains(key) ==> !completable(spec, h0, key.0@, key.1) || exists|j: int|
            #[trigger] stack_key::<S>(h0, lin, trace, key, j)
}

/// Marking one more call marks it and keeps the other marks.
proof fn lemma_marks_push(n: nat, lin: Seq<int>, c: int)
    ensures
        forall|k: int| 0 <= k < n ==> #[trigger] marks_of(n, lin.push(c))[k] == (marks_of(n, lin)[k] || k == c),
{
    assert forall|k: int| 0 <= k < n implies #[trigger] marks_of(n, lin.push(c))[k] == (marks_of(n, lin)[k] || k == c) by {
        if lin.contains(k) {
            let a = choose|a: int| 0 <= a < lin.len() && lin[a] == k;
            assert(lin.push(c)[a] == k);
        }
        if k == c {
            assert(lin.push(c)[lin.len() as int] == c);
        }
        if lin.push(c).contains(k) {
            let a = choose|a: int| 0 <= a < lin.len() + 1 && lin.push(c)[a] == k;
            if a < lin.len() {
                assert(lin[a] == k);
            }
        }
    }
}

/// A history with a linearization, from the state that `init` returns, can
/// be completed with nothing lifted, when the specification answers alike.
proof fn lemma_initial<S: Specification>(spec: S, h0: Seq<Entry<S::Op>>, initial: S::State)
    requires
        well_behaved(spec),
        linearizable(spec, h0),
        call_ensures(S::init, (&spec,), initial),
    ensures
        completable(spec, h0, marks_of(h0.len(), Seq::empty()), initial),
{
    reveal(well_behaved);
    let order = choose|order: Seq<int>| is_linearization(spec, h0, order);
    let trace = choose|trace: Seq<S::State>| is_run(spec, h0, order, trace);
    assert(trace[0] == initial);
    let marks = marks_of(h0.len(), Seq::<int>::empty());
    assert forall|k: int| 0 <= k < h0.len() implies !#[trigger] marks[k] by {}
    assert(completes(spec, h0, marks, initial, order, trace));
}

/// A configuration whose next entry is a response, with every call before
/// it tried, cannot be completed.
proof fn lemma_stuck<S: Specification>(
    spec: S,
    h0: Seq<Entry<S::Op>>,
    e: Seq<Entry<S::Op>>,
    rem: Seq<Option<usize>>,
    lin: Seq<int>,
    snaps: Seq<(Seq<Entry<S::Op>>, Seq<Option<usize>>)>,
    poss: Seq<int>,
    calls: Seq<((Entry<S::Op>, Entry<S::Op>), S::State)>,
    trace: Seq<S::State>,
    state: S::State,
    curr: int,
    cache: Set<(Vec<bool>, S::State)>,
)
    requires
        search_inv(spec, h0, e, rem, lin, snaps, poss, calls, trace, state, curr),
        memo_inv(spec, h0, e, lin, snaps, poss, calls, trace, state, curr, cache),
        calls_answered(h0),
        0 <= curr < e.len(),
        e[curr] is Response,
    ensures
        !completable(spec, h0, marks_of(h0.len(), lin), state),
{
    reveal(search_inv);
    reveal(memo_inv);
    let n = h0.len();
    let marks = marks_of(n, lin);
    if completable(spec, h0, marks, state) {
        let (order, tr) = choose|order: Seq<int>, tr: Seq<S::State>|
            completes(spec, h0, marks, state, order, tr);
        let r = e[curr].entry_id() as int;
        assert(e[curr] == h0[r]);
        let x = choose|x: int| 0 <= x < h0.len() && (#[trigger] h0[x]) is Call && h0[x].response_id() == r;
        assert(history::has_id(e, r as usize));
        if lin.contains(x) {
            let a = choose|a: int| 0 <= a < lin.len() && lin[a] == x;
            assert(h0[lin[a]].response_id() == r);
            assert(lifted(h0, lin, r));
        }
        assert(!marks[x]);
        assert(order.contains(x));
        let bx = choose|b: int| 0 <= b < order.len() && order[b] == x;
        let c = order[0];
        assert(c < r) by {
            if bx > 0 {
                assert(order[0] < h0[order[bx]].response_id());
            }
        }
        assert(h0[c] is Call && !marks[c]);
        if lifted(h0, lin, c) {
            let a = choose|a: int|
                0 <= a < lin.len() && (lin[a] == c || h0[#[trigger] lin[a]].response_id() == c);
            if lin[a] == c {
                assert(lin.contains(c));
            } else {
                assert(h0[lin[a]] is Call);
            }
        }
        assert(history::has_id(e, c as usize));
        let p = choose|p: int| 0 <= p < e.len() && e[p].entry_id() == c as usize;
        if p >= curr {
            assert(e[curr].entry_id() < e[p].entry_id());
        }
        assert(e[p] == h0[c]);
        assert(tried(spec, h0, lin, state, e[p]));
        assert(step_ok(spec, h0, order, tr, 0));
        let order2 = order.drop_first();
        let tr2 = tr.drop_first();
        let marks2 = marks_of(n, lin.push(c));
        lemma_marks_push(n, lin, c);
        assert forall|d: int| 0 <= d < order2.len() implies #[trigger] step_ok(
            spec,
            h0,
            order2,
            tr2,
            d,
        ) by {
            assert(step_ok(spec, h0, order, tr, d + 1));
        }
        assert forall|k: int|
            0 <= k < h0.len() && (#[trigger] h0[k]) is Call && !marks2[k] implies order2.contains(k) by {
            assert(order.contains(k));
            let b = choose|b: int| 0 <= b < order.len() && order[b] == k;
            assert(b != 0);
            assert(order2[b - 1] == k);
        }
        assert forall|a: int| 0 <= a < order2.len() implies 0 <= #[trigger] order2[a] < h0.len()
            && h0[order2[a]] is Call && !marks2[order2[a]] by {
            assert(order2[a] == order[a + 1]);
            assert(order[0] != order[a + 1]);
        }
        assert forall|a: int, b: int| 0 <= a < b < order2.len() implies #[trigger] order2[a] < h0[
            #[trigger] order2[b]].response_id() by {
            assert(order2[a] == order[a + 1]);
            assert(order2[b] == order[b + 1]);
        }
        assert forall|a: int, b: int| 0 <= a < b < order2.len() implies order2[a] != order2[b] by {
            assert(order2[a] == order[a + 1]);
            assert(order2[b] == order[b + 1]);
        }
        assert(completes(spec, h0, marks2, tr[1], order2, tr2));
        assert(completable(spec, h0, marks2, tr[1]));
    }
}

proof fn lemma_memo_init<S: Specification>(spec: S, h0: Seq<Entry<S::Op>>, initial: S::State)
    ensures
        memo_inv(
            spec,
            h0,
            h0,
            Seq::empty(),
            Seq::empty(),
            Seq::empty(),
            Seq::empty(),
            seq![initial],
            initial,
            0,
            Set::empty(),
        ),
{
    reveal(memo_inv);
}

/// A call that was declared invalid, or whose configuration was cached
/// already, has been tried.
proof fn lemma_memo_skip<S: Specification>(
    spec: S,
    h0: Seq<Entry<S::Op>>,
    e: Seq<Entry<S::Op>>,
    rem: Seq<Option<usize>>,
    lin: Seq<int>,
    snaps: Seq<(Seq<Entry<S::Op>>, Seq<Option<usize>>)>,
    poss: Seq<int>,
    calls: Seq<((Entry<S::Op>, Entry<S::Op>), S::State)>,
    trace: Seq<S::State>,
    state: S::State,
    curr: int,
    cache: Set<(Vec<bool>, S::State)>,
    valid: bool,
    next: S::State,
    key: (Vec<bool>, S::State),
    fresh: bool,
    new_cache: Set<(Vec<bool>, S::State)>,
)
    requires
        search_inv(spec, h0, e, rem, lin, snaps, poss, calls, trace, state, curr),
        memo_inv(spec, h0, e, lin, snaps, poss, calls, trace, state, curr, cache),
        well_behaved(spec),
        0 <= curr < e.len(),
        e[curr] is Call,
        call_ensures(
            S::apply,
            (&spec, &e[curr].entry_operation(), &h0[e[curr].response_id() as int].entry_operation(), &state),
            (valid, next),
        ),
        !fresh,
        vstd::std_specs::hash::builds_valid_hashers::<std::hash::RandomState>(),
        valid ==> (vstd::std_specs::hash::obeys_key_model::<(Vec<bool>, S::State)>()
            && vstd::std_specs::hash::builds_valid_hashers::<std::hash::RandomState>() ==> {
            &&& new_cache == cache.insert(key)
            &&& fresh == !cache.contains(key)
        }),
        !valid ==> new_cache == cache,
        valid ==> key.0@ == marks_of(h0.len(), lin.push(e[curr].entry_id() as int)),
        valid ==> cloned(next, key.1),
    ensures
        memo_inv(spec, h0, e, lin, snaps, poss, calls, trace, state, curr + 1, new_cache),
{
    reveal(search_inv);
    reveal(memo_inv);
    reveal(well_behaved);
    if valid {
        assert(cache.contains(key));
        assert(new_cache =~= cache);
        assert(key.1 == next);
    }
    let n = h0.len();
    let cid = e[curr].entry_id() as int;
    assert forall|ns: S::State|
        #[trigger] call_ensures(
            S::apply,
            (&spec, &e[curr].entry_operation(), &h0[e[curr].response_id() as int].entry_operation(), &state),
            (true, ns),
        ) implies !completable(spec, h0, marks_of(n, lin.push(cid)), ns) by {
        assert((true, ns) == (valid, next));
        if exists|j: int| #[trigger] stack_key::<S>(h0, lin, trace, key, j) {
            let j = choose|j: int| #[trigger] stack_key::<S>(h0, lin, trace, key, j);
            assert(history::has_id(e, cid as usize));
            assert(!lifted(h0, lin, cid));
            lemma_marks_push(n, lin, cid);
            assert(marks_of(n, lin.push(cid))[cid]);
            if lin.take(j).contains(cid) {
                let a = choose|a: int| 0 <= a < j && lin.take(j)[a] == cid;
                assert(lin[a] == cid);
            }
            assert(!marks_of(n, lin.take(j))[cid]);
        }
    }
}

/// After a push, the cache holds the new configuration on the path.
proof fn lemma_memo_push<S: Specification>(
    spec: S,
    h0: Seq<Entry<S::Op>>,
    e: Seq<Entry<S::Op>>,
    e2: Seq<Entry<S::Op>>,
    rem: Seq<Option<usize>>,
    lin: Seq<int>,
    snaps: Seq<(Seq<Entry<S::Op>>, Seq<Option<usize>>)>,
    poss: Seq<int>,
    calls: Seq<((Entry<S::Op>, Entry<S::Op>), S::State)>,
    trace: Seq<S::State>,
    state: S::State,
    curr: int,
    cache: Set<(Vec<bool>, S::State)>,
    pair: (Entry<S::Op>, Entry<S::Op>),
    next: S::State,
    key: (Vec<bool>, S::State),
    new_cache: Set<(Vec<bool>, S::State)>,
)
    requires
        search_inv(spec, h0, e, rem, lin, snaps, poss, calls, trace, state, curr),
        memo_inv(spec, h0, e, lin, snaps, poss, calls, trace, state, curr, cache),
        well_behaved(spec),
        0 <= curr < e.len(),
        key.0@ == marks_of(h0.len(), lin.push(e[curr].entry_id() as int)),
        cloned(next, key.1),
        vstd::std_specs::hash::builds_valid_hashers::<std::hash::RandomState>(),
        vstd::std_specs::hash::obeys_key_model::<(Vec<bool>, S::State)>()
            && vstd::std_specs::hash::builds_valid_hashers::<std::hash::RandomState>() ==> new_cache
            == cache.insert(key),
    ensures
        memo_inv(
            spec,
            h0,
            e2,
            lin.push(e[curr].entry_id() as int),
            snaps.push((e, rem)),
            poss.push(curr),
            calls.push((pair, state)),
            trace.push(next),
            next,
            0,
            new_cache,
        ),
{
    reveal(search_inv);
    reveal(memo_inv);
    reveal(well_behaved);
    assert(key.1 == next);
    let lin2 = lin.push(e[curr].entry_id() as int);
    let snaps2 = snaps.push((e, rem));
    let poss2 = poss.push(curr);
    let calls2 = calls.push((pair, state));
    let trace2 = trace.push(next);
    assert(lin2.take(lin.len() as int) =~= lin);
    assert forall|d: int, k: int|
        0 <= d < lin2.len() && 0 <= k < poss2[d] && k < snaps2[d].0.len() && (
        #[trigger] snaps2[d].0[k]) is Call implies tried(spec, h0, lin2.take(d), calls2[d].1, snaps2[d].0[k]) by {
        if d < lin.len() {
            assert(lin2.take(d) =~= lin.take(d));
            assert(snaps2[d] == snaps[d]);
            assert(calls2[d] == calls[d]);
            assert(poss2[d] == poss[d]);
        }
    }
    assert forall|k2: (Vec<bool>, S::State)|
        #[trigger] new_cache.contains(k2) implies !completable(spec, h0, k2.0@, k2.1) || exists|j: int|
            #[trigger] stack_key::<S>(h0, lin2, trace2, k2, j) by {
        if k2 == key {
            assert(lin2.take(lin2.len() as int) =~= lin2);
            assert(stack_key::<S>(h0, lin2, trace2, k2, lin2.len() as int));
        } else if exists|j: int| #[trigger] stack_key::<S>(h0, lin, trace, k2, j) {
            let j = choose|j: int| #[trigger] stack_key::<S>(h0, lin, trace, k2, j);
            assert(lin2.take(j) =~= lin.take(j));
            assert(stack_key::<S>(h0, lin2, trace2, k2, j));
        }
    }
}

/// After a pop, the call that was lifted has been tried at the depth below.
#[verifier::rlimit(40)]
proof fn lemma_memo_pop<S: Specification>(
    spec: S,
    h0: Seq<Entry<S::Op>>,
    e: Seq<Entry<S::Op>>,
    rem: Seq<Option<usize>>,
    lin: Seq<int>,
    snaps: Seq<(Seq<Entry<S::Op>>, Seq<Option<usize>>)>,
    poss: Seq<int>,
    calls: Seq<((Entry<S::Op>, Entry<S::Op>), S::State)>,
    trace: Seq<S::State>,
    state: S::State,
    curr: int,
    cache: Set<(Vec<bool>, S::State)>,
)
    requires
        search_inv(spec, h0, e, rem, lin, snaps, poss, calls, trace, state, curr),
        memo_inv(spec, h0, e, lin, snaps, poss, calls, trace, state, curr, cache),
        well_behaved(spec),
        calls_answered(h0),
        0 <= curr < e.len(),
        e[curr] is Response,
        lin.len() > 0,
    ensures
        ({
            let top = lin.len() - 1;
            memo_inv(
                spec,
                h0,
                snaps[top].0,
                lin.drop_last(),
                snaps.drop_last(),
                poss.drop_last(),
                calls.drop_last(),
                trace.drop_last(),
                calls[top].1,
                poss[top] + 1,
                cache,
            )
        }),
{
    lemma_stuck(spec, h0, e, rem, lin, snaps, poss, calls, trace, state, curr, cache);
    reveal(search_inv);
    reveal(memo_inv);
    let n = h0.len();
    let top = lin.len() - 1;
    let lin2 = lin.drop_last();
    let snaps2 = snaps.drop_last();
    let poss2 = poss.drop_last();
    let calls2 = calls.drop_last();
    let trace2 = trace.drop_last();
    reveal(well_behaved);
    let se = snaps[top].0;
    let p = poss[top];
    assert(lin.take(top) =~= lin2);
    assert(lin2.push(lin[top]) =~= lin);
    assert forall|k: int| 0 <= k < p + 1 && k < se.len() && (#[trigger] se[k]) is Call implies tried(
        spec,
        h0,
        lin2,
        calls[top].1,
        se[k],
    ) by {
        if k == p {
            assert(config_ok(h0, se, snaps[top].1, lin.take(top)));
            assert(se[p].entry_id() == lin[top]);
            assert(se[p] == h0[lin[top]]);
            assert(step_ok(spec, h0, lin, trace, top));
            assert(calls[top].1 == trace[top]);
            assert forall|ns: S::State|
                #[trigger] call_ensures(
                    S::apply,
                    (&spec, &se[k].entry_operation(), &h0[se[k].response_id() as int].entry_operation(), &calls[top].1),
                    (true, ns),
                ) implies !completable(spec, h0, marks_of(n, lin2.push(se[k].entry_id() as int)), ns) by {
                assert(ns == trace[top + 1]);
            }
        }
    }
    assert forall|d: int, k: int|
        0 <= d < lin2.len() && 0 <= k < poss2[d] && k < snaps2[d].0.len() && (
        #[trigger] snaps2[d].0[k]) is Call implies tried(spec, h0, lin2.take(d), calls2[d].1, snaps2[d].0[k]) by {
        assert(lin2.take(d) =~= lin.take(d));
        assert(snaps2[d] == snaps[d]);
        assert(calls2[d] == calls[d]);
        assert(poss2[d] == poss[d]);
    }
    assert forall|k2: (Vec<bool>, S::State)|
        #[trigger] cache.contains(k2) implies !completable(spec, h0, k2.0@, k2.1) || exists|j: int|
            #[trigger] stack_key::<S>(h0, lin2, trace2, k2, j) by {
        if exists|j: int| #[trigger] stack_key::<S>(h0, lin, trace, k2, j) {
            let j = choose|j: int| #[trigger] stack_key::<S>(h0, lin, trace, k2, j);
            if j == lin.len() {
                assert(lin.take(j) =~= lin);
            } else {
                assert(lin2.take(j) =~= lin.take(j));
                assert(stack_key::<S>(h0, lin2, trace2, k2, j));
            }
        }
    }
}

/// When the search gives up, no linearization exists, if the
/// specification answers alike.
proof fn lemma_memo_fail<S: Specification>(
    spec: S,
    h0: Seq<Entry<S::Op>>,
    e: Seq<Entry<S::Op>>,
    rem: Seq<Option<usize>>,
    lin: Seq<int>,
    snaps: Seq<(Seq<Entry<S::Op>>, Seq<Option<usize>>)>,
    poss: Seq<int>,
    calls: Seq<((Entry<S::Op>, Entry<S::Op>), S::State)>,
    trace: Seq<S::State>,
    state: S::State,
    curr: int,
    cache: Set<(Vec<bool>, S::State)>,
)
    requires
        search_inv(spec, h0, e, rem, lin, snaps, poss, calls, trace, state, curr),
        memo_inv(spec, h0, e, lin, snaps, poss, calls, trace, state, curr, cache),
        well_behaved(spec),
        calls_answered(h0),
        0 <= curr < e.len(),
        e[curr] is Response,
        lin.len() == 0,
    ensures
        !linearizable(spec, h0),
{
    lemma_stuck(spec, h0, e, rem, lin, snaps, poss, calls, trace, state, curr, cache);
    reveal(search_inv);
    assert(lin =~= Seq::<int>::empty());
    if linearizable(spec, h0) {
        lemma_initial(spec, h0, state);
    }
}

/// The lifted calls are distinct calls of the history, each recorded with
/// its entry.
proof fn lemma_lin_facts<S: Specification>(
    spec: S,
    h0: Seq<Entry<S::Op>>,
    e: Seq<Entry<S::Op>>,
    rem: Seq<Option<usize>>,
    lin: Seq<int>,
    snaps: Seq<(Seq<Entry<S::Op>>, Seq<Option<usize>>)>,
    poss: Seq<int>,
    calls: Seq<((Entry<S::Op>, Entry<S::Op>), S::State)>,
    trace: Seq<S::State>,
    state: S::State,
    curr: int,
)
    requires
        search_inv(spec, h0, e, rem, lin, snaps, poss, calls, trace, state, curr),
    ensures
        forall|a: int, c: int| 0 <= a < c < lin.len() ==> lin[a] != lin[c],
        forall|a: int| 0 <= a < lin.len() ==> 0 <= #[trigger] lin[a] < h0.len(),
        forall|a: int| 0 <= a < lin.len() ==> (#[trigger] calls[a]).0.0.entry_id() == lin[a],
{
    reveal(search_inv);
    assert forall|a: int| 0 <= a < lin.len() implies (#[trigger] calls[a]).0.0.entry_id()
        == lin[a] by {
        assert(calls[a].0.0 == h0[lin[a]]);
    }
}

/// Unmarking the last of distinct lifted calls unmarks it alone.
proof fn lemma_marks_pop(n: nat, lin: Seq<int>)
    requires
        lin.len() > 0,
        forall|a: int, c: int| 0 <= a < c < lin.len() ==> lin[a] != lin[c],
        0 <= lin.last() < n,
    ensures
        marks_of(n, lin.drop_last()) == marks_of(n, lin).update(lin.last(), false),
{
    let last = lin.len() - 1;
    assert forall|k: int| 0 <= k < n implies #[trigger] marks_of(n, lin.drop_last())[k] == marks_of(
        n,
        lin,
    ).update(lin.last(), false)[k] by {
        if lin.drop_last().contains(k) {
            let a = choose|a: int| 0 <= a < last && lin.drop_last()[a] == k;
            assert(lin[a] == k);
        }
        if lin.contains(k) && k != lin.last() {
            let a = choose|a: int| 0 <= a < lin.len() && lin[a] == k;
            assert(lin.drop_last()[a] == k);
        }
    }
    assert(marks_of(n, lin.drop_last()) =~= marks_of(n, lin).update(lin.last(), false));
}

impl<S: Specification> WLGChecker<S> {
    /// Returns whether the history is linearizable with respect to the
    /// specification.
    ///
    /// The search lifts, one at a time, calls that precede every response
    /// still in the history; when it reaches a response it backtracks. A
    /// cache of (lifted calls, state) pairs prunes configurations that were
    /// already explored.
    #[verifier::rlimit(100)]
    pub fn is_linearizable(&self, history: History<S::Op>) -> (r: bool)
        requires
            history.complete(),
        ensures
            r ==> linearizable(self.spec, history@),
            history@.len() == 0 ==> r,
            well_behaved(self.spec) && calls_answered(history@) ==> (r <==> linearizable(
                self.spec,
                history@,
            )),
    {
        let mut hist = history;
        let ghost h0 = hist@;
        let n = hist.len();
        let mut state = self.spec.init();
        if n == 0 {
            proof {
                assert(is_run(self.spec, h0, Seq::<int>::empty(), seq![state]));
                assert(is_linearization(self.spec, h0, Seq::<int>::empty()));
            }
            return true;
        }
        let mut linearized: Vec<bool> = Vec::new();
        while linearized.len() < n
            invariant
                linearized@.len() <= n,
                forall|k: int| 0 <= k < linearized@.len() ==> !#[trigger] linearized@[k],
            decreases n - linearized@.len(),
        {
            linearized.push(false);
        }
        let mut calls: Vec<((Entry<S::Op>, Entry<S::Op>), S::State)> = Vec::new();
        let mut cache: HashSet<(Vec<bool>, S::State)> = HashSet::new();
        let mut curr: usize = 0;
        let ghost mut lin: Seq<int> = Seq::empty();
        let ghost mut snaps: Seq<(Seq<Entry<S::Op>>, Seq<Option<usize>>)> = Seq::empty();
        let ghost mut poss: Seq<int> = Seq::empty();
        let ghost mut trace: Seq<S::State> = seq![state];
        let ghost w: nat = (n + 1) as nat;
        let ghost b: int = n + 1;
        proof {
            lemma_search_init(self.spec, h0, hist.removed(), state);
            lemma_memo_init(self.spec, h0, state);
            broadcast use vstd::std_specs::hash::axiom_random_state_builds_valid_hashers;
            assert(linearized@ =~= marks_of(n as nat, lin));
        }
        loop
            invariant
                search_inv(
                    self.spec,
                    h0,
                    hist@,
                    hist.removed(),
                    lin,
                    snaps,
                    poss,
                    calls@,
                    trace,
                    state,
                    curr as int,
                ),
                n == h0.len(),
                h0 == history@,
                w == n + 1,
                b == n + 1,
                linearized@ == marks_of(n as nat, lin),
                vstd::std_specs::hash::builds_valid_hashers::<std::hash::RandomState>(),
                well_behaved(self.spec) && calls_answered(h0) ==> memo_inv(
                    self.spec,
                    h0,
                    hist@,
                    lin,
                    snaps,
                    poss,
                    calls@,
                    trace,
                    state,
                    curr as int,
                    cache@,
                ),
            decreases pow(b, w) - value(digits(poss, curr as int, w), b),
        {
            proof {
                lemma_search_measure(
                    self.spec,
                    h0,
                    hist@,
                    hist.removed(),
                    lin,
                    snaps,
                    poss,
                    calls@,
                    trace,
                    state,
                    curr as int,
                );
            }
            if hist.is_empty() {
                proof {
                    lemma_search_done(
                        self.spec,
                        h0,
                        hist@,
                        hist.removed(),
                        lin,
                        snaps,
                        poss,
                        calls@,
                        trace,
                        state,
                        curr as int,
                    );
                    assert(linearizable(self.spec, h0));
                }
                return true;
            }
            let ghost e = hist@;
            let ghost rem = hist.removed();
            let (is_call, call_id, response_id) = match hist.index(curr) {
                Entry::Call(call) => (true, call.id, call.response),
                Entry::Response(response) => (false, response.id, 0),
            };
            if is_call {
                proof {
                    lemma_response_present(
                        self.spec,
                        h0,
                        e,
                        rem,
                        lin,
                        snaps,
                        poss,
                        calls@,
                        trace,
                        state,
                        curr as int,
                    );
                }
                let index = hist.index_of_id(response_id);
                let (is_valid, new_state) = match (hist.index(curr), hist.index(index)) {
                    (Entry::Call(call), Entry::Response(response)) => self.spec.apply(
                        &call.operation,
                        &response.operation,
                        &state,
                    ),
                    _ => {
                        proof {
                            assert(false);
                        }
                        return false;
                    },
                };
                let mut tmp_linearized = linearized.clone();
                tmp_linearized.set(call_id, true);
                proof {
                    lemma_marks_push(n as nat, lin, call_id as int);
                    assert(tmp_linearized@ =~= marks_of(n as nat, lin.push(call_id as int)));
                }
                let ghost old_cache = cache@;
                let ghost mut key: (Vec<bool>, S::State) = (tmp_linearized, new_state);
                let mut fresh = false;
                if is_valid {
                    let cached = (tmp_linearized, new_state.clone());
                    proof {
                        key = cached;
                    }
                    fresh = cache.insert(cached);
                }
                if !fresh {
                    proof {
                        if well_behaved(self.spec) && calls_answered(h0) {
                            lemma_memo_skip(
                                self.spec,
                                h0,
                                e,
                                rem,
                                lin,
                                snaps,
                                poss,
                                calls@,
                                trace,
                                state,
                                curr as int,
                                old_cache,
                                is_valid,
                                new_state,
                                key,
                                fresh,
                                cache@,
                            );
                        }
                        lemma_search_skip(
                            self.spec,
                            h0,
                            e,
                            rem,
                            lin,
                            snaps,
                            poss,
                            calls@,
                            trace,
                            state,
                            curr as int,
                        );
                        lemma_measure_skip(poss, curr as int, w, b);
                        lemma_search_measure(
                            self.spec,
                            h0,
                            e,
                            rem,
                            lin,
                            snaps,
                            poss,
                            calls@,
                            trace,
                            state,
                            curr + 1,
                        );
                    }
                    curr = curr + 1;
                    continue ;
                }
                linearized.set(call_id, true);
                proof {
                    lemma_search_push(
                        self.spec,
                        h0,
                        e,
                        rem,
                        lin,
                        snaps,
                        poss,
                        calls@,
                        trace,
                        state,
                        curr as int,
                        index as int,
                        new_state,
                    );
                    lemma_measure_push(poss, curr as int, w, b);
                }
                let pair = hist.lift(curr);
                proof {
                    if well_behaved(self.spec) && calls_answered(h0) {
                        lemma_memo_push(
                            self.spec,
                            h0,
                            e,
                            hist@,
                            rem,
                            lin,
                            snaps,
                            poss,
                            calls@,
                            trace,
                            state,
                            curr as int,
                            old_cache,
                            pair,
                            new_state,
                            key,
                            cache@,
                        );
                    }
                    snaps = snaps.push((e, rem));
                    poss = poss.push(curr as int);
                    lin = lin.push(call_id as int);
                    trace = trace.push(new_state);
                }
                calls.push((pair, state));
                state = new_state;
                curr = 0;
                proof {
                    lemma_search_measure(
                        self.spec,
                        h0,
                        hist@,
                        hist.removed(),
                        lin,
                        snaps,
                        poss,
                        calls@,
                        trace,
                        state,
                        curr as int,
                    );
                }
            } else {
                let ghost old_calls = calls@;
                proof {
                    if lin.len() > 0 {
                        lemma_search_pop(
                            self.spec,
                            h0,
                            e,
                            rem,
                            lin,
                            snaps,
                            poss,
                            calls@,
                            trace,
                            state,
                            curr as int,
                        );
                        lemma_measure_pop(poss, curr as int, w, b);
                        lemma_lin_facts(
                            self.spec,
                            h0,
                            e,
                            rem,
                            lin,
                            snaps,
                            poss,
                            calls@,
                            trace,
                            state,
                            curr as int,
                        );
                        lemma_marks_pop(n as nat, lin);
                    }
                    if well_behaved(self.spec) && calls_answered(h0) {
                        if lin.len() > 0 {
                            lemma_memo_pop(
                                self.spec,
                                h0,
                                e,
                                rem,
                                lin,
                                snaps,
                                poss,
                                calls@,
                                trace,
                                state,
                                curr as int,
                                cache@,
                            );
                        } else {
                            lemma_memo_fail(
                                self.spec,
                                h0,
                                e,
                                rem,
                                lin,
                                snaps,
                                poss,
                                calls@,
                                trace,
                                state,
                                curr as int,
                                cache@,
                            );
                        }
                    }
                }
                match calls.pop() {
                    None => {
                        return false;
                    },
                    Some(((call, response), old_state)) => {
                        state = old_state;
                        linearized.set(call.id(), false);
                        let (call_index, _) = hist.unlift(call, response);
                        proof {
                            let top = lin.len() - 1;
                            lin = lin.drop_last();
                            snaps = snaps.drop_last();
                            poss = poss.drop_last();
                            trace = trace.drop_last();
                        }
                        curr = call_index + 1;
                        proof {
                            lemma_search_measure(
                                self.spec,
                                h0,
                                hist@,
                                hist.removed(),
                                lin,
                                snaps,
                                poss,
                                calls@,
                                trace,
                                state,
                                curr as int,
                            );
                        }
                    },
                }
            }
        }
    }
}

} // verus!
