//! The decisions of a message-passing atomic register, after Attiya,
//! Bar-Noy and Dolev: each server keeps a labelled value, a read returns the
//! greatest labelled value that a majority reports, and a server keeps the
//! greater of its value and one it is sent.
use vstd::prelude::*;

verus! {

/// A value held by one server, with the label of the write that produced it.
///
/// Labelled values are ordered by label first, and by value where labels
/// match.
#[derive(Clone, Copy, Debug, Default, PartialEq, Eq, PartialOrd, Ord)]
pub struct LocalValue<T> {
    pub label: u32,
    pub value: T,
}

/// `a` comes before `b`: its label is smaller, or the labels match and its
/// value is smaller.
pub open spec fn precedes(a: LocalValue<u32>, b: LocalValue<u32>) -> bool {
    a.label < b.label || (a.label == b.label && a.value < b.value)
}

/// Labelled values are totally ordered: no value comes before itself, the
/// order is transitive, and of two different values one comes before the
/// other. So the greater of two values is the same whichever is merged into
/// which.
pub proof fn precedes_is_a_total_order(a: LocalValue<u32>, b: LocalValue<u32>, c: LocalValue<u32>)
    ensures
        !precedes(a, a),
        precedes(a, b) && precedes(b, c) ==> precedes(a, c),
        a != b ==> precedes(a, b) || precedes(b, a),
        precedes(a, b) ==> !precedes(b, a),
{
}

/// Labelled values are ordered by label first: a value with a smaller label
/// comes before one with a greater label, whatever their values; of two
/// values with the same label, the smaller value comes first.
pub proof fn precedes_orders_by_label_then_value(a: LocalValue<u32>, b: LocalValue<u32>)
    ensures
        a.label < b.label ==> precedes(a, b) && !precedes(b, a),
        a.label == b.label ==> (precedes(a, b) <==> a.value < b.value),
        precedes(a, b) ==> a.label <= b.label,
{
}

/// `m` is the greatest of the values that `info` holds.
pub open spec fn is_greatest(info: Seq<Option<LocalValue<u32>>>, m: LocalValue<u32>) -> bool {
    &&& exists|k: int| 0 <= k < info.len() && info[k] == Some(m)
    &&& forall|k: int|
        0 <= k < info.len() && (#[trigger] info[k]) is Some ==> !precedes(m, info[k]->0)
}

impl LocalValue<u32> {
    /// Returns whether this value comes before `other`.
    pub fn precedes(&self, other: &Self) -> (r: bool)
        ensures
            r == precedes(*self, *other),
    {
        self.label < other.label || (self.label == other.label && self.value < other.value)
    }

    /// Keeps the greater of this value and `other`.
    pub fn merge(&mut self, other: Self)
        ensures
            *final(self) == if precedes(*old(self), other) {
                other
            } else {
                *old(self)
            },
            old(self).label < other.label ==> *final(self) == other,
            other.label < old(self).label ==> *final(self) == *old(self),
            final(self).label == if old(self).label < other.label {
                other.label
            } else {
                old(self).label
            },
            old(self).label == other.label ==> final(self).value == if old(self).value < other.value {
                other.value
            } else {
                old(self).value
            },
    {
        proof {
            precedes_orders_by_label_then_value(*self, other);
            precedes_orders_by_label_then_value(other, *self);
        }
        if self.precedes(&other) {
            *self = other;
        }
    }
}

/// The number of neighbours, out of `neighbors`, whose replies make up a
/// majority together with the server's own value: half of them, rounded up.
pub fn majority(neighbors: usize) -> (r: usize)
    ensures
        r == (neighbors + 1) / 2,
        2 * r >= neighbors,
        2 * r <= neighbors + 1,
{
    neighbors / 2 + neighbors % 2
}

/// Returns the greatest of the labelled values gathered from the servers;
/// servers that did not reply count for nothing.
pub fn latest(info: &Vec<Option<LocalValue<u32>>>) -> (r: Option<LocalValue<u32>>)
    ensures
        r is None <==> forall|k: int| 0 <= k < info@.len() ==> (#[trigger] info@[k]) is None,
        r matches Some(m) ==> is_greatest(info@, m),
        r matches Some(m) ==> forall|k: int|
            0 <= k < info@.len() && (#[trigger] info@[k]) is Some ==> {
                &&& info@[k]->0.label <= m.label
                &&& info@[k]->0.label == m.label ==> info@[k]->0.value <= m.value
            },
{
    let mut best: Option<LocalValue<u32>> = None;
    let mut k: usize = 0;
    while k < info.len()
        invariant
            k <= info@.len(),
            best is None <==> forall|j: int| 0 <= j < k ==> (#[trigger] info@[j]) is None,
            best matches Some(m) ==> is_greatest(info@.take(k as int), m),
        decreases info@.len() - k,
    {
        let ghost prefix = info@.take(k as int);
        let ghost next = info@.take(k + 1);
        assert(next =~= prefix.push(info@[k as int]));
        match info[k] {
            Some(candidate) => {
                match best {
                    None => {
                        best = Some(candidate);
                        assert(next[k as int] == Some(candidate));
                    },
                    Some(m) => {
                        let ghost j0 = choose|j: int| 0 <= j < prefix.len() && prefix[j] == Some(m);
                        assert(next[j0] == Some(m));
                        if m.precedes(&candidate) {
                            best = Some(candidate);
                            assert(next[k as int] == Some(candidate));
                            assert forall|j: int|
                                0 <= j < next.len() && (#[trigger] next[j]) is Some implies !precedes(
                                candidate,
                                next[j]->0,
                            ) by {
                                if j < k {
                                    assert(next[j] == prefix[j]);
                                }
                            }
                        } else {
                            assert forall|j: int|
                                0 <= j < next.len() && (#[trigger] next[j]) is Some implies !precedes(
                                m,
                                next[j]->0,
                            ) by {
                                if j < k {
                                    assert(next[j] == prefix[j]);
                                }
                            }
                        }
                    },
                }
            },
            None => {
                match best {
                    None => {},
                    Some(m) => {
                        let ghost j0 = choose|j: int| 0 <= j < prefix.len() && prefix[j] == Some(m);
                        assert(next[j0] == Some(m));
                        assert forall|j: int|
                            0 <= j < next.len() && (#[trigger] next[j]) is Some implies !precedes(
                            m,
                            next[j]->0,
                        ) by {
                            if j < k {
                                assert(next[j] == prefix[j]);
                            }
                        }
                    },
                }
            },
        }
        k = k + 1;
    }
    assert(info@.take(info@.len() as int) =~= info@);
    proof {
        if best is Some {
            let m = best->0;
            assert forall|k: int|
                0 <= k < info@.len() && (#[trigger] info@[k]) is Some implies {
                    &&& info@[k]->0.label <= m.label
                    &&& info@[k]->0.label == m.label ==> info@[k]->0.value <= m.value
                } by {
                precedes_orders_by_label_then_value(m, info@[k]->0);
            }
        }
    }
    best
}

} // verus!
