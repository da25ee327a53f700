use std::collections::HashMap;
use vstd::prelude::*;

verus! {

broadcast use vstd::std_specs::hash::group_hash_axioms;

/// An unordered pair of player ids, stored with the smaller id first.
#[derive(Clone, Copy, Debug, PartialEq, Eq, Hash, Structural)]
pub struct EdgeKey(pub usize, pub usize);

/// The canonical key of the pair `{a, b}`.
pub open spec fn edge_key(a: usize, b: usize) -> EdgeKey {
    if a < b {
        EdgeKey(a, b)
    } else {
        EdgeKey(b, a)
    }
}

impl EdgeKey {
    /// A key is canonical when its first id is strictly the smaller one.
    pub open spec fn is_canonical(self) -> bool {
        self.0 < self.1
    }

    /// Whether `v` is one of the two endpoints.
    pub open spec fn touches(self, v: usize) -> bool {
        self.0 == v || self.1 == v
    }

    pub fn new(a: usize, b: usize) -> (k: EdgeKey)
        ensures
            k == edge_key(a, b),
            a != b ==> k.is_canonical(),
    {
        if a < b {
            EdgeKey(a, b)
        } else {
            EdgeKey(b, a)
        }
    }
}

/// The key of a pair does not depend on the order in which the ids are given.
pub proof fn lemma_edge_key_symmetric(a: usize, b: usize)
    requires
        a != b,
    ensures
        edge_key(a, b) == edge_key(b, a),
        edge_key(a, b).is_canonical(),
{
}

/// The weight stored under `k`, or zero when there is none.
pub open spec fn weight_or_zero(m: Map<EdgeKey, u64>, k: EdgeKey) -> int {
    if m.contains_key(k) {
        m[k] as int
    } else {
        0
    }
}

/// The weights after adding `d` to the pair `{a, b}`.
pub open spec fn with_added(m: Map<EdgeKey, u64>, a: usize, b: usize, d: u64) -> Map<EdgeKey, u64> {
    m.insert(edge_key(a, b), (weight_or_zero(m, edge_key(a, b)) + d) as u64)
}

/// Adding a weight to a pair stores it under the same entry whichever way
/// round the pair is given.
pub proof fn lemma_added_weight_symmetric(m: Map<EdgeKey, u64>, a: usize, b: usize, d: u64)
    requires
        a != b,
    ensures
        with_added(m, a, b, d) == with_added(m, b, a, d),
{
    lemma_edge_key_symmetric(a, b);
}

const SLOT_SHIFT: u128 = 0x1_0000_0000_0000_0000;

/// The number under which a key is indexed: both ids side by side.
spec fn slot_of(k: EdgeKey) -> u128 {
    (k.0 as int * SLOT_SHIFT as int + k.1 as int) as u128
}

proof fn lemma_slot_bounds(k: EdgeKey)
    ensures
        0 <= k.0 as int * SLOT_SHIFT as int + k.1 as int <= u128::MAX,
{
    let a = k.0 as int;
    let b = k.1 as int;
    assert(a < SLOT_SHIFT as int && b < SLOT_SHIFT as int);
    assert(a * (SLOT_SHIFT as int) <= (SLOT_SHIFT as int - 1) * (SLOT_SHIFT as int)) by (nonlinear_arith)
        requires
            0 <= a < SLOT_SHIFT as int,
    ;
}

proof fn lemma_slot_injective(k1: EdgeKey, k2: EdgeKey)
    requires
        slot_of(k1) == slot_of(k2),
    ensures
        k1 == k2,
{
    lemma_slot_bounds(k1);
    lemma_slot_bounds(k2);
    let m = SLOT_SHIFT as int;
    let (a1, b1, a2, b2) = (k1.0 as int, k1.1 as int, k2.0 as int, k2.1 as int);
    assert(a1 * m + b1 == a2 * m + b2);
    assert(a1 == a2) by (nonlinear_arith)
        requires
            a1 * m + b1 == a2 * m + b2,
            0 <= b1 < m,
            0 <= b2 < m,
            0 <= a1,
            0 <= a2,
    ;
}

fn slot(k: EdgeKey) -> (s: u128)
    ensures
        s == slot_of(k),
{
    proof {
        lemma_slot_bounds(k);
    }
    (k.0 as u128) * SLOT_SHIFT + (k.1 as u128)
}

/// Accumulated weights of unordered pairs, kept in order of first creation.
pub struct EdgeWeights {
    entries: Vec<(EdgeKey, u64)>,
    slots: HashMap<u128, usize>,
}

impl View for EdgeWeights {
    type V = Map<EdgeKey, u64>;

    closed spec fn view(&self) -> Map<EdgeKey, u64> {
        Map::new(
            |k: EdgeKey| self.slots@.contains_key(slot_of(k)),
            |k: EdgeKey| self.entries@[self.slots@[slot_of(k)] as int].1,
        )
    }
}

impl EdgeWeights {
    /// Each entry is indexed under its key, and each index points at an entry with that key.
    pub closed spec fn wf(&self) -> bool {
        &&& forall|i: int| #![trigger self.entries@[i]] 0 <= i < self.entries.len() ==> {
            &&& self.slots@.contains_key(slot_of(self.entries@[i].0))
            &&& self.slots@[slot_of(self.entries@[i].0)] == i
        }
        &&& forall|s: u128| #[trigger] self.slots@.contains_key(s) ==> {
            &&& self.slots@[s] < self.entries.len()
            &&& slot_of(self.entries@[self.slots@[s] as int].0) == s
        }
    }

    pub fn new() -> (w: EdgeWeights)
        ensures
            w.wf(),
            w@ == Map::<EdgeKey, u64>::empty(),
    {
        let w = EdgeWeights { entries: Vec::new(), slots: HashMap::new() };
        proof {
            assert(w@ =~= Map::<EdgeKey, u64>::empty());
        }
        w
    }

    /// The weight of the pair `{a, b}`, zero when it has none.
    pub fn weight(&self, a: usize, b: usize) -> (w: u64)
        requires
            self.wf(),
        ensures
            w == weight_or_zero(self@, edge_key(a, b)),
    {
        let k = EdgeKey::new(a, b);
        match self.slots.get(&slot(k)) {
            Some(i) => self.entries[*i].1,
            None => 0,
        }
    }

    /// Adds `d` to the weight of the pair `{a, b}`, creating it at zero first if needed.
    pub fn add(&mut self, a: usize, b: usize, d: u64)
        requires
            old(self).wf(),
            weight_or_zero(old(self)@, edge_key(a, b)) + d <= u64::MAX,
        ensures
            final(self).wf(),
            final(self)@ == with_added(old(self)@, a, b, d),
    {
        let k = EdgeKey::new(a, b);
        let s = slot(k);
        let ghost before = self@;
        match self.slots.get(&s) {
            Some(i) => {
                let i = *i;
                let w = self.entries[i].1;
                proof {
                    let k2 = self.entries@[i as int].0;
                    lemma_slot_injective(k2, k);
                }
                self.entries.set(i, (k, w + d));
                proof {
                    assert forall|j: int| #![trigger self.entries@[j]] 0 <= j < self.entries.len()
                        implies self.slots@.contains_key(slot_of(self.entries@[j].0))
                        && self.slots@[slot_of(self.entries@[j].0)] == j by {}
                }
            },
            None => {
                let i = self.entries.len();
                self.entries.push((k, d));
                self.slots.insert(s, i);
                proof {
                    assert forall|j: int| #![trigger self.entries@[j]] 0 <= j < self.entries.len()
                        implies self.slots@.contains_key(slot_of(self.entries@[j].0))
                        && self.slots@[slot_of(self.entries@[j].0)] == j by {
                        if j < i {
                            if slot_of(self.entries@[j].0) == s {
                                lemma_slot_injective(self.entries@[j].0, k);
                            }
                        }
                    }
                    assert forall|t: u128| #[trigger] self.slots@.contains_key(t) implies {
                        &&& self.slots@[t] < self.entries.len()
                        &&& slot_of(self.entries@[self.slots@[t] as int].0) == t
                    } by {}
                }
            },
        }
        proof {
            assert forall|k2: EdgeKey| self@.contains_key(k2) <==> with_added(before, a, b, d).contains_key(k2) by {
                if slot_of(k2) == s {
                    lemma_slot_injective(k2, k);
                }
            }
            assert forall|k2: EdgeKey| #[trigger] self@.contains_key(k2) implies self@[k2] == with_added(before, a, b, d)[k2] by {
                if slot_of(k2) == s {
                    lemma_slot_injective(k2, k);
                }
            }
            assert(self@ =~= with_added(before, a, b, d));
        }
    }

    /// The pairs and their weights, in order of first creation.
    pub fn into_entries(self) -> (es: Vec<(EdgeKey, u64)>)
        requires
            self.wf(),
        ensures
            keys_distinct(es@),
            forall|k: EdgeKey| self@.contains_key(k) <==> has_key(es@, k),
            forall|i: int| #![trigger es@[i]] 0 <= i < es.len() ==> self@[es@[i].0] == es@[i].1,
    {
        proof {
            assert forall|i: int, j: int| #![trigger self.entries@[i], self.entries@[j]] 0 <= i < j < self.entries.len()
                implies self.entries@[i].0 != self.entries@[j].0 by {}
            assert forall|k: EdgeKey| self@.contains_key(k) implies has_key(self.entries@, k) by {
                let i = self.slots@[slot_of(k)] as int;
                lemma_slot_injective(self.entries@[i].0, k);
            }
            assert forall|i: int| #![trigger self.entries@[i]] 0 <= i < self.entries.len()
                implies self@[self.entries@[i].0] == self.entries@[i].1 by {
                assert(self@.contains_key(self.entries@[i].0));
            }
        }
        self.entries
    }
}

/// Some entry of `es` has key `k`.
pub open spec fn has_key(es: Seq<(EdgeKey, u64)>, k: EdgeKey) -> bool {
    exists|i: int| #![trigger es[i]] 0 <= i < es.len() && es[i].0 == k
}

/// No two entries of `es` share a key.
pub open spec fn keys_distinct(es: Seq<(EdgeKey, u64)>) -> bool {
    forall|i: int, j: int| #![trigger es[i], es[j]] 0 <= i < j < es.len() ==> es[i].0 != es[j].0
}

} // verus!
