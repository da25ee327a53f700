use std::collections::HashMap;
use vstd::prelude::*;
use vstd::set_lib::{lemma_int_range, lemma_len_subset, lemma_map_size, set_int_range};

use crate::edges::{keys_distinct, EdgeKey};

verus! {

broadcast use {vstd::std_specs::hash::group_hash_axioms, vstd::seq_lib::group_seq_properties};

/// An edge may be kept only if its weight reaches the floor.
pub open spec fn eligible(e: (EdgeKey, u64), min_weight: u64) -> bool {
    e.1 >= min_weight
}

/// Keys in lexicographic order of their ids.
pub open spec fn key_before(a: EdgeKey, b: EdgeKey) -> bool {
    a.0 < b.0 || (a.0 == b.0 && a.1 < b.1)
}

/// `f` ranks above `e`: it is heavier, or as heavy with a smaller key.
pub open spec fn ranks_above(f: (EdgeKey, u64), e: (EdgeKey, u64)) -> bool {
    f.1 > e.1 || (f.1 == e.1 && key_before(f.0, e.0))
}

/// The positions, among the first `n` edges of `es`, of the eligible edges touching `v`.
pub open spec fn incident(es: Seq<(EdgeKey, u64)>, v: usize, min_weight: u64, n: nat) -> Seq<usize>
    decreases n,
{
    if n == 0 {
        Seq::empty()
    } else {
        let prev = incident(es, v, min_weight, (n - 1) as nat);
        let e = es[n - 1];
        if eligible(e, min_weight) && e.0.touches(v) {
            prev.push((n - 1) as usize)
        } else {
            prev
        }
    }
}

/// How many of the edges of `es` at positions `idx` rank above `e`.
pub open spec fn count_above(es: Seq<(EdgeKey, u64)>, idx: Seq<usize>, e: (EdgeKey, u64)) -> nat
    decreases idx.len(),
{
    if idx.len() == 0 {
        0
    } else {
        count_above(es, idx.drop_last(), e) + if ranks_above(es[idx.last() as int], e) {
            1nat
        } else {
            0nat
        }
    }
}

/// The rank of `e` at vertex `v`: how many eligible edges touching `v` rank above it.
pub open spec fn rank_at(es: Seq<(EdgeKey, u64)>, v: usize, min_weight: u64, e: (EdgeKey, u64)) -> nat {
    count_above(es, incident(es, v, min_weight, es.len()), e)
}

/// `e` is among the `k` best eligible edges at one of its endpoints.
pub open spec fn is_kept(es: Seq<(EdgeKey, u64)>, min_weight: u64, k: usize, e: (EdgeKey, u64)) -> bool {
    &&& eligible(e, min_weight)
    &&& (rank_at(es, e.0.0, min_weight, e) < k || rank_at(es, e.0.1, min_weight, e) < k)
}

/// The kept edges among the first `n` of `es`, in order.
pub open spec fn kept_prefix(es: Seq<(EdgeKey, u64)>, min_weight: u64, k: usize, n: nat) -> Seq<(EdgeKey, u64)>
    decreases n,
{
    if n == 0 {
        Seq::empty()
    } else {
        let prev = kept_prefix(es, min_weight, k, (n - 1) as nat);
        if is_kept(es, min_weight, k, es[n - 1]) {
            prev.push(es[n - 1])
        } else {
            prev
        }
    }
}

/// The edges of `es` that some endpoint ranks among its `k` best, in order.
pub open spec fn kept_edges(es: Seq<(EdgeKey, u64)>, min_weight: u64, k: usize) -> Seq<(EdgeKey, u64)> {
    kept_prefix(es, min_weight, k, es.len())
}

/// The edges at positions `idx` whose rank at `v` is below `k`, in order.
pub open spec fn top_among(es: Seq<(EdgeKey, u64)>, idx: Seq<usize>, v: usize, min_weight: u64, k: usize) -> Seq<
    (EdgeKey, u64),
>
    decreases idx.len(),
{
    if idx.len() == 0 {
        Seq::empty()
    } else {
        let prev = top_among(es, idx.drop_last(), v, min_weight, k);
        let e = es[idx.last() as int];
        if rank_at(es, v, min_weight, e) < k {
            prev.push(e)
        } else {
            prev
        }
    }
}

/// The eligible edges touching `v` whose rank at `v` is below `k`, in order.
pub open spec fn top_at(es: Seq<(EdgeKey, u64)>, v: usize, min_weight: u64, k: usize) -> Seq<(EdgeKey, u64)> {
    top_among(es, incident(es, v, min_weight, es.len()), v, min_weight, k)
}

proof fn lemma_incident_bounds(es: Seq<(EdgeKey, u64)>, v: usize, min_weight: u64, n: nat)
    requires
        n <= es.len(),
        es.len() <= usize::MAX,
    ensures
        forall|t: int| #![trigger incident(es, v, min_weight, n)[t]] 0 <= t < incident(es, v, min_weight, n).len() ==> {
            let j = incident(es, v, min_weight, n)[t] as int;
            &&& 0 <= j < n
            &&& eligible(es[j], min_weight)
            &&& es[j].0.touches(v)
        },
        forall|j: int| 0 <= j < n && eligible(es[j], min_weight) && es[j].0.touches(v) ==> #[trigger] incident(
            es,
            v,
            min_weight,
            n,
        ).contains(j as usize),
    decreases n,
{
    if n > 0 {
        lemma_incident_bounds(es, v, min_weight, (n - 1) as nat);
        let prev = incident(es, v, min_weight, (n - 1) as nat);
        let cur = incident(es, v, min_weight, n);
        assert forall|t: int| #![trigger cur[t]] 0 <= t < cur.len() implies {
            let j = cur[t] as int;
            &&& 0 <= j < n
            &&& eligible(es[j], min_weight)
            &&& es[j].0.touches(v)
        } by {
            if t < prev.len() {
                assert(cur[t] == prev[t]);
            } else {
                assert(cur[t] == (n - 1) as usize);
            }
        }
        assert forall|j: int| 0 <= j < n && eligible(es[j], min_weight) && es[j].0.touches(v) implies #[trigger] cur.contains(
            j as usize,
        ) by {
            if j < n - 1 {
                assert(prev.contains(j as usize));
                let t = choose|t: int| 0 <= t < prev.len() && prev[t] == j as usize;
                assert(cur[t] == prev[t]);
            } else {
                assert(cur[cur.len() - 1] == j as usize);
            }
        }
    }
}

/// Counts the edges at positions `idx` that rank above `e`.
fn count_ranked_above(es: &Vec<(EdgeKey, u64)>, idx: &Vec<usize>, e: (EdgeKey, u64)) -> (c: usize)
    requires
        forall|t: int| 0 <= t < idx.len() ==> #[trigger] idx@[t] < es.len(),
    ensures
        c == count_above(es@, idx@, e),
{
    let mut c: usize = 0;
    let mut t: usize = 0;
    while t < idx.len()
        invariant
            t <= idx.len(),
            c <= t,
            forall|s: int| 0 <= s < idx.len() ==> #[trigger] idx@[s] < es.len(),
            c == count_above(es@, idx@.take(t as int), e),
        decreases idx.len() - t,
    {
        proof {
            assert(idx@.take(t + 1).drop_last() =~= idx@.take(t as int));
        }
        let f = es[idx[t]];
        if f.1 > e.1 || (f.1 == e.1 && (f.0.0 < e.0.0 || (f.0.0 == e.0.0 && f.0.1 < e.0.1))) {
            c += 1;
        }
        t += 1;
    }
    proof {
        assert(idx@.take(idx.len() as int) =~= idx@);
    }
    c
}

/// The positions of the eligible edges touching `v`, in order.
fn incident_positions(es: &Vec<(EdgeKey, u64)>, v: usize, min_weight: u64) -> (idx: Vec<usize>)
    ensures
        idx@ == incident(es@, v, min_weight, es.len() as nat),
{
    let mut idx: Vec<usize> = Vec::new();
    let mut j: usize = 0;
    while j < es.len()
        invariant
            j <= es.len(),
            idx@ == incident(es@, v, min_weight, j as nat),
        decreases es.len() - j,
    {
        let e = es[j];
        if e.1 >= min_weight && (e.0.0 == v || e.0.1 == v) {
            idx.push(j);
        }
        j += 1;
    }
    idx
}

/// The edges that vertex `v` ranks among its `k` best: those of weight at
/// least `min_weight` touching `v` with fewer than `k` such edges ranking
/// above them, heavier first and, at equal weight, smaller key first.
/// They come in the order of `es`.
pub fn ranked_edges(es: &Vec<(EdgeKey, u64)>, v: usize, min_weight: u64, k: usize) -> (out: Vec<(EdgeKey, u64)>)
    ensures
        out@ == top_at(es@, v, min_weight, k),
        keys_distinct(es@) ==> out.len() <= k,
{
    proof {
        if keys_distinct(es@) {
            lemma_top_k_bound(es@, v, min_weight, k);
        }
    }
    let idx = incident_positions(es, v, min_weight);
    proof {
        lemma_incident_bounds(es@, v, min_weight, es.len() as nat);
    }
    let mut out: Vec<(EdgeKey, u64)> = Vec::new();
    let mut t: usize = 0;
    while t < idx.len()
        invariant
            t <= idx.len(),
            idx@ == incident(es@, v, min_weight, es.len() as nat),
            forall|s: int| 0 <= s < idx.len() ==> #[trigger] idx@[s] < es.len(),
            out@ == top_among(es@, idx@.take(t as int), v, min_weight, k),
        decreases idx.len() - t,
    {
        proof {
            assert(idx@.take(t + 1).drop_last() =~= idx@.take(t as int));
            assert(idx@[t as int] < es.len());
        }
        let e = es[idx[t]];
        let r = count_ranked_above(es, &idx, e);
        if r < k {
            out.push(e);
        }
        t += 1;
    }
    proof {
        assert(idx@.take(idx.len() as int) =~= idx@);
    }
    out
}

/// `pos` gives each listed vertex its slot; `owners` names the vertex of each slot.
spec fn slots_ok(pos: Map<usize, usize>, owners: Seq<usize>, lists: Seq<Vec<usize>>) -> bool {
    &&& owners.len() == lists.len()
    &&& forall|v: usize| #[trigger] pos.contains_key(v) ==> pos[v] < lists.len() && owners[pos[v] as int] == v
    &&& forall|s: int| #![trigger owners[s]] 0 <= s < owners.len() ==> pos.contains_key(owners[s]) && pos[owners[s]] == s
}

/// Appends position `j` to the list of `v`, giving `v` a slot first if it has none.
fn attach(
    pos: &mut HashMap<usize, usize>,
    owners: &mut Vec<usize>,
    lists: &mut Vec<Vec<usize>>,
    v: usize,
    j: usize,
)
    requires
        slots_ok(old(pos)@, old(owners)@, old(lists)@),
    ensures
        slots_ok(final(pos)@, final(owners)@, final(lists)@),
        forall|u: usize| #[trigger] final(pos)@.contains_key(u) <==> (old(pos)@.contains_key(u) || u == v),
        forall|u: usize|
            u != v && #[trigger] old(pos)@.contains_key(u) ==> final(lists)@[final(pos)@[u] as int]@ == old(
                lists,
            )@[old(pos)@[u] as int]@,
        final(lists)@[final(pos)@[v] as int]@ == (if old(pos)@.contains_key(v) {
            old(lists)@[old(pos)@[v] as int]@
        } else {
            Seq::<usize>::empty()
        }).push(j),
{
    match pos.get(&v) {
        Some(s) => {
            let s = *s;
            lists[s].push(j);
        },
        None => {
            let s = lists.len();
            let mut fresh: Vec<usize> = Vec::new();
            fresh.push(j);
            lists.push(fresh);
            owners.push(v);
            pos.insert(v, s);
            proof {
                assert forall|t: int| #![trigger owners@[t]] 0 <= t < owners.len() implies pos@.contains_key(owners@[t])
                    && pos@[owners@[t]] == t by {
                    if t < s {
                        assert(old(owners)@[t] == owners@[t]);
                    }
                }
            }
        },
    }
}

/// Keeps, for every vertex, its `k` best edges of weight at least
/// `min_weight` (see [`ranked_edges`]); an edge stays when either endpoint
/// keeps it. The kept edges come in the order of `es`.
pub fn sparsify(es: &Vec<(EdgeKey, u64)>, min_weight: u64, k: usize) -> (out: Vec<(EdgeKey, u64)>)
    requires
        forall|i: int| 0 <= i < es.len() ==> (#[trigger] es@[i]).0.is_canonical(),
    ensures
        out@ == kept_edges(es@, min_weight, k),
{
    let mut pos: HashMap<usize, usize> = HashMap::new();
    let mut owners: Vec<usize> = Vec::new();
    let mut lists: Vec<Vec<usize>> = Vec::new();
    let mut j: usize = 0;
    while j < es.len()
        invariant
            j <= es.len(),
            forall|i: int| 0 <= i < es.len() ==> (#[trigger] es@[i]).0.is_canonical(),
            slots_ok(pos@, owners@, lists@),
            forall|v: usize| #[trigger] pos@.contains_key(v) ==> lists@[pos@[v] as int]@ == incident(es@, v, min_weight, j as nat),
            forall|v: usize| #![trigger pos@.contains_key(v)] !pos@.contains_key(v) ==> incident(es@, v, min_weight, j as nat).len() == 0,
        decreases es.len() - j,
    {
        let e = es[j];
        let ghost pos0 = pos@;
        let ghost lists0 = lists@;
        if e.1 >= min_weight {
            let a = e.0.0;
            let b = e.0.1;
            attach(&mut pos, &mut owners, &mut lists, a, j);
            let ghost pos1 = pos@;
            let ghost lists1 = lists@;
            attach(&mut pos, &mut owners, &mut lists, b, j);
            proof {
                assert(a < b);
                assert forall|v: usize| #[trigger] pos@.contains_key(v) implies lists@[pos@[v] as int]@ == incident(es@, v, min_weight, (j + 1) as nat) by {
                    if v == b {
                        if !pos0.contains_key(b) {
                            assert(incident(es@, b, min_weight, j as nat).len() == 0);
                            assert(incident(es@, b, min_weight, j as nat) =~= Seq::<usize>::empty());
                        }
                    } else if v == a {
                        if !pos0.contains_key(a) {
                            assert(incident(es@, a, min_weight, j as nat) =~= Seq::<usize>::empty());
                        }
                    } else {
                        assert(pos1.contains_key(v));
                    }
                }
                assert forall|v: usize| #![trigger pos@.contains_key(v)] !pos@.contains_key(v) implies incident(es@, v, min_weight, (j + 1) as nat).len() == 0 by {
                    assert(!pos0.contains_key(v));
                    assert(v != a && v != b);
                    assert(!es@[j as int].0.touches(v));
                    assert(incident(es@, v, min_weight, j as nat).len() == 0);
                    assert(incident(es@, v, min_weight, (j + 1) as nat) == incident(es@, v, min_weight, j as nat));
                }
            }
        } else {
            proof {
                assert forall|v: usize| #[trigger] pos@.contains_key(v) implies lists@[pos@[v] as int]@ == incident(es@, v, min_weight, (j + 1) as nat) by {
                    assert(incident(es@, v, min_weight, (j + 1) as nat) == incident(es@, v, min_weight, j as nat));
                }
                assert forall|v: usize| #![trigger pos@.contains_key(v)] !pos@.contains_key(v) implies incident(es@, v, min_weight, (j + 1) as nat).len() == 0 by {
                    assert(incident(es@, v, min_weight, j as nat).len() == 0);
                    assert(incident(es@, v, min_weight, (j + 1) as nat) == incident(es@, v, min_weight, j as nat));
                }
            }
        }
        j += 1;
    }
    proof {
        lemma_incident_bounds_all(es@, min_weight);
    }
    let mut out: Vec<(EdgeKey, u64)> = Vec::new();
    let mut i: usize = 0;
    while i < es.len()
        invariant
            i <= es.len(),
            slots_ok(pos@, owners@, lists@),
            forall|v: usize| #[trigger] pos@.contains_key(v) ==> lists@[pos@[v] as int]@ == incident(es@, v, min_weight, es.len() as nat),
            forall|v: usize| #![trigger pos@.contains_key(v)] !pos@.contains_key(v) ==> incident(es@, v, min_weight, es.len() as nat).len() == 0,
            forall|v: usize, t: int| 0 <= t < incident(es@, v, min_weight, es.len() as nat).len() ==> #[trigger] incident(
                es@,
                v,
                min_weight,
                es.len() as nat,
            )[t] < es.len(),
            forall|v: usize, m: int| 0 <= m < es.len() && eligible(es@[m], min_weight) && es@[m].0.touches(v) ==> #[trigger] incident(
                es@,
                v,
                min_weight,
                es.len() as nat,
            ).contains(m as usize),
            out@ == kept_prefix(es@, min_weight, k, i as nat),
        decreases es.len() - i,
    {
        let e = es[i];
        if e.1 >= min_weight {
            let a = e.0.0;
            let b = e.0.1;
            proof {
                assert(incident(es@, a, min_weight, es.len() as nat).contains(i as usize));
                assert(incident(es@, b, min_weight, es.len() as nat).contains(i as usize));
            }
            let sa = *pos.get(&a).unwrap();
            let sb = *pos.get(&b).unwrap();
            let ra = count_ranked_above(es, &lists[sa], e);
            let rb = count_ranked_above(es, &lists[sb], e);
            if ra < k || rb < k {
                out.push(e);
            }
        }
        i += 1;
    }
    out
}

proof fn lemma_incident_bounds_all(es: Seq<(EdgeKey, u64)>, min_weight: u64)
    requires
        es.len() <= usize::MAX,
    ensures
        forall|v: usize, t: int| 0 <= t < incident(es, v, min_weight, es.len() as nat).len() ==> #[trigger] incident(
            es,
            v,
            min_weight,
            es.len() as nat,
        )[t] < es.len(),
        forall|v: usize, m: int| 0 <= m < es.len() && eligible(es[m], min_weight) && es[m].0.touches(v) ==> #[trigger] incident(
            es,
            v,
            min_weight,
            es.len() as nat,
        ).contains(m as usize),
{
    assert forall|v: usize, t: int| 0 <= t < incident(es, v, min_weight, es.len() as nat).len() implies #[trigger] incident(
        es,
        v,
        min_weight,
        es.len() as nat,
    )[t] < es.len() by {
        lemma_incident_bounds(es, v, min_weight, es.len() as nat);
    }
    assert forall|v: usize, m: int| 0 <= m < es.len() && eligible(es[m], min_weight) && es[m].0.touches(v) implies #[trigger] incident(
        es,
        v,
        min_weight,
        es.len() as nat,
    ).contains(m as usize) by {
        lemma_incident_bounds(es, v, min_weight, es.len() as nat);
    }
}

proof fn lemma_incident_increasing(es: Seq<(EdgeKey, u64)>, v: usize, min_weight: u64, n: nat)
    requires
        n <= es.len(),
        es.len() <= usize::MAX,
    ensures
        forall|a: int, b: int|
            #![trigger incident(es, v, min_weight, n)[a], incident(es, v, min_weight, n)[b]]
            0 <= a < b < incident(es, v, min_weight, n).len() ==> incident(es, v, min_weight, n)[a] < incident(
                es,
                v,
                min_weight,
                n,
            )[b],
    decreases n,
{
    if n > 0 {
        lemma_incident_increasing(es, v, min_weight, (n - 1) as nat);
        lemma_incident_bounds(es, v, min_weight, (n - 1) as nat);
        let prev = incident(es, v, min_weight, (n - 1) as nat);
        let cur = incident(es, v, min_weight, n);
        assert forall|a: int, b: int| #![trigger cur[a], cur[b]] 0 <= a < b < cur.len() implies cur[a] < cur[b] by {
            assert(cur[a] == prev[a]);
            if b < prev.len() {
                assert(cur[b] == prev[b]);
            } else {
                assert(cur[b] == (n - 1) as usize);
                assert(prev[a] < n - 1);
            }
        }
    }
}

proof fn lemma_count_above_gap(es: Seq<(EdgeKey, u64)>, idx: Seq<usize>, x: (EdgeKey, u64), y: (EdgeKey, u64), tx: int)
    requires
        ranks_above(x, y),
        0 <= tx < idx.len(),
        es[idx[tx] as int] == x,
        forall|a: int, b: int| #![trigger idx[a], idx[b]] 0 <= a < b < idx.len() ==> es[idx[a] as int] != es[idx[b] as int],
    ensures
        count_above(es, idx, y) >= count_above(es, idx, x) + 1,
    decreases idx.len(),
{
    lemma_count_above_mono(es, idx.drop_last(), x, y);
    let last = es[idx.last() as int];
    if tx < idx.len() - 1 {
        let init = idx.drop_last();
        assert forall|a: int, b: int| #![trigger init[a], init[b]] 0 <= a < b < init.len() implies es[init[a] as int]
            != es[init[b] as int] by {
            assert(init[a] == idx[a] && init[b] == idx[b]);
        }
        assert(init[tx] == idx[tx]);
        lemma_count_above_gap(es, init, x, y, tx);
    } else {
        assert(last == x);
    }
}

proof fn lemma_count_above_mono(es: Seq<(EdgeKey, u64)>, idx: Seq<usize>, x: (EdgeKey, u64), y: (EdgeKey, u64))
    requires
        ranks_above(x, y),
    ensures
        count_above(es, idx, y) >= count_above(es, idx, x),
    decreases idx.len(),
{
    if idx.len() > 0 {
        lemma_count_above_mono(es, idx.drop_last(), x, y);
    }
}

proof fn lemma_top_among_len(es: Seq<(EdgeKey, u64)>, idx: Seq<usize>, v: usize, min_weight: u64, k: usize)
    ensures
        ({
            let chosen = Set::new(|t: int| 0 <= t < idx.len() && rank_at(es, v, min_weight, es[idx[t] as int]) < k);
            chosen.finite() && top_among(es, idx, v, min_weight, k).len() == chosen.len()
        }),
    decreases idx.len(),
{
    let chosen = Set::new(|t: int| 0 <= t < idx.len() && rank_at(es, v, min_weight, es[idx[t] as int]) < k);
    if idx.len() == 0 {
        assert(chosen =~= Set::<int>::empty());
    } else {
        let init = idx.drop_last();
        let n = idx.len() - 1;
        lemma_top_among_len(es, init, v, min_weight, k);
        let prev = Set::new(|t: int| 0 <= t < init.len() && rank_at(es, v, min_weight, es[init[t] as int]) < k);
        if rank_at(es, v, min_weight, es[idx[n] as int]) < k {
            assert(chosen =~= prev.insert(n));
        } else {
            assert(chosen =~= prev);
        }
    }
}

/// Every vertex ranks at most `k` edges among its best: the edges it keeps
/// for itself never exceed `k`, though more may reach it through the
/// ranking of their other endpoint.
pub proof fn lemma_top_k_bound(es: Seq<(EdgeKey, u64)>, v: usize, min_weight: u64, k: usize)
    requires
        keys_distinct(es),
        es.len() <= usize::MAX,
    ensures
        top_at(es, v, min_weight, k).len() <= k,
{
    let idx = incident(es, v, min_weight, es.len() as nat);
    lemma_incident_bounds(es, v, min_weight, es.len() as nat);
    lemma_incident_increasing(es, v, min_weight, es.len() as nat);
    assert forall|a: int, b: int| #![trigger idx[a], idx[b]] 0 <= a < b < idx.len() implies es[idx[a] as int]
        != es[idx[b] as int] by {
        assert(idx[a] < idx[b]);
        assert(es[idx[a] as int].0 != es[idx[b] as int].0);
    }
    let rank = |t: int| rank_at(es, v, min_weight, es[idx[t] as int]) as int;
    let chosen = Set::new(|t: int| 0 <= t < idx.len() && rank_at(es, v, min_weight, es[idx[t] as int]) < k);
    lemma_top_among_len(es, idx, v, min_weight, k);
    assert forall|a: int, b: int| chosen.contains(a) && chosen.contains(b) && #[trigger] rank(a) == #[trigger] rank(b)
        implies a == b by {
        if a != b {
            let (lo, hi) = if a < b { (a, b) } else { (b, a) };
            let x = es[idx[lo] as int];
            let y = es[idx[hi] as int];
            assert(x != y);
            assert(x.0 != y.0) by {
                assert(idx[lo] < idx[hi]);
            }
            if ranks_above(x, y) {
                lemma_count_above_gap(es, idx, x, y, lo);
            } else {
                assert(ranks_above(y, x));
                lemma_count_above_gap(es, idx, y, x, hi);
            }
        }
    }
    let image = chosen.map(rank);
    lemma_map_size(chosen, image, rank);
    lemma_int_range(0, k as int);
    assert(image.subset_of(set_int_range(0, k as int))) by {
        assert forall|r: int| image.contains(r) implies set_int_range(0, k as int).contains(r) by {
            let t = choose|t: int| chosen.contains(t) && rank(t) == r;
        }
    }
    lemma_len_subset(image, set_int_range(0, k as int));
}

} // verus!
