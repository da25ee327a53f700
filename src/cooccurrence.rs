use std::collections::HashMap;
use std::collections::HashSet;
use vstd::prelude::*;

use crate::edges::{edge_key, weight_or_zero, with_added, EdgeKey, EdgeWeights};
use crate::sessions::{distinct_ids, player_set, Report};

verus! {

broadcast use {vstd::std_specs::hash::group_hash_axioms, vstd::seq_lib::group_seq_properties};

/// A session is valid when it has fewer distinct players than `max_players`;
/// larger ones are mass events and count for nothing.
pub open spec fn is_valid_session(r: Report, max_players: usize) -> bool {
    player_set(r).len() < max_players
}

/// The number of valid sessions of `rs` in which `p` plays.
pub open spec fn appearances(rs: Seq<Report>, max_players: usize, p: usize) -> nat
    decreases rs.len(),
{
    if rs.len() == 0 {
        0
    } else {
        appearances(rs.drop_last(), max_players, p) + if is_valid_session(rs.last(), max_players)
            && player_set(rs.last()).contains(p) {
            1nat
        } else {
            0nat
        }
    }
}

proof fn lemma_appearances_bound(rs: Seq<Report>, max_players: usize, p: usize)
    ensures
        appearances(rs, max_players, p) <= rs.len(),
    decreases rs.len(),
{
    if rs.len() > 0 {
        lemma_appearances_bound(rs.drop_last(), max_players, p);
    }
}

proof fn lemma_distinct_len(r: Report, d: Seq<usize>)
    requires
        d.no_duplicates(),
        d.to_set() == player_set(r),
    ensures
        d.len() == player_set(r).len(),
{
    d.unique_seq_to_set();
}

/// Whether a session has fewer distinct players than `max_players`.
pub fn session_is_valid(report: &Report, max_players: usize) -> (b: bool)
    ensures
        b == is_valid_session(*report, max_players),
{
    let d = distinct_ids(&report.players);
    proof {
        lemma_distinct_len(*report, d@);
    }
    d.len() < max_players
}

/// Counts, over the valid sessions, how many sessions each player appears
/// in. Players come once each, in order of first appearance in a valid
/// session, with their counts.
pub fn count_appearances(records: &Vec<Report>, max_players: usize) -> (out: Vec<(usize, usize)>)
    ensures
        forall|i: int, j: int| #![trigger out@[i], out@[j]] 0 <= i < j < out.len() ==> out@[i].0 != out@[j].0,
        forall|p: usize|
            (exists|i: int| #![trigger out@[i]] 0 <= i < out.len() && out@[i].0 == p) <==> appearances(
                records@,
                max_players,
                p,
            ) > 0,
        forall|i: int| #![trigger out@[i]] 0 <= i < out.len() ==> out@[i].1 == appearances(records@, max_players, out@[i].0),
{
    let mut out: Vec<(usize, usize)> = Vec::new();
    let mut pos: HashMap<usize, usize> = HashMap::new();
    let mut i: usize = 0;
    while i < records.len()
        invariant
            i <= records.len(),
            forall|k: int| #![trigger out@[k]] 0 <= k < out.len() ==> pos@.contains_key(out@[k].0) && pos@[out@[k].0] == k,
            forall|p: usize| #[trigger] pos@.contains_key(p) ==> pos@[p] < out.len() && out@[pos@[p] as int].0 == p,
            forall|p: usize| pos@.contains_key(p) <==> appearances(records@.take(i as int), max_players, p) > 0,
            forall|k: int| #![trigger out@[k]] 0 <= k < out.len() ==> out@[k].1 == appearances(records@.take(i as int), max_players, out@[k].0),
        decreases records.len() - i,
    {
        let r = &records[i];
        let d = distinct_ids(&r.players);
        let ghost rs = records@.take(i as int);
        proof {
            assert(records@.take(i + 1).drop_last() =~= rs);
            assert(records@.take(i + 1).last() == *r);
            lemma_distinct_len(*r, d@);
            lemma_appearances_bound(rs, max_players, 0);
        }
        let ghost pos_start = pos@;
        if d.len() < max_players {
            let ghost out0 = out@;
            let ghost pos0 = pos@;
            let mut t: usize = 0;
            while t < d.len()
                invariant
                    t <= d.len(),
                    d@.no_duplicates(),
                    i < records.len(),
                    rs.len() == i,
                    forall|p: usize| pos0.contains_key(p) <==> appearances(rs, max_players, p) > 0,
                    forall|k: int| #![trigger out@[k]] 0 <= k < out.len() ==> pos@.contains_key(out@[k].0) && pos@[out@[k].0] == k,
                    forall|p: usize| #[trigger] pos@.contains_key(p) ==> pos@[p] < out.len() && out@[pos@[p] as int].0 == p,
                    forall|p: usize| #![trigger pos@.contains_key(p)] pos@.contains_key(p) <==> (pos0.contains_key(p) || d@.take(t as int).contains(p)),
                    forall|k: int| #![trigger out@[k]] 0 <= k < out.len() ==> out@[k].1 == appearances(rs, max_players, out@[k].0)
                        + if d@.take(t as int).contains(out@[k].0) { 1int } else { 0int },
                decreases d.len() - t,
            {
                let p = d[t];
                proof {
                    assert(d@.take(t + 1) =~= d@.take(t as int).push(p));
                    assert(!d@.take(t as int).contains(p));
                    lemma_appearances_bound(rs, max_players, p);
                }
                let ghost pos_prev = pos@;
                match pos.get(&p) {
                    Some(k) => {
                        let k = *k;
                        let c = out[k].1;
                        let ghost prev = out@;
                        out.set(k, (p, c + 1));
                        proof {
                            assert forall|m: int| #![trigger out@[m]] 0 <= m < out.len() implies out@[m].1 == appearances(rs, max_players, out@[m].0)
                                + if d@.take(t + 1).contains(out@[m].0) { 1int } else { 0int } by {
                                if m != k {
                                    assert(prev[m] == out@[m]);
                                    assert(pos@[prev[m].0] == m);
                                }
                            }
                        }
                    },
                    None => {
                        let k = out.len();
                        let ghost prev = out@;
                        proof {
                            assert(!pos@.contains_key(p));
                            assert(!pos0.contains_key(p));
                            assert(appearances(rs, max_players, p) == 0);
                        }
                        out.push((p, 1));
                        pos.insert(p, k);
                        proof {
                            assert forall|m: int| #![trigger out@[m]] 0 <= m < out.len() implies out@[m].1 == appearances(rs, max_players, out@[m].0)
                                + if d@.take(t + 1).contains(out@[m].0) { 1int } else { 0int } by {
                                if m < k {
                                    assert(prev[m] == out@[m]);
                                }
                            }
                            assert forall|m: int| #![trigger out@[m]] 0 <= m < out.len() implies pos@.contains_key(out@[m].0) && pos@[out@[m].0] == m by {
                                if m < k {
                                    assert(prev[m] == out@[m]);
                                }
                            }
                        }
                    },
                }
                proof {
                    assert(pos@.contains_key(p));
                    assert forall|q: usize| pos@.contains_key(q) <==> (pos_prev.contains_key(q) || q == p) by {}
                    assert forall|q: usize| pos@.contains_key(q) <==> (pos0.contains_key(q) || d@.take(t + 1).contains(q)) by {
                        assert(pos_prev.contains_key(q) <==> (pos0.contains_key(q) || d@.take(t as int).contains(q)));
                        assert(d@.take(t + 1).contains(q) <==> (d@.take(t as int).contains(q) || q == p));
                    }
                }
                t += 1;
            }
            proof {
                assert(d@.take(d.len() as int) =~= d@);
                assert forall|q: usize| pos@.contains_key(q) <==> (pos_start.contains_key(q) || d@.contains(q)) by {
                    assert(pos@.contains_key(q) <==> (pos0.contains_key(q) || d@.take(d.len() as int).contains(q)));
                }
            }
        }
        proof {
            let rs2 = records@.take(i + 1);
            assert forall|p: usize| #![trigger appearances(rs2, max_players, p)] appearances(rs2, max_players, p)
                == appearances(rs, max_players, p) + if d.len() < max_players && d@.contains(p) { 1int } else { 0int } by {
                assert(d@.contains(p) <==> player_set(*r).contains(p));
            }
            assert forall|p: usize| pos@.contains_key(p) <==> appearances(rs2, max_players, p) > 0 by {
                assert(appearances(rs2, max_players, p) == appearances(rs, max_players, p) + if d.len() < max_players
                    && d@.contains(p) { 1int } else { 0int });
                if d.len() < max_players {
                    assert(pos@.contains_key(p) <==> (pos_start.contains_key(p) || d@.contains(p)));
                }
            }
        }
        i += 1;
    }
    proof {
        assert(records@.take(records.len() as int) =~= records@);
        assert forall|p: usize|
            (exists|k: int| #![trigger out@[k]] 0 <= k < out.len() && out@[k].0 == p) <==> appearances(records@, max_players, p) > 0 by {
            if pos@.contains_key(p) {
                assert(out@[pos@[p] as int].0 == p);
            }
            assert(pos@.contains_key(p) <==> appearances(records@.take(records.len() as int), max_players, p) > 0);
        }
    }
    out
}

/// The ids of `apps` whose count reaches `min_appearances`, in order.
pub open spec fn frequent_of(apps: Seq<(usize, usize)>, min_appearances: usize) -> Seq<usize>
    decreases apps.len(),
{
    if apps.len() == 0 {
        Seq::empty()
    } else {
        let prev = frequent_of(apps.drop_last(), min_appearances);
        if apps.last().1 >= min_appearances {
            prev.push(apps.last().0)
        } else {
            prev
        }
    }
}

proof fn lemma_frequent_of_contains(apps: Seq<(usize, usize)>, min_appearances: usize, p: usize)
    ensures
        frequent_of(apps, min_appearances).contains(p) <==> exists|i: int|
            #![trigger apps[i]]
            0 <= i < apps.len() && apps[i].0 == p && apps[i].1 >= min_appearances,
    decreases apps.len(),
{
    if apps.len() > 0 {
        let init = apps.drop_last();
        lemma_frequent_of_contains(init, min_appearances, p);
        if exists|i: int| #![trigger init[i]] 0 <= i < init.len() && init[i].0 == p && init[i].1 >= min_appearances {
            let i = choose|i: int| #![trigger init[i]] 0 <= i < init.len() && init[i].0 == p && init[i].1 >= min_appearances;
            assert(apps[i] == init[i]);
        }
        if exists|i: int| #![trigger apps[i]] 0 <= i < apps.len() && apps[i].0 == p && apps[i].1 >= min_appearances {
            let i = choose|i: int| #![trigger apps[i]] 0 <= i < apps.len() && apps[i].0 == p && apps[i].1 >= min_appearances;
            if i < init.len() {
                assert(apps[i] == init[i]);
            }
        }
    }
}

/// Keeps the ids whose appearance count is at least `min_appearances`.
pub fn select_frequent(apps: &Vec<(usize, usize)>, min_appearances: usize) -> (out: Vec<usize>)
    ensures
        out@ == frequent_of(apps@, min_appearances),
{
    let mut out: Vec<usize> = Vec::new();
    let mut i: usize = 0;
    while i < apps.len()
        invariant
            i <= apps.len(),
            out@ == frequent_of(apps@.take(i as int), min_appearances),
        decreases apps.len() - i,
    {
        proof {
            assert(apps@.take(i + 1).drop_last() =~= apps@.take(i as int));
        }
        if apps[i].1 >= min_appearances {
            out.push(apps[i].0);
        }
        i += 1;
    }
    proof {
        assert(apps@.take(apps.len() as int) =~= apps@);
    }
    out
}

/// A player is frequent when they appear in at least one valid session,
/// and in at least `min_appearances` of them.
pub open spec fn is_frequent(rs: Seq<Report>, max_players: usize, min_appearances: usize, p: usize) -> bool {
    appearances(rs, max_players, p) >= min_appearances && appearances(rs, max_players, p) > 0
}

/// The vertex set: every frequent player, once, in order of first
/// appearance in a valid session.
pub fn frequent_players(records: &Vec<Report>, max_players: usize, min_appearances: usize) -> (out: Vec<usize>)
    ensures
        out@.no_duplicates(),
        forall|p: usize| out@.contains(p) <==> is_frequent(records@, max_players, min_appearances, p),
{
    let apps = count_appearances(records, max_players);
    let out = select_frequent(&apps, min_appearances);
    proof {
        assert forall|p: usize| out@.contains(p) <==> is_frequent(records@, max_players, min_appearances, p) by {
            lemma_frequent_of_contains(apps@, min_appearances, p);
            if out@.contains(p) {
                let i = choose|i: int| #![trigger apps@[i]] 0 <= i < apps.len() && apps@[i].0 == p && apps@[i].1 >= min_appearances;
                assert(appearances(records@, max_players, p) > 0);
            }
            if is_frequent(records@, max_players, min_appearances, p) {
                let i = choose|i: int| #![trigger apps@[i]] 0 <= i < apps.len() && apps@[i].0 == p;
                assert(apps@[i].1 >= min_appearances);
            }
        }
        lemma_frequent_no_duplicates(apps@, min_appearances);
    }
    out
}

proof fn lemma_frequent_no_duplicates(apps: Seq<(usize, usize)>, min_appearances: usize)
    requires
        forall|i: int, j: int| #![trigger apps[i], apps[j]] 0 <= i < j < apps.len() ==> apps[i].0 != apps[j].0,
    ensures
        frequent_of(apps, min_appearances).no_duplicates(),
    decreases apps.len(),
{
    if apps.len() > 0 {
        let init = apps.drop_last();
        assert forall|i: int, j: int| #![trigger init[i], init[j]] 0 <= i < j < init.len() implies init[i].0 != init[j].0 by {
            assert(init[i] == apps[i] && init[j] == apps[j]);
        }
        lemma_frequent_no_duplicates(init, min_appearances);
        lemma_frequent_of_contains(init, min_appearances, apps.last().0);
        if frequent_of(init, min_appearances).contains(apps.last().0) {
            let i = choose|i: int| #![trigger init[i]] 0 <= i < init.len() && init[i].0 == apps.last().0 && init[i].1 >= min_appearances;
            assert(apps[i] == init[i]);
            assert(apps[i].0 != apps[apps.len() - 1].0);
        }
    }
}

/// At the threshold a player is a vertex; one appearance below it, not.
pub proof fn lemma_frequency_gate(rs: Seq<Report>, max_players: usize, min_appearances: usize, p: usize)
    requires
        min_appearances >= 1,
    ensures
        appearances(rs, max_players, p) == min_appearances - 1 ==> !is_frequent(rs, max_players, min_appearances, p),
        appearances(rs, max_players, p) == min_appearances ==> is_frequent(rs, max_players, min_appearances, p),
{
}

/// The length of a session, floored at zero and capped at `max_duration`.
pub open spec fn capped_duration(r: Report, max_duration: u64) -> u64 {
    let d = if r.end_time >= r.start_time { (r.end_time - r.start_time) as u64 } else { 0u64 };
    if d <= max_duration { d } else { max_duration }
}

/// Both players of `k` are vertices and play in `r`.
pub open spec fn joins(r: Report, vertices: Set<usize>, k: EdgeKey) -> bool {
    &&& player_set(r).contains(k.0)
    &&& player_set(r).contains(k.1)
    &&& vertices.contains(k.0)
    &&& vertices.contains(k.1)
}

/// The capped durations of the valid sessions of `rs` that the pair `k` joins, summed.
pub open spec fn pair_weight(
    rs: Seq<Report>,
    vertices: Set<usize>,
    max_players: usize,
    max_duration: u64,
    k: EdgeKey,
) -> nat
    decreases rs.len(),
{
    if rs.len() == 0 {
        0
    } else {
        pair_weight(rs.drop_last(), vertices, max_players, max_duration, k) + if is_valid_session(
            rs.last(),
            max_players,
        ) && joins(rs.last(), vertices, k) {
            capped_duration(rs.last(), max_duration) as nat
        } else {
            0nat
        }
    }
}

/// Some valid session of `rs` is joined by the pair `k`.
pub open spec fn co_occurs(rs: Seq<Report>, vertices: Set<usize>, max_players: usize, k: EdgeKey) -> bool {
    exists|i: int| #![trigger rs[i]] 0 <= i < rs.len() && is_valid_session(rs[i], max_players) && joins(rs[i], vertices, k)
}

/// The length of a session, floored at zero and capped at `max_duration`.
pub fn session_duration(report: &Report, max_duration: u64) -> (d: u64)
    ensures
        d == capped_duration(*report, max_duration),
{
    let d = report.end_time.saturating_sub(report.start_time);
    if d <= max_duration { d } else { max_duration }
}

/// A single session adds at most `max_duration` to the weight of any pair,
/// however long it lasted.
pub proof fn lemma_duration_cap(
    rs: Seq<Report>,
    r: Report,
    vertices: Set<usize>,
    max_players: usize,
    max_duration: u64,
    k: EdgeKey,
)
    ensures
        pair_weight(rs.push(r), vertices, max_players, max_duration, k) <= pair_weight(
            rs,
            vertices,
            max_players,
            max_duration,
            k,
        ) + max_duration,
{
    assert(rs.push(r).drop_last() =~= rs);
}

proof fn lemma_pair_weight_bound(
    rs: Seq<Report>,
    vertices: Set<usize>,
    max_players: usize,
    max_duration: u64,
    k: EdgeKey,
)
    ensures
        pair_weight(rs, vertices, max_players, max_duration, k) <= rs.len() * max_duration,
    decreases rs.len(),
{
    if rs.len() > 0 {
        lemma_pair_weight_bound(rs.drop_last(), vertices, max_players, max_duration, k);
        assert((rs.len() - 1) * max_duration + max_duration == rs.len() * max_duration) by (nonlinear_arith);
    }
}

/// The pair `k` is two different players of `f`, smaller id first.
pub open spec fn pair_in(f: Seq<usize>, k: EdgeKey) -> bool {
    k.is_canonical() && f.contains(k.0) && f.contains(k.1)
}

spec fn done_before(f: Seq<usize>, x: int, k: EdgeKey) -> bool {
    exists|i: int, j: int| #![trigger f[i], f[j]] 0 <= i < j < f.len() && i < x && edge_key(f[i], f[j]) == k
}

spec fn done_within(f: Seq<usize>, x: int, y: int, k: EdgeKey) -> bool {
    done_before(f, x, k) || exists|j: int| #![trigger f[j]] x < j < y && edge_key(f[x], f[j]) == k
}

proof fn lemma_edge_key_eq(a: usize, b: usize, c: usize, d: usize)
    requires
        edge_key(a, b) == edge_key(c, d),
        a != b,
    ensures
        (a == c && b == d) || (a == d && b == c),
{
}

proof fn lemma_pairs_done(f: Seq<usize>, k: EdgeKey)
    requires
        f.no_duplicates(),
    ensures
        done_before(f, f.len() as int, k) <==> pair_in(f, k),
{
    if done_before(f, f.len() as int, k) {
        let (i, j) = choose|i: int, j: int| #![trigger f[i], f[j]] 0 <= i < j < f.len() && i < f.len() && edge_key(f[i], f[j]) == k;
        assert(f[i] != f[j]);
    }
    if pair_in(f, k) {
        let p = choose|p: int| 0 <= p < f.len() && f[p] == k.0;
        let q = choose|q: int| 0 <= q < f.len() && f[q] == k.1;
        if p < q {
            assert(edge_key(f[p], f[q]) == k);
        } else {
            assert(edge_key(f[q], f[p]) == k);
        }
    }
}

/// Adds `dur` to the weight of every pair of different players of `f`.
fn add_pairs(w: &mut EdgeWeights, f: &Vec<usize>, dur: u64)
    requires
        old(w).wf(),
        f@.no_duplicates(),
        forall|k: EdgeKey| pair_in(f@, k) ==> weight_or_zero(old(w)@, k) + dur <= u64::MAX,
    ensures
        final(w).wf(),
        forall|k: EdgeKey| final(w)@.contains_key(k) <==> (old(w)@.contains_key(k) || pair_in(f@, k)),
        forall|k: EdgeKey| #[trigger] final(w)@.contains_key(k) ==> final(w)@[k] == weight_or_zero(old(w)@, k) + if pair_in(
            f@,
            k,
        ) { dur as int } else { 0int },
{
    let ghost base = w@;
    let n = f.len();
    let mut x: usize = 0;
    while x < n
        invariant
            n == f.len(),
            x <= n,
            f@.no_duplicates(),
            w.wf(),
            forall|k: EdgeKey| pair_in(f@, k) ==> weight_or_zero(base, k) + dur <= u64::MAX,
            forall|k: EdgeKey| #![trigger w@.contains_key(k)] w@.contains_key(k) <==> (base.contains_key(k) || done_before(f@, x as int, k)),
            forall|k: EdgeKey| #[trigger] w@.contains_key(k) ==> w@[k] == weight_or_zero(base, k) + if done_before(
                f@,
                x as int,
                k,
            ) { dur as int } else { 0int },
        decreases n - x,
    {
        let mut y: usize = x + 1;
        assert forall|k: EdgeKey| done_within(f@, x as int, y as int, k) <==> done_before(f@, x as int, k) by {}
        while y < n
            invariant
                n == f.len(),
                x < y <= n,
                f@.no_duplicates(),
                w.wf(),
                forall|k: EdgeKey| pair_in(f@, k) ==> weight_or_zero(base, k) + dur <= u64::MAX,
                forall|k: EdgeKey| #![trigger w@.contains_key(k)] w@.contains_key(k) <==> (base.contains_key(k) || done_within(f@, x as int, y as int, k)),
                forall|k: EdgeKey| #[trigger] w@.contains_key(k) ==> w@[k] == weight_or_zero(base, k) + if done_within(
                    f@,
                    x as int,
                    y as int,
                    k,
                ) { dur as int } else { 0int },
            decreases n - y,
        {
            let a = f[x];
            let b = f[y];
            let ghost e = edge_key(a, b);
            let ghost before = w@;
            proof {
                assert(!done_within(f@, x as int, y as int, e)) by {
                    if done_before(f@, x as int, e) {
                        let (i, j) = choose|i: int, j: int| #![trigger f@[i], f@[j]] 0 <= i < j < f.len() && i < x && edge_key(f@[i], f@[j]) == e;
                        lemma_edge_key_eq(f@[i], f@[j], a, b);
                    }
                    if exists|j: int| #![trigger f@[j]] x < j < y && edge_key(f@[x as int], f@[j]) == e {
                        let j = choose|j: int| #![trigger f@[j]] x < j < y && edge_key(f@[x as int], f@[j]) == e;
                        lemma_edge_key_eq(f@[x as int], f@[j], a, b);
                    }
                }
                assert(pair_in(f@, e));
                assert(weight_or_zero(before, e) == weight_or_zero(base, e));
            }
            w.add(a, b, dur);
            proof {
                assert forall|k: EdgeKey| done_within(f@, x as int, y + 1, k) <==> (done_within(f@, x as int, y as int, k) || k == e) by {
                    if exists|j: int| #![trigger f@[j]] x < j < y + 1 && edge_key(f@[x as int], f@[j]) == k {
                        let j = choose|j: int| #![trigger f@[j]] x < j < y + 1 && edge_key(f@[x as int], f@[j]) == k;
                        if j < y {
                            assert(done_within(f@, x as int, y as int, k));
                        }
                    }
                    if k == e {
                        assert(edge_key(f@[x as int], f@[y as int]) == k);
                    }
                }
                assert forall|k: EdgeKey| #![trigger w@.contains_key(k)] w@.contains_key(k) <==> (base.contains_key(k) || done_within(f@, x as int, y + 1, k)) by {}
                assert forall|k: EdgeKey| #[trigger] w@.contains_key(k) implies w@[k] == weight_or_zero(base, k) + if done_within(
                    f@,
                    x as int,
                    y + 1,
                    k,
                ) { dur as int } else { 0int } by {
                    if k != e {
                        assert(before.contains_key(k));
                    }
                }
            }
            y += 1;
        }
        proof {
            assert forall|k: EdgeKey| done_within(f@, x as int, n as int, k) <==> done_before(f@, x + 1, k) by {
                if done_before(f@, x + 1, k) {
                    let (i, j) = choose|i: int, j: int| #![trigger f@[i], f@[j]] 0 <= i < j < f.len() && i < x + 1 && edge_key(f@[i], f@[j]) == k;
                    if i < x {
                        assert(done_before(f@, x as int, k));
                    } else {
                        assert(x < j < n && edge_key(f@[x as int], f@[j]) == k);
                    }
                }
                if exists|j: int| #![trigger f@[j]] x < j < n && edge_key(f@[x as int], f@[j]) == k {
                    let j = choose|j: int| #![trigger f@[j]] x < j < n && edge_key(f@[x as int], f@[j]) == k;
                    assert(0 <= x < j < f.len() && x < x + 1 && edge_key(f@[x as int], f@[j]) == k);
                }
                if done_before(f@, x as int, k) {
                    let (i, j) = choose|i: int, j: int| #![trigger f@[i], f@[j]] 0 <= i < j < f.len() && i < x && edge_key(f@[i], f@[j]) == k;
                    assert(i < x + 1);
                }
            }
        }
        x += 1;
    }
    proof {
        assert forall|k: EdgeKey| done_before(f@, n as int, k) <==> pair_in(f@, k) by {
            lemma_pairs_done(f@, k);
        }
    }
}

/// The ids of `d` that are in `vertices`, in order.
fn keep_vertices(d: &Vec<usize>, vertices: &HashSet<usize>) -> (f: Vec<usize>)
    requires
        d@.no_duplicates(),
    ensures
        f@.no_duplicates(),
        forall|x: usize| #![trigger f@.contains(x)] f@.contains(x) <==> (d@.contains(x) && vertices@.contains(x)),
{
    let mut f: Vec<usize> = Vec::new();
    let mut t: usize = 0;
    while t < d.len()
        invariant
            t <= d.len(),
            d@.no_duplicates(),
            f@.no_duplicates(),
            forall|x: usize| #![trigger f@.contains(x)] f@.contains(x) <==> (d@.take(t as int).contains(x) && vertices@.contains(x)),
        decreases d.len() - t,
    {
        let x = d[t];
        proof {
            assert(d@.take(t + 1) =~= d@.take(t as int).push(x));
            assert(!d@.take(t as int).contains(x));
        }
        let ghost prev = f@;
        if vertices.contains(&x) {
            proof {
                assert(!prev.contains(x));
            }
            f.push(x);
            proof {
                assert forall|a: int, b: int| 0 <= a < b < f.len() implies f@[a] != f@[b] by {
                    if b == prev.len() {
                        assert(prev[a] == f@[a]);
                    }
                }
            }
        }
        proof {
            assert forall|y: usize| #![trigger f@.contains(y)] f@.contains(y) <==> (d@.take(t + 1).contains(y) && vertices@.contains(y)) by {
                assert(d@.take(t + 1).contains(y) <==> (d@.take(t as int).contains(y) || y == x));
                assert(prev.contains(y) <==> (d@.take(t as int).contains(y) && vertices@.contains(y)));
            }
        }
        t += 1;
    }
    proof {
        assert(d@.take(d.len() as int) =~= d@);
    }
    f
}

fn vertex_set(vertices: &Vec<usize>) -> (s: HashSet<usize>)
    ensures
        s@ == vertices@.to_set(),
{
    let mut s: HashSet<usize> = HashSet::new();
    let mut i: usize = 0;
    while i < vertices.len()
        invariant
            i <= vertices.len(),
            s@ == vertices@.take(i as int).to_set(),
        decreases vertices.len() - i,
    {
        proof {
            assert(vertices@.take(i + 1) =~= vertices@.take(i as int).push(vertices@[i as int]));
            vertices@.take(i as int).lemma_push_to_set_commute(vertices@[i as int]);
        }
        s.insert(vertices[i]);
        i += 1;
    }
    proof {
        assert(vertices@.take(vertices.len() as int) =~= vertices@);
    }
    s
}

/// Sums, for every pair of vertices, the capped durations of the valid
/// sessions in which both play. A pair gets an entry, possibly of weight
/// zero, as soon as one valid session joins it.
pub fn aggregate_weights(
    records: &Vec<Report>,
    vertices: &Vec<usize>,
    max_players: usize,
    max_duration: u64,
) -> (w: EdgeWeights)
    requires
        records.len() * max_duration <= u64::MAX,
    ensures
        w.wf(),
        forall|k: EdgeKey| #![trigger w@.contains_key(k)] w@.contains_key(k) <==> (k.is_canonical() && co_occurs(
            records@,
            vertices@.to_set(),
            max_players,
            k,
        )),
        forall|k: EdgeKey| #[trigger] w@.contains_key(k) ==> w@[k] == pair_weight(
            records@,
            vertices@.to_set(),
            max_players,
            max_duration,
            k,
        ),
{
    let vset = vertex_set(vertices);
    let ghost vs = vertices@.to_set();
    let mut w = EdgeWeights::new();
    let mut i: usize = 0;
    while i < records.len()
        invariant
            i <= records.len(),
            records.len() * max_duration <= u64::MAX,
            vset@ == vs,
            w.wf(),
            forall|k: EdgeKey| #![trigger w@.contains_key(k)] w@.contains_key(k) <==> (k.is_canonical() && co_occurs(
                records@.take(i as int),
                vs,
                max_players,
                k,
            )),
            forall|k: EdgeKey| #[trigger] w@.contains_key(k) ==> w@[k] == pair_weight(
                records@.take(i as int),
                vs,
                max_players,
                max_duration,
                k,
            ),
        decreases records.len() - i,
    {
        let r = &records[i];
        let ghost rs = records@.take(i as int);
        let ghost rs2 = records@.take(i + 1);
        let d = distinct_ids(&r.players);
        proof {
            assert(rs2.drop_last() =~= rs);
            assert(rs2.last() == *r);
            lemma_distinct_len(*r, d@);
        }
        let ghost before = w@;
        let valid = d.len() < max_players;
        let dur = session_duration(r, max_duration);
        let f = keep_vertices(&d, &vset);
        proof {
            assert forall|k: EdgeKey| k.is_canonical() implies (joins(*r, vs, k) <==> pair_in(f@, k)) by {
                assert(d@.contains(k.0) <==> player_set(*r).contains(k.0));
                assert(d@.contains(k.1) <==> player_set(*r).contains(k.1));
                assert(f@.contains(k.0) <==> (d@.contains(k.0) && vs.contains(k.0)));
                assert(f@.contains(k.1) <==> (d@.contains(k.1) && vs.contains(k.1)));
            }
            assert forall|k: EdgeKey| #![trigger pair_weight(rs2, vs, max_players, max_duration, k)]
                pair_weight(rs2, vs, max_players, max_duration, k) == pair_weight(rs, vs, max_players, max_duration, k)
                    + if valid && joins(*r, vs, k) { dur as int } else { 0int } by {}
            assert forall|k: EdgeKey| co_occurs(rs2, vs, max_players, k) <==> (co_occurs(rs, vs, max_players, k) || (valid
                && joins(*r, vs, k))) by {
                if co_occurs(rs, vs, max_players, k) {
                    let j = choose|j: int| #![trigger rs[j]] 0 <= j < rs.len() && is_valid_session(rs[j], max_players) && joins(rs[j], vs, k);
                    assert(rs2[j] == rs[j]);
                }
                if co_occurs(rs2, vs, max_players, k) {
                    let j = choose|j: int| #![trigger rs2[j]] 0 <= j < rs2.len() && is_valid_session(rs2[j], max_players) && joins(rs2[j], vs, k);
                    if j < rs.len() {
                        assert(rs2[j] == rs[j]);
                    }
                }
                assert(rs2[rs.len() as int] == *r);
            }
        }
        if valid {
            proof {
                assert forall|k: EdgeKey| pair_in(f@, k) implies weight_or_zero(w@, k) + dur <= u64::MAX by {
                    lemma_pair_weight_bound(rs, vs, max_players, max_duration, k);
                    assert(rs.len() * max_duration + max_duration <= records.len() * max_duration) by (nonlinear_arith)
                        requires
                            rs.len() + 1 <= records.len(),
                    ;
                }
            }
            add_pairs(&mut w, &f, dur);
        }
        proof {
            assert forall|k: EdgeKey| #![trigger w@.contains_key(k)] w@.contains_key(k) <==> (k.is_canonical() && co_occurs(rs2, vs, max_players, k)) by {
                if before.contains_key(k) {
                    assert(co_occurs(rs, vs, max_players, k));
                }
            }
            assert forall|k: EdgeKey| #[trigger] w@.contains_key(k) implies w@[k] == pair_weight(rs2, vs, max_players, max_duration, k) by {
                assert(pair_weight(rs2, vs, max_players, max_duration, k) == pair_weight(rs, vs, max_players, max_duration, k)
                    + if valid && joins(*r, vs, k) { dur as int } else { 0int });
                if !before.contains_key(k) {
                    assert(!co_occurs(rs, vs, max_players, k));
                    lemma_no_co_occurrence_no_weight(rs, vs, max_players, max_duration, k);
                }
            }
        }
        i += 1;
    }
    proof {
        assert(records@.take(records.len() as int) =~= records@);
    }
    w
}

proof fn lemma_no_co_occurrence_no_weight(
    rs: Seq<Report>,
    vertices: Set<usize>,
    max_players: usize,
    max_duration: u64,
    k: EdgeKey,
)
    requires
        !co_occurs(rs, vertices, max_players, k),
    ensures
        pair_weight(rs, vertices, max_players, max_duration, k) == 0,
    decreases rs.len(),
{
    if rs.len() > 0 {
        let init = rs.drop_last();
        assert(!co_occurs(init, vertices, max_players, k)) by {
            if co_occurs(init, vertices, max_players, k) {
                let j = choose|j: int| #![trigger init[j]] 0 <= j < init.len() && is_valid_session(init[j], max_players) && joins(init[j], vertices, k);
                assert(rs[j] == init[j]);
            }
        }
        lemma_no_co_occurrence_no_weight(init, vertices, max_players, max_duration, k);
        assert(rs[rs.len() - 1] == rs.last());
    }
}

} // verus!
