use std::collections::HashMap;
use vstd::prelude::*;

verus! {

broadcast use {vstd::std_specs::hash::group_hash_axioms, vstd::seq_lib::group_seq_properties};

/// One play session: its external code, its time range in milliseconds,
/// and the ids of the players who took part.
#[derive(Clone, Debug)]
pub struct Report {
    pub start_time: u64,
    pub end_time: u64,
    pub players: Vec<usize>,
    pub code: String,
}

/// The set of players of a session, whatever the order or repetition in its list.
pub open spec fn player_set(r: Report) -> Set<usize> {
    r.players@.to_set()
}

/// The ids that the players of `ps` are mapped to by `m`; players that `m`
/// does not map are left out.
pub open spec fn remapped_set(ps: Seq<usize>, m: Map<usize, usize>) -> Set<usize> {
    Set::new(
        |q: usize|
            exists|i: int| #![trigger ps[i]] 0 <= i < ps.len() && m.contains_key(ps[i]) && m[ps[i]] == q,
    )
}

/// Some record of `rs` carries the code `c`.
pub open spec fn has_code(rs: Seq<Report>, c: Seq<char>) -> bool {
    exists|i: int| #![trigger rs[i]] 0 <= i < rs.len() && rs[i].code@ == c
}

/// `s` is the earliest start among the records of `rs` with code `c`.
pub open spec fn is_earliest_start(rs: Seq<Report>, c: Seq<char>, s: u64) -> bool {
    &&& exists|i: int| #![trigger rs[i]] 0 <= i < rs.len() && rs[i].code@ == c && rs[i].start_time == s
    &&& forall|i: int| #![trigger rs[i]] 0 <= i < rs.len() && rs[i].code@ == c ==> s <= rs[i].start_time
}

/// `e` is the latest end among the records of `rs` with code `c`.
pub open spec fn is_latest_end(rs: Seq<Report>, c: Seq<char>, e: u64) -> bool {
    &&& exists|i: int| #![trigger rs[i]] 0 <= i < rs.len() && rs[i].code@ == c && rs[i].end_time == e
    &&& forall|i: int| #![trigger rs[i]] 0 <= i < rs.len() && rs[i].code@ == c ==> rs[i].end_time <= e
}

/// Every player that some record of `rs` with code `c` lists.
pub open spec fn joined_players(rs: Seq<Report>, c: Seq<char>) -> Set<usize> {
    Set::new(
        |p: usize|
            exists|i: int| #![trigger rs[i]] 0 <= i < rs.len() && rs[i].code@ == c && rs[i].players@.contains(p),
    )
}

/// No two records share a code.
pub open spec fn codes_distinct(rs: Seq<Report>) -> bool {
    forall|i: int, j: int| #![trigger rs[i], rs[j]] 0 <= i < j < rs.len() ==> rs[i].code@ != rs[j].code@
}

/// `out` holds one record per code of `rs`, which spans from the earliest
/// start to the latest end of the records with that code and lists, once
/// each, every player any of them lists.
pub open spec fn is_merge_of(out: Seq<Report>, rs: Seq<Report>) -> bool {
    &&& codes_distinct(out)
    &&& forall|c: Seq<char>| has_code(out, c) <==> has_code(rs, c)
    &&& forall|i: int| #![trigger out[i]] 0 <= i < out.len() ==> merges_code(rs, out[i])
}

/// `m` is the merge of the records of `rs` that carry its code.
pub open spec fn merges_code(rs: Seq<Report>, m: Report) -> bool {
    &&& is_earliest_start(rs, m.code@, m.start_time)
    &&& is_latest_end(rs, m.code@, m.end_time)
    &&& player_set(m) == joined_players(rs, m.code@)
    &&& m.players@.no_duplicates()
}

proof fn lemma_push_other_code(rs: Seq<Report>, r: Report, m: Report)
    requires
        r.code@ != m.code@,
        merges_code(rs, m),
    ensures
        merges_code(rs.push(r), m),
{
    let c = m.code@;
    let rs2 = rs.push(r);
    let i = choose|i: int| #![trigger rs[i]] 0 <= i < rs.len() && rs[i].code@ == c && rs[i].start_time == m.start_time;
    assert(rs2[i] == rs[i]);
    let k = choose|i: int| #![trigger rs[i]] 0 <= i < rs.len() && rs[i].code@ == c && rs[i].end_time == m.end_time;
    assert(rs2[k] == rs[k]);
    assert forall|j: int| #![trigger rs2[j]] 0 <= j < rs2.len() && rs2[j].code@ == c implies m.start_time
        <= rs2[j].start_time && rs2[j].end_time <= m.end_time by {
        assert(j < rs.len());
        assert(rs2[j] == rs[j]);
    }
    assert forall|p: usize| joined_players(rs2, c).contains(p) <==> joined_players(rs, c).contains(p) by {
        if joined_players(rs2, c).contains(p) {
            let j = choose|j: int| #![trigger rs2[j]] 0 <= j < rs2.len() && rs2[j].code@ == c && rs2[j].players@.contains(p);
            assert(rs2[j] == rs[j]);
        }
        if joined_players(rs, c).contains(p) {
            let j = choose|j: int| #![trigger rs[j]] 0 <= j < rs.len() && rs[j].code@ == c && rs[j].players@.contains(p);
            assert(rs2[j] == rs[j]);
        }
    }
    assert(joined_players(rs2, c) =~= joined_players(rs, c));
}

proof fn lemma_push_same_code(rs: Seq<Report>, r: Report, m: Report, merged: Report)
    requires
        r.code@ == m.code@,
        merged.code@ == m.code@,
        merges_code(rs, m),
        merged.start_time == if m.start_time <= r.start_time { m.start_time } else { r.start_time },
        merged.end_time == if m.end_time >= r.end_time { m.end_time } else { r.end_time },
        player_set(merged) == player_set(m) + player_set(r),
        merged.players@.no_duplicates(),
    ensures
        merges_code(rs.push(r), merged),
{
    let c = m.code@;
    let rs2 = rs.push(r);
    let n = rs.len() as int;
    assert(rs2[n] == r);
    let i = choose|i: int| #![trigger rs[i]] 0 <= i < rs.len() && rs[i].code@ == c && rs[i].start_time == m.start_time;
    assert(rs2[i] == rs[i]);
    let k = choose|i: int| #![trigger rs[i]] 0 <= i < rs.len() && rs[i].code@ == c && rs[i].end_time == m.end_time;
    assert(rs2[k] == rs[k]);
    assert forall|j: int| #![trigger rs2[j]] 0 <= j < rs2.len() && rs2[j].code@ == c implies merged.start_time
        <= rs2[j].start_time && rs2[j].end_time <= merged.end_time by {
        if j < n {
            assert(rs2[j] == rs[j]);
        }
    }
    assert forall|p: usize| joined_players(rs2, c).contains(p) <==> player_set(merged).contains(p) by {
        if joined_players(rs2, c).contains(p) {
            let j = choose|j: int| #![trigger rs2[j]] 0 <= j < rs2.len() && rs2[j].code@ == c && rs2[j].players@.contains(p);
            if j < n {
                assert(rs2[j] == rs[j]);
                assert(joined_players(rs, c).contains(p));
            }
        }
        if player_set(m).contains(p) {
            assert(joined_players(rs, c).contains(p));
            let j = choose|j: int| #![trigger rs[j]] 0 <= j < rs.len() && rs[j].code@ == c && rs[j].players@.contains(p);
            assert(rs2[j] == rs[j]);
        }
    }
    assert(joined_players(rs2, c) =~= player_set(merged));
}

proof fn lemma_push_new_code(rs: Seq<Report>, r: Report, fresh: Report)
    requires
        !has_code(rs, r.code@),
        fresh.code@ == r.code@,
        fresh.start_time == r.start_time,
        fresh.end_time == r.end_time,
        player_set(fresh) == player_set(r),
        fresh.players@.no_duplicates(),
    ensures
        merges_code(rs.push(r), fresh),
{
    let c = r.code@;
    let rs2 = rs.push(r);
    let n = rs.len() as int;
    assert(rs2[n] == r);
    assert forall|j: int| #![trigger rs2[j]] 0 <= j < rs2.len() && rs2[j].code@ == c implies j == n by {
        if j < n {
            assert(rs2[j] == rs[j]);
        }
    }
    assert(joined_players(rs2, c) =~= player_set(fresh));
}

fn find_code(out: &Vec<Report>, code: &String) -> (r: Option<usize>)
    ensures
        match r {
            Some(j) => j < out.len() && out@[j as int].code@ == code@,
            None => !has_code(out@, code@),
        },
{
    let mut j: usize = 0;
    while j < out.len()
        invariant
            j <= out.len(),
            forall|k: int| #![trigger out@[k]] 0 <= k < j ==> out@[k].code@ != code@,
        decreases out.len() - j,
    {
        if out[j].code == *code {
            return Some(j);
        }
        j += 1;
    }
    None
}

/// Merges records that share a code: the merged record runs from the
/// earliest start to the latest end and lists every player of any of them.
/// The order of the result is the order in which codes first occur.
pub fn dedup_reports(reports: Vec<Report>) -> (out: Vec<Report>)
    ensures
        is_merge_of(out@, reports@),
{
    let mut out: Vec<Report> = Vec::new();
    let mut i: usize = 0;
    while i < reports.len()
        invariant
            i <= reports.len(),
            is_merge_of(out@, reports@.take(i as int)),
        decreases reports.len() - i,
    {
        let r = &reports[i];
        let ghost rs = reports@.take(i as int);
        let ghost rs2 = reports@.take(i + 1);
        proof {
            assert(rs2 =~= rs.push(*r));
            assert forall|c: Seq<char>| has_code(rs2, c) <==> (has_code(rs, c) || c == r.code@) by {
                if has_code(rs, c) {
                    let k = choose|k: int| #![trigger rs[k]] 0 <= k < rs.len() && rs[k].code@ == c;
                    assert(rs2[k] == rs[k]);
                }
                if has_code(rs2, c) {
                    let k = choose|k: int| #![trigger rs2[k]] 0 <= k < rs2.len() && rs2[k].code@ == c;
                    if k < rs.len() {
                        assert(rs2[k] == rs[k]);
                    }
                }
                assert(rs2[rs.len() as int] == *r);
            }
        }
        let ghost before = out@;
        match find_code(&out, &r.code) {
            Some(j) => {
                let m = &out[j];
                let start = if m.start_time <= r.start_time { m.start_time } else { r.start_time };
                let end = if m.end_time >= r.end_time { m.end_time } else { r.end_time };
                let mut players: Vec<usize> = Vec::new();
                absorb_ids(&mut players, &m.players);
                absorb_ids(&mut players, &r.players);
                let merged = Report { start_time: start, end_time: end, players, code: m.code.clone() };
                proof {
                    assert(player_set(merged) =~= player_set(*m) + player_set(*r));
                    lemma_push_same_code(rs, *r, *m, merged);
                }
                out.set(j, merged);
                proof {
                    assert forall|k: int| #![trigger out@[k]] 0 <= k < out@.len() implies merges_code(rs2, out@[k]) by {
                        if k != j {
                            assert(out@[k] == before[k]);
                            assert(merges_code(rs, before[k]));
                            assert(before[k].code@ != before[j as int].code@);
                            lemma_push_other_code(rs, *r, before[k]);
                        }
                    }
                    assert forall|c: Seq<char>| has_code(out@, c) <==> has_code(before, c) by {
                        if has_code(out@, c) {
                            let k = choose|k: int| #![trigger out@[k]] 0 <= k < out@.len() && out@[k].code@ == c;
                            assert(before[k].code@ == c);
                        }
                        if has_code(before, c) {
                            let k = choose|k: int| #![trigger before[k]] 0 <= k < before.len() && before[k].code@ == c;
                            assert(out@[k].code@ == c);
                        }
                    }
                    assert forall|a: int, b: int| #![trigger out@[a], out@[b]] 0 <= a < b < out@.len() implies out@[a].code@
                        != out@[b].code@ by {
                        assert(out@[a].code@ == before[a].code@ && out@[b].code@ == before[b].code@);
                    }
                    assert(has_code(rs, r.code@)) by {
                        assert(has_code(before, before[j as int].code@));
                    }
                    assert(is_merge_of(out@, rs2));
                }
            },
            None => {
                let players = distinct_ids(&r.players);
                let fresh = Report {
                    start_time: r.start_time,
                    end_time: r.end_time,
                    players,
                    code: r.code.clone(),
                };
                proof {
                    lemma_push_new_code(rs, *r, fresh);
                }
                out.push(fresh);
                proof {
                    let n = before.len() as int;
                    assert(out@[n] == fresh);
                    assert forall|k: int| #![trigger out@[k]] 0 <= k < out@.len() implies merges_code(rs2, out@[k]) by {
                        if k < n {
                            assert(out@[k] == before[k]);
                            assert(merges_code(rs, before[k]));
                            assert(before[k].code@ != r.code@);
                            lemma_push_other_code(rs, *r, before[k]);
                        }
                    }
                    assert forall|c: Seq<char>| has_code(out@, c) <==> (has_code(before, c) || c == r.code@) by {
                        if has_code(out@, c) {
                            let k = choose|k: int| #![trigger out@[k]] 0 <= k < out@.len() && out@[k].code@ == c;
                            if k < n {
                                assert(before[k].code@ == c);
                            }
                        }
                        if has_code(before, c) {
                            let k = choose|k: int| #![trigger before[k]] 0 <= k < before.len() && before[k].code@ == c;
                            assert(out@[k].code@ == c);
                        }
                    }
                    assert forall|a: int, b: int| #![trigger out@[a], out@[b]] 0 <= a < b < out@.len() implies out@[a].code@
                        != out@[b].code@ by {
                        if b < n {
                            assert(out@[a] == before[a] && out@[b] == before[b]);
                        } else {
                            assert(out@[a] == before[a]);
                        }
                    }
                    assert(is_merge_of(out@, rs2));
                }
            },
        }
        i += 1;
    }
    proof {
        assert(reports@.take(reports.len() as int) =~= reports@);
    }
    out
}

fn contains_id(v: &Vec<usize>, x: usize) -> (b: bool)
    ensures
        b == v@.contains(x),
{
    let mut i: usize = 0;
    while i < v.len()
        invariant
            i <= v.len(),
            forall|j: int| 0 <= j < i ==> v@[j] != x,
        decreases v.len() - i,
    {
        if v[i] == x {
            return true;
        }
        i += 1;
    }
    false
}

/// Appends to `acc` each id of `extra` that it does not hold yet.
fn absorb_ids(acc: &mut Vec<usize>, extra: &Vec<usize>)
    requires
        old(acc)@.no_duplicates(),
    ensures
        final(acc)@.no_duplicates(),
        final(acc)@.to_set() == old(acc)@.to_set() + extra@.to_set(),
{
    let ghost start = acc@;
    let mut i: usize = 0;
    while i < extra.len()
        invariant
            i <= extra.len(),
            acc@.no_duplicates(),
            forall|x: usize| acc@.contains(x) <==> (start.contains(x) || extra@.take(i as int).contains(x)),
        decreases extra.len() - i,
    {
        let x = extra[i];
        proof {
            assert(extra@.take(i + 1) =~= extra@.take(i as int).push(x));
        }
        let ghost prev = acc@;
        assert(forall|y: usize| prev.contains(y) <==> (start.contains(y) || extra@.take(i as int).contains(y)));
        if !contains_id(acc, x) {
            acc.push(x);
            proof {
                assert(acc@ == prev.push(x));
            }
        }
        proof {
            assert forall|y: usize| acc@.contains(y) <==> (prev.contains(y) || y == x) by {}
            assert forall|y: usize|
                acc@.contains(y) <==> (start.contains(y) || extra@.take(i + 1).contains(y)) by {
                assert(extra@.take(i + 1).contains(y) <==> (extra@.take(i as int).contains(y) || y == x));
            }
        }
        i += 1;
    }
    proof {
        assert(extra@.take(extra.len() as int) =~= extra@);
        assert(acc@.to_set() =~= start.to_set() + extra@.to_set());
    }
}

/// The ids of `players` without repetition, in order of first occurrence.
pub fn distinct_ids(players: &Vec<usize>) -> (out: Vec<usize>)
    ensures
        out@.no_duplicates(),
        out@.to_set() == players@.to_set(),
{
    let mut out: Vec<usize> = Vec::new();
    absorb_ids(&mut out, players);
    proof {
        assert(out@.to_set() =~= players@.to_set());
    }
    out
}

/// Rewrites the players of a record through `id_map`, dropping the ids it
/// does not map and listing each resulting id once.
pub fn remap_report(report: Report, id_map: &HashMap<usize, usize>) -> (out: Report)
    ensures
        out.code == report.code,
        out.start_time == report.start_time,
        out.end_time == report.end_time,
        out.players@.no_duplicates(),
        player_set(out) == remapped_set(report.players@, id_map@),
{
    let mut players: Vec<usize> = Vec::new();
    let mut i: usize = 0;
    while i < report.players.len()
        invariant
            i <= report.players.len(),
            players@.no_duplicates(),
            forall|q: usize|
                players@.contains(q) <==> remapped_set(report.players@.take(i as int), id_map@).contains(q),
        decreases report.players.len() - i,
    {
        let p = report.players[i];
        let ghost before = report.players@.take(i as int);
        let ghost after = report.players@.take(i + 1);
        proof {
            assert(after =~= before.push(p));
        }
        match id_map.get(&p) {
            Some(q) => {
                if !contains_id(&players, *q) {
                    players.push(*q);
                }
                proof {
                    assert(remapped_set(after, id_map@).contains(*q)) by {
                        assert(after[i as int] == p);
                    }
                }
            },
            None => {},
        }
        proof {
            assert forall|q: usize|
                remapped_set(after, id_map@).contains(q) implies players@.contains(q) by {
                let j = choose|j: int|
                    #![trigger after[j]]
                    0 <= j < after.len() && id_map@.contains_key(after[j]) && id_map@[after[j]] == q;
                if j < i {
                    assert(before[j] == after[j]);
                    assert(remapped_set(before, id_map@).contains(q));
                }
            }
            assert forall|q: usize|
                remapped_set(before, id_map@).contains(q) implies remapped_set(after, id_map@).contains(q) by {
                let j = choose|j: int|
                    #![trigger before[j]]
                    0 <= j < before.len() && id_map@.contains_key(before[j]) && id_map@[before[j]] == q;
                assert(after[j] == before[j]);
            }
        }
        i += 1;
    }
    proof {
        assert(report.players@.take(report.players.len() as int) =~= report.players@);
        assert(players@.to_set() =~= remapped_set(report.players@, id_map@));
    }
    Report { start_time: report.start_time, end_time: report.end_time, players, code: report.code }
}

/// `mid` is `rs` record by record, with players rewritten through `m`.
pub open spec fn remaps(mid: Seq<Report>, rs: Seq<Report>, m: Map<usize, usize>) -> bool {
    &&& mid.len() == rs.len()
    &&& forall|k: int| #![trigger mid[k]] 0 <= k < rs.len() ==> {
        &&& mid[k].code@ == rs[k].code@
        &&& mid[k].start_time == rs[k].start_time
        &&& mid[k].end_time == rs[k].end_time
        &&& player_set(mid[k]) == remapped_set(rs[k].players@, m)
        &&& mid[k].players@.no_duplicates()
    }
}

/// Every id that `m` gives to a player of some record of `rs` with code `c`.
pub open spec fn joined_remapped(rs: Seq<Report>, c: Seq<char>, m: Map<usize, usize>) -> Set<usize> {
    Set::new(
        |q: usize|
            exists|i: int|
                #![trigger rs[i]]
                0 <= i < rs.len() && rs[i].code@ == c && remapped_set(rs[i].players@, m).contains(q),
    )
}

/// `out` holds one record per code of `rs`, spanning the earliest start to
/// the latest end of the records with that code, and listing once each id
/// that `m` gives to any of their players.
pub open spec fn is_remapped_merge_of(out: Seq<Report>, rs: Seq<Report>, m: Map<usize, usize>) -> bool {
    &&& codes_distinct(out)
    &&& forall|c: Seq<char>| has_code(out, c) <==> has_code(rs, c)
    &&& forall|i: int| #![trigger out[i]] 0 <= i < out.len() ==> {
        &&& is_earliest_start(rs, out[i].code@, out[i].start_time)
        &&& is_latest_end(rs, out[i].code@, out[i].end_time)
        &&& player_set(out[i]) == joined_remapped(rs, out[i].code@, m)
        &&& out[i].players@.no_duplicates()
    }
}

/// Rewrites the players of every record through `id_map` (see [`remap_report`]).
pub fn remap_reports(reports: Vec<Report>, id_map: &HashMap<usize, usize>) -> (out: Vec<Report>)
    ensures
        remaps(out@, reports@, id_map@),
{
    let mut out: Vec<Report> = Vec::new();
    let n = reports.len();
    let mut rest = reports;
    let ghost all = rest@;
    // Reverse the records first, then take them from the back: each record
    // moves out of its vector without being copied.
    let mut reversed: Vec<Report> = Vec::new();
    while rest.len() > 0
        invariant
            reversed.len() + rest.len() == all.len(),
            rest@ == all.take(rest.len() as int),
            forall|k: int| #![trigger reversed@[k]] 0 <= k < reversed.len() ==> reversed@[k] == all[all.len() - 1 - k],
        decreases rest.len(),
    {
        let r = rest.pop().unwrap();
        reversed.push(r);
        proof {
            assert(rest@ =~= all.take(rest.len() as int));
        }
    }
    let mut i: usize = 0;
    while i < n
        invariant
            n == all.len(),
            i <= all.len(),
            i + reversed.len() == all.len(),
            forall|k: int| #![trigger reversed@[k]] 0 <= k < reversed.len() ==> reversed@[k] == all[all.len() - 1 - k],
            remaps(out@, all.take(i as int), id_map@),
            all == reports@,
        decreases n - i,
    {
        let r = reversed.pop().unwrap();
        assert(r == all[i as int]);
        let mapped = remap_report(r, id_map);
        let ghost before = out@;
        out.push(mapped);
        proof {
            assert forall|k: int| #![trigger out@[k]] 0 <= k < i + 1 implies {
                &&& out@[k].code@ == all.take(i + 1)[k].code@
                &&& out@[k].start_time == all.take(i + 1)[k].start_time
                &&& out@[k].end_time == all.take(i + 1)[k].end_time
                &&& player_set(out@[k]) == remapped_set(all.take(i + 1)[k].players@, id_map@)
                &&& out@[k].players@.no_duplicates()
            } by {
                if k < i {
                    assert(out@[k] == before[k]);
                    assert(all.take(i as int)[k] == all.take(i + 1)[k]);
                }
            }
        }
        i += 1;
    }
    proof {
        assert(all.take(all.len() as int) =~= all);
    }
    out
}

proof fn lemma_merge_of_remapped(out: Seq<Report>, mid: Seq<Report>, rs: Seq<Report>, m: Map<usize, usize>)
    requires
        is_merge_of(out, mid),
        remaps(mid, rs, m),
    ensures
        is_remapped_merge_of(out, rs, m),
{
    assert forall|c: Seq<char>| has_code(mid, c) <==> has_code(rs, c) by {
        if has_code(mid, c) {
            let k = choose|k: int| #![trigger mid[k]] 0 <= k < mid.len() && mid[k].code@ == c;
            assert(rs[k].code@ == c);
        }
        if has_code(rs, c) {
            let k = choose|k: int| #![trigger rs[k]] 0 <= k < rs.len() && rs[k].code@ == c;
            assert(mid[k].code@ == c);
        }
    }
    assert forall|i: int| #![trigger out[i]] 0 <= i < out.len() implies {
        &&& is_earliest_start(rs, out[i].code@, out[i].start_time)
        &&& is_latest_end(rs, out[i].code@, out[i].end_time)
        &&& player_set(out[i]) == joined_remapped(rs, out[i].code@, m)
    } by {
        let o = out[i];
        let c = o.code@;
        assert(merges_code(mid, o));
        let a = choose|k: int| #![trigger mid[k]] 0 <= k < mid.len() && mid[k].code@ == c && mid[k].start_time == o.start_time;
        assert(rs[a].code@ == c && rs[a].start_time == o.start_time);
        let b = choose|k: int| #![trigger mid[k]] 0 <= k < mid.len() && mid[k].code@ == c && mid[k].end_time == o.end_time;
        assert(rs[b].code@ == c && rs[b].end_time == o.end_time);
        assert forall|k: int| #![trigger rs[k]] 0 <= k < rs.len() && rs[k].code@ == c implies o.start_time
            <= rs[k].start_time && rs[k].end_time <= o.end_time by {
            assert(mid[k].code@ == c);
        }
        assert forall|q: usize| player_set(o).contains(q) <==> joined_remapped(rs, c, m).contains(q) by {
            if player_set(o).contains(q) {
                assert(joined_players(mid, c).contains(q));
                let k = choose|k: int| #![trigger mid[k]] 0 <= k < mid.len() && mid[k].code@ == c && mid[k].players@.contains(q);
                assert(player_set(mid[k]).contains(q));
                assert(rs[k].code@ == c);
            }
            if joined_remapped(rs, c, m).contains(q) {
                let k = choose|k: int| #![trigger rs[k]] 0 <= k < rs.len() && rs[k].code@ == c && remapped_set(rs[k].players@, m).contains(q);
                assert(player_set(mid[k]).contains(q));
                assert(mid[k].code@ == c);
                assert(joined_players(mid, c).contains(q));
            }
        }
        assert(player_set(o) =~= joined_remapped(rs, c, m));
    }
}

/// Rewrites the players of every record through `id_map`, then merges the
/// records that share a code (see [`dedup_reports`]).
pub fn merge_reports(reports: Vec<Report>, id_map: &HashMap<usize, usize>) -> (out: Vec<Report>)
    ensures
        is_remapped_merge_of(out@, reports@, id_map@),
{
    let ghost rs = reports@;
    let mid = remap_reports(reports, id_map);
    let out = dedup_reports(mid);
    proof {
        lemma_merge_of_remapped(out@, mid@, rs, id_map@);
    }
    out
}

/// The earliest start among the records of `rs` with code `c`.
pub open spec fn earliest_start(rs: Seq<Report>, c: Seq<char>) -> u64 {
    choose|s: u64| is_earliest_start(rs, c, s)
}

/// The latest end among the records of `rs` with code `c`.
pub open spec fn latest_end(rs: Seq<Report>, c: Seq<char>) -> u64 {
    choose|e: u64| is_latest_end(rs, c, e)
}

/// The sessions that `rs` describes: for each of its codes, the span from
/// the earliest start to the latest end and the set of players, over all
/// records with that code.
pub open spec fn merged_sessions(rs: Seq<Report>) -> Map<Seq<char>, (u64, u64, Set<usize>)> {
    Map::new(
        |c: Seq<char>| has_code(rs, c),
        |c: Seq<char>| (earliest_start(rs, c), latest_end(rs, c), joined_players(rs, c)),
    )
}

proof fn lemma_extremes_exist(rs: Seq<Report>, c: Seq<char>)
    requires
        has_code(rs, c),
    ensures
        exists|s: u64| is_earliest_start(rs, c, s),
        exists|e: u64| is_latest_end(rs, c, e),
    decreases rs.len(),
{
    let n = rs.len() - 1;
    let init = rs.drop_last();
    let last = rs[n];
    assert forall|k: int| 0 <= k < n implies #[trigger] init[k] == rs[k] by {}
    if has_code(init, c) {
        let k = choose|k: int| #![trigger init[k]] 0 <= k < init.len() && init[k].code@ == c;
        assert(init[k] == rs[k]);
        lemma_extremes_exist(init, c);
        let s = choose|s: u64| is_earliest_start(init, c, s);
        let e = choose|e: u64| is_latest_end(init, c, e);
        let a = choose|i: int| #![trigger init[i]] 0 <= i < init.len() && init[i].code@ == c && init[i].start_time == s;
        let b = choose|i: int| #![trigger init[i]] 0 <= i < init.len() && init[i].code@ == c && init[i].end_time == e;
        assert(init[a] == rs[a] && init[b] == rs[b]);
        let s2 = if last.code@ == c && last.start_time < s { last.start_time } else { s };
        let e2 = if last.code@ == c && last.end_time > e { last.end_time } else { e };
        assert forall|i: int| #![trigger rs[i]] 0 <= i < rs.len() && rs[i].code@ == c implies s2 <= rs[i].start_time
            && rs[i].end_time <= e2 by {
            if i < n {
                assert(init[i] == rs[i]);
            }
        }
        assert(is_earliest_start(rs, c, s2));
        assert(is_latest_end(rs, c, e2));
    } else {
        let k = choose|k: int| #![trigger rs[k]] 0 <= k < rs.len() && rs[k].code@ == c;
        if k < n {
            assert(init[k] == rs[k]);
        }
        assert forall|i: int| #![trigger rs[i]] 0 <= i < rs.len() && rs[i].code@ == c implies i == n by {
            if i < n {
                assert(init[i] == rs[i]);
            }
        }
        assert(is_earliest_start(rs, c, last.start_time));
        assert(is_latest_end(rs, c, last.end_time));
    }
}

proof fn lemma_extremes_unique(rs: Seq<Report>, c: Seq<char>, s: u64, e: u64)
    requires
        is_earliest_start(rs, c, s),
        is_latest_end(rs, c, e),
    ensures
        earliest_start(rs, c) == s,
        latest_end(rs, c) == e,
{
    let s2 = earliest_start(rs, c);
    let e2 = latest_end(rs, c);
    let a = choose|i: int| #![trigger rs[i]] 0 <= i < rs.len() && rs[i].code@ == c && rs[i].start_time == s;
    let a2 = choose|i: int| #![trigger rs[i]] 0 <= i < rs.len() && rs[i].code@ == c && rs[i].start_time == s2;
    let b = choose|i: int| #![trigger rs[i]] 0 <= i < rs.len() && rs[i].code@ == c && rs[i].end_time == e;
    let b2 = choose|i: int| #![trigger rs[i]] 0 <= i < rs.len() && rs[i].code@ == c && rs[i].end_time == e2;
    assert(rs[a].start_time >= s2 && rs[a2].start_time >= s);
    assert(rs[b].end_time <= e2 && rs[b2].end_time <= e);
}

/// A merge describes the same sessions as the records it was made from.
pub proof fn lemma_merge_keeps_sessions(out: Seq<Report>, rs: Seq<Report>)
    requires
        is_merge_of(out, rs),
    ensures
        merged_sessions(out) == merged_sessions(rs),
{
    assert forall|c: Seq<char>| #[trigger] has_code(rs, c) implies merged_sessions(out)[c] == merged_sessions(rs)[c] by {
        assert(has_code(out, c));
        let i = choose|i: int| #![trigger out[i]] 0 <= i < out.len() && out[i].code@ == c;
        let o = out[i];
        assert(merges_code(rs, o));
        assert forall|j: int| #![trigger out[j]] 0 <= j < out.len() && out[j].code@ == c implies j == i by {
            if j < i {
                assert(out[j].code@ != out[i].code@);
            }
            if j > i {
                assert(out[i].code@ != out[j].code@);
            }
        }
        assert(is_earliest_start(out, c, o.start_time));
        assert(is_latest_end(out, c, o.end_time));
        lemma_extremes_unique(out, c, o.start_time, o.end_time);
        lemma_extremes_unique(rs, c, o.start_time, o.end_time);
        assert(joined_players(out, c) =~= player_set(o));
    }
    assert(merged_sessions(out) =~= merged_sessions(rs));
}

/// In a record set without repeated codes, each record is the session that
/// the set describes under its code.
pub proof fn lemma_distinct_records_are_sessions(out: Seq<Report>, i: int)
    requires
        codes_distinct(out),
        0 <= i < out.len(),
    ensures
        merged_sessions(out).contains_key(out[i].code@),
        merged_sessions(out)[out[i].code@] == (out[i].start_time, out[i].end_time, player_set(out[i])),
{
    let c = out[i].code@;
    assert forall|j: int| #![trigger out[j]] 0 <= j < out.len() && out[j].code@ == c implies j == i by {
        if j < i {
            assert(out[j].code@ != out[i].code@);
        }
        if j > i {
            assert(out[i].code@ != out[j].code@);
        }
    }
    assert(is_earliest_start(out, c, out[i].start_time));
    assert(is_latest_end(out, c, out[i].end_time));
    lemma_extremes_unique(out, c, out[i].start_time, out[i].end_time);
    assert(joined_players(out, c) =~= player_set(out[i]));
}

/// Merging an already merged record set changes nothing: the second merge
/// describes the same sessions as the first, record for record (see
/// [`lemma_distinct_records_are_sessions`]).
pub proof fn lemma_merge_idempotent(rs: Seq<Report>, once: Seq<Report>, twice: Seq<Report>)
    requires
        is_merge_of(once, rs),
        is_merge_of(twice, once),
    ensures
        merged_sessions(twice) == merged_sessions(once),
        forall|c: Seq<char>| has_code(twice, c) <==> has_code(once, c),
{
    lemma_merge_keeps_sessions(twice, once);
}

proof fn lemma_swap_describes(a: Seq<Report>, b: Seq<Report>, c: Seq<char>)
    ensures
        has_code(a + b, c) <==> has_code(b + a, c),
        forall|s: u64| is_earliest_start(a + b, c, s) ==> is_earliest_start(b + a, c, s),
        forall|e: u64| is_latest_end(a + b, c, e) ==> is_latest_end(b + a, c, e),
        joined_players(a + b, c) == joined_players(b + a, c),
{
    let ab = a + b;
    let ba = b + a;
    // Index `k` of `ab` is index `swap(k)` of `ba`, and the other way round.
    assert forall|k: int| 0 <= k < ab.len() implies #[trigger] ab[k] == ba[if k < a.len() { k + b.len() } else { k - a.len() }] by {}
    assert forall|k: int| 0 <= k < ba.len() implies #[trigger] ba[k] == ab[if k < b.len() { k + a.len() } else { k - b.len() }] by {}
    if has_code(ab, c) {
        let k = choose|k: int| #![trigger ab[k]] 0 <= k < ab.len() && ab[k].code@ == c;
        let k2 = if k < a.len() { k + b.len() } else { k - a.len() };
        assert(ba[k2] == ab[k]);
    }
    if has_code(ba, c) {
        let k = choose|k: int| #![trigger ba[k]] 0 <= k < ba.len() && ba[k].code@ == c;
        let k2 = if k < b.len() { k + a.len() } else { k - b.len() };
        assert(ab[k2] == ba[k]);
    }
    assert forall|s: u64| is_earliest_start(ab, c, s) implies is_earliest_start(ba, c, s) by {
        let k = choose|k: int| #![trigger ab[k]] 0 <= k < ab.len() && ab[k].code@ == c && ab[k].start_time == s;
        let k2 = if k < a.len() { k + b.len() } else { k - a.len() };
        assert(ba[k2] == ab[k]);
        assert forall|j: int| #![trigger ba[j]] 0 <= j < ba.len() && ba[j].code@ == c implies s <= ba[j].start_time by {
            let j2 = if j < b.len() { j + a.len() } else { j - b.len() };
            assert(ab[j2] == ba[j]);
        }
    }
    assert forall|e: u64| is_latest_end(ab, c, e) implies is_latest_end(ba, c, e) by {
        let k = choose|k: int| #![trigger ab[k]] 0 <= k < ab.len() && ab[k].code@ == c && ab[k].end_time == e;
        let k2 = if k < a.len() { k + b.len() } else { k - a.len() };
        assert(ba[k2] == ab[k]);
        assert forall|j: int| #![trigger ba[j]] 0 <= j < ba.len() && ba[j].code@ == c implies ba[j].end_time <= e by {
            let j2 = if j < b.len() { j + a.len() } else { j - b.len() };
            assert(ab[j2] == ba[j]);
        }
    }
    assert forall|p: usize| joined_players(ab, c).contains(p) <==> joined_players(ba, c).contains(p) by {
        if joined_players(ab, c).contains(p) {
            let k = choose|k: int| #![trigger ab[k]] 0 <= k < ab.len() && ab[k].code@ == c && ab[k].players@.contains(p);
            let k2 = if k < a.len() { k + b.len() } else { k - a.len() };
            assert(ba[k2] == ab[k]);
        }
        if joined_players(ba, c).contains(p) {
            let k = choose|k: int| #![trigger ba[k]] 0 <= k < ba.len() && ba[k].code@ == c && ba[k].players@.contains(p);
            let k2 = if k < b.len() { k + a.len() } else { k - b.len() };
            assert(ab[k2] == ba[k]);
        }
    }
    assert(joined_players(ab, c) =~= joined_players(ba, c));
}

/// Merging two raw record sets in either order gives the same sessions:
/// the same codes, and under each code the same span and players.
pub proof fn lemma_merge_commutative(a: Seq<Report>, b: Seq<Report>, ab: Seq<Report>, ba: Seq<Report>)
    requires
        is_merge_of(ab, a + b),
        is_merge_of(ba, b + a),
    ensures
        merged_sessions(ab) == merged_sessions(ba),
        merged_sessions(a + b) == merged_sessions(b + a),
{
    assert forall|c: Seq<char>| #[trigger] has_code(a + b, c) implies merged_sessions(a + b)[c]
        == merged_sessions(b + a)[c] by {
        lemma_swap_describes(a, b, c);
        lemma_swap_describes(b, a, c);
        lemma_extremes_exist(a + b, c);
        let s = earliest_start(a + b, c);
        let e = latest_end(a + b, c);
        lemma_extremes_unique(b + a, c, s, e);
    }
    assert forall|c: Seq<char>| has_code(a + b, c) <==> has_code(b + a, c) by {
        lemma_swap_describes(a, b, c);
    }
    assert(merged_sessions(a + b) =~= merged_sessions(b + a));
    lemma_merge_keeps_sessions(ab, a + b);
    lemma_merge_keeps_sessions(ba, b + a);
}

} // verus!
