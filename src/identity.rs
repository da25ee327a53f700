use std::collections::HashMap;
use vstd::prelude::*;

verus! {

broadcast use {vstd::std_specs::hash::group_hash_axioms, vstd::seq_lib::group_seq_properties};

/// A row of a player table: an id, unique within its table, and a display
/// name, which is the true identity of the player across tables.
#[derive(Clone, Debug)]
pub struct Player {
    pub id: usize,
    pub player_name: String,
}

/// The names of all rows of `tables`, table after table, row after row.
pub open spec fn row_names(tables: Seq<Vec<Player>>) -> Seq<Seq<char>>
    decreases tables.len(),
{
    if tables.len() == 0 {
        Seq::empty()
    } else {
        row_names(tables.drop_last()) + tables.last()@.map_values(|p: Player| p.player_name@)
    }
}

/// The distinct names of `names`, in order of first occurrence.
pub open spec fn canonical_names(names: Seq<Seq<char>>) -> Seq<Seq<char>>
    decreases names.len(),
{
    if names.len() == 0 {
        Seq::empty()
    } else {
        let prev = canonical_names(names.drop_last());
        if prev.contains(names.last()) {
            prev
        } else {
            prev.push(names.last())
        }
    }
}

/// Row `j` is the last row of `t` with its id.
pub open spec fn is_last_with_id(t: Seq<Player>, j: int) -> bool {
    forall|k: int| #![trigger t[k]] j < k < t.len() ==> t[k].id != t[j].id
}

/// `m` maps every id of table `t` to the position, counted from one, of
/// the row's name among `players`; where an id repeats, its last row counts.
pub open spec fn maps_table(t: Seq<Player>, m: Map<usize, usize>, players: Seq<Player>) -> bool {
    &&& forall|id: usize| m.contains_key(id) <==> exists|j: int| #![trigger t[j]] 0 <= j < t.len() && t[j].id == id
    &&& forall|j: int| #![trigger t[j]] 0 <= j < t.len() && is_last_with_id(t, j) ==> {
        &&& 1 <= m[t[j].id] <= players.len()
        &&& players[m[t[j].id] - 1].player_name@ == t[j].player_name@
    }
}

/// `players` are the names of `names`, in order, with ids counting from one.
pub open spec fn numbers_names(players: Seq<Player>, names: Seq<Seq<char>>) -> bool {
    &&& players.len() == names.len()
    &&& forall|i: int| #![trigger players[i]] 0 <= i < players.len() ==> players[i].id == i + 1
        && players[i].player_name@ == names[i]
}

proof fn lemma_maps_table_grow(t: Seq<Player>, m: Map<usize, usize>, players: Seq<Player>, more: Seq<Player>)
    requires
        maps_table(t, m, players),
        players.len() <= more.len(),
        forall|i: int| 0 <= i < players.len() ==> #[trigger] more[i] == players[i],
    ensures
        maps_table(t, m, more),
{
    assert forall|j: int| #![trigger t[j]] 0 <= j < t.len() && is_last_with_id(t, j) implies {
        &&& 1 <= m[t[j].id] <= more.len()
        &&& more[m[t[j].id] - 1].player_name@ == t[j].player_name@
    } by {
        assert(more[m[t[j].id] - 1] == players[m[t[j].id] - 1]);
    }
}

proof fn lemma_canonical_no_duplicates(names: Seq<Seq<char>>)
    ensures
        canonical_names(names).no_duplicates(),
        canonical_names(names).len() <= names.len(),
        forall|n: Seq<char>| canonical_names(names).contains(n) <==> names.contains(n),
    decreases names.len(),
{
    if names.len() > 0 {
        lemma_canonical_no_duplicates(names.drop_last());
        assert forall|n: Seq<char>| names.contains(n) <==> (names.drop_last().contains(n) || n == names.last()) by {
            assert(names =~= names.drop_last().push(names.last()));
        }
    }
}

proof fn lemma_row_names_step(tables: Seq<Vec<Player>>, k: int)
    requires
        0 <= k < tables.len(),
    ensures
        row_names(tables.take(k + 1)) == row_names(tables.take(k)) + tables[k]@.map_values(
            |p: Player| p.player_name@,
        ),
{
    assert(tables.take(k + 1).drop_last() =~= tables.take(k));
    assert(tables.take(k + 1).last() == tables[k]);
}

proof fn lemma_row_names_prefix(tables: Seq<Vec<Player>>, k: int)
    requires
        0 <= k <= tables.len(),
    ensures
        row_names(tables.take(k)).len() <= row_names(tables).len(),
    decreases tables.len(),
{
    if k == tables.len() {
        assert(tables.take(k) =~= tables);
    } else {
        lemma_row_names_prefix(tables.drop_last(), k);
        assert(tables.drop_last().take(k) =~= tables.take(k));
    }
}

proof fn lemma_map_row(t: Seq<Player>, j: int, m: Map<usize, usize>, players: Seq<Player>, canonical: usize)
    requires
        0 <= j < t.len(),
        maps_table(t.take(j), m, players),
        1 <= canonical <= players.len(),
        players[canonical - 1].player_name@ == t[j].player_name@,
    ensures
        maps_table(t.take(j + 1), m.insert(t[j].id, canonical), players),
{
    let t0 = t.take(j);
    let t1 = t.take(j + 1);
    let m1 = m.insert(t[j].id, canonical);
    assert(t1[j] == t[j]);
    assert forall|id: usize| m1.contains_key(id) <==> exists|i: int| #![trigger t1[i]] 0 <= i < t1.len() && t1[i].id == id by {
        if m.contains_key(id) {
            let i = choose|i: int| #![trigger t0[i]] 0 <= i < t0.len() && t0[i].id == id;
            assert(t1[i] == t0[i]);
        }
        if exists|i: int| #![trigger t1[i]] 0 <= i < t1.len() && t1[i].id == id {
            let i = choose|i: int| #![trigger t1[i]] 0 <= i < t1.len() && t1[i].id == id;
            if i < j {
                assert(t1[i] == t0[i]);
            }
        }
    }
    assert forall|i: int| #![trigger t1[i]] 0 <= i < t1.len() && is_last_with_id(t1, i) implies {
        &&& 1 <= m1[t1[i].id] <= players.len()
        &&& players[m1[t1[i].id] - 1].player_name@ == t1[i].player_name@
    } by {
        if i < j {
            assert(t1[i] == t0[i]);
            assert(is_last_with_id(t0, i)) by {
                assert forall|k: int| #![trigger t0[k]] i < k < t0.len() implies t0[k].id != t0[i].id by {
                    assert(t1[k] == t0[k]);
                }
            }
        }
    }
}

/// Finds the position of `name` among `players`.
fn find_name(players: &Vec<Player>, name: &String) -> (r: Option<usize>)
    ensures
        match r {
            Some(i) => i < players.len() && players@[i as int].player_name@ == name@,
            None => forall|i: int| 0 <= i < players.len() ==> #[trigger] players@[i].player_name@ != name@,
        },
{
    let mut i: usize = 0;
    while i < players.len()
        invariant
            i <= players.len(),
            forall|k: int| 0 <= k < i ==> #[trigger] players@[k].player_name@ != name@,
        decreases players.len() - i,
    {
        if players[i].player_name == *name {
            return Some(i);
        }
        i += 1;
    }
    None
}

/// Merges player tables whose ids are not comparable across tables into one
/// canonical list, keyed by name. Rows are read table after table; the first
/// row with a name gives it the next id (from one), later rows with the same
/// name reuse it. Also returns, for each table, the map from its ids to the
/// canonical ones.
pub fn merge_players(tables: Vec<Vec<Player>>) -> (r: (Vec<Player>, Vec<HashMap<usize, usize>>))
    requires
        row_names(tables@).len() < usize::MAX,
    ensures
        numbers_names(r.0@, canonical_names(row_names(tables@))),
        r.1.len() == tables.len(),
        forall|k: int| #![trigger r.1@[k]] 0 <= k < tables.len() ==> maps_table(tables@[k]@, r.1@[k]@, r.0@),
{
    let mut new_players: Vec<Player> = Vec::new();
    let mut maps: Vec<HashMap<usize, usize>> = Vec::new();
    let ghost mut seen: Seq<Seq<char>> = Seq::empty();
    let mut k: usize = 0;
    while k < tables.len()
        invariant
            k <= tables.len(),
            maps.len() == k,
            seen == row_names(tables@.take(k as int)),
            numbers_names(new_players@, canonical_names(seen)),
            forall|t: int| #![trigger maps@[t]] 0 <= t < k ==> maps_table(tables@[t]@, maps@[t]@, new_players@),
            row_names(tables@).len() < usize::MAX,
        decreases tables.len() - k,
    {
        let table = &tables[k];
        proof {
            lemma_row_names_step(tables@, k as int);
            lemma_row_names_prefix(tables@, k + 1);
        }
        let mut current: HashMap<usize, usize> = HashMap::new();
        let ghost seen_before = seen;
        let ghost players_before = new_players@;
        let mut j: usize = 0;
        while j < table.len()
            invariant
                k < tables.len(),
                table == tables@[k as int],
                j <= table.len(),
                seen == seen_before + table@.take(j as int).map_values(|p: Player| p.player_name@),
                numbers_names(new_players@, canonical_names(seen)),
                players_before.len() <= new_players.len(),
                forall|i: int| 0 <= i < players_before.len() ==> #[trigger] new_players@[i] == players_before[i],
                maps_table(table@.take(j as int), current@, new_players@),
                seen_before.len() + table.len() < usize::MAX,
            decreases table.len() - j,
        {
            let row = &table[j];
            let ghost prev_players = new_players@;
            let ghost prev_seen = seen;
            proof {
                seen = seen.push(row.player_name@);
                assert(table@.take(j + 1).map_values(|p: Player| p.player_name@) =~= table@.take(
                    j as int,
                ).map_values(|p: Player| p.player_name@).push(row.player_name@));
                assert(seen.drop_last() =~= prev_seen);
                lemma_canonical_no_duplicates(prev_seen);
            }
            let canonical = match find_name(&new_players, &row.player_name) {
                Some(i) => {
                    proof {
                        assert(canonical_names(prev_seen)[i as int] == row.player_name@);
                        assert(canonical_names(seen) == canonical_names(prev_seen));
                    }
                    i + 1
                },
                None => {
                    proof {
                        assert(!canonical_names(prev_seen).contains(row.player_name@)) by {
                            if canonical_names(prev_seen).contains(row.player_name@) {
                                let i = choose|i: int| 0 <= i < canonical_names(prev_seen).len()
                                    && canonical_names(prev_seen)[i] == row.player_name@;
                                assert(new_players@[i].player_name@ != row.player_name@);
                            }
                        }
                        assert(canonical_names(seen) == canonical_names(prev_seen).push(row.player_name@));
                    }
                    let id = new_players.len() + 1;
                    new_players.push(Player { id, player_name: row.player_name.clone() });
                    id
                },
            };
            let ghost prev_map = current@;
            current.insert(row.id, canonical);
            proof {
                assert(new_players@[canonical - 1].player_name@ == row.player_name@);
                lemma_maps_table_grow(table@.take(j as int), prev_map, prev_players, new_players@);
                lemma_map_row(table@, j as int, prev_map, new_players@, canonical);
            }
            j += 1;
        }
        proof {
            assert(table@.take(table.len() as int) =~= table@);
            assert forall|t: int| #![trigger maps@[t]] 0 <= t < k implies maps_table(tables@[t]@, maps@[t]@, new_players@) by {
                lemma_maps_table_grow(tables@[t]@, maps@[t]@, players_before, new_players@);
            }
        }
        maps.push(current);
        k += 1;
    }
    proof {
        assert(tables@.take(tables.len() as int) =~= tables@);
    }
    (new_players, maps)
}

} // verus!
