use std::collections::HashMap;
use vstd::prelude::*;

use crate::edges::EdgeKey;
use crate::identity::{is_last_with_id, Player};

verus! {

broadcast use {vstd::std_specs::hash::group_hash_axioms, vstd::seq_lib::group_seq_properties};

/// A vertex of the exported graph: a player id and its display name.
#[derive(Clone, Debug)]
pub struct GraphNode {
    pub id: usize,
    pub label: String,
}

/// An edge of the exported graph, numbered from zero, with its accumulated weight.
#[derive(Clone, Copy, Debug, PartialEq, Eq, Structural)]
pub struct GraphEdge {
    pub id: usize,
    pub source: usize,
    pub target: usize,
    pub weight: u64,
}

/// The vertices and edges of an undirected, static graph ready to be written out.
#[derive(Clone, Debug)]
pub struct GraphDocument {
    pub nodes: Vec<GraphNode>,
    pub edges: Vec<GraphEdge>,
}

/// Some row of `players` has id `id`.
pub open spec fn has_row(players: Seq<Player>, id: usize) -> bool {
    exists|j: int| #![trigger players[j]] 0 <= j < players.len() && players[j].id == id
}

/// The vertices of `vertices` that have a row in `players`, in order.
pub open spec fn named_vertices(vertices: Seq<usize>, players: Seq<Player>) -> Seq<usize>
    decreases vertices.len(),
{
    if vertices.len() == 0 {
        Seq::empty()
    } else {
        let prev = named_vertices(vertices.drop_last(), players);
        if has_row(players, vertices.last()) {
            prev.push(vertices.last())
        } else {
            prev
        }
    }
}

/// `label` is the name on the last row of `players` with id `id`.
pub open spec fn is_label_of(players: Seq<Player>, id: usize, label: Seq<char>) -> bool {
    exists|j: int|
        #![trigger players[j]]
        0 <= j < players.len() && players[j].id == id && is_last_with_id(players, j) && players[j].player_name@ == label
}

/// The `i`-th exported edge is the `i`-th pair of `es`, numbered `i`.
pub open spec fn numbers_edge(e: (EdgeKey, u64), i: int, g: GraphEdge) -> bool {
    g.id == i && g.source == e.0.0 && g.target == e.0.1 && g.weight == e.1
}

/// For each id, the position of its last row in `players`.
fn last_rows(players: &Vec<Player>) -> (m: HashMap<usize, usize>)
    ensures
        forall|id: usize| #[trigger] m@.contains_key(id) <==> has_row(players@, id),
        forall|id: usize| #[trigger] m@.contains_key(id) ==> {
            &&& m@[id] < players.len()
            &&& players@[m@[id] as int].id == id
            &&& is_last_with_id(players@, m@[id] as int)
        },
{
    let mut m: HashMap<usize, usize> = HashMap::new();
    let mut j: usize = 0;
    while j < players.len()
        invariant
            j <= players.len(),
            forall|id: usize| #[trigger] m@.contains_key(id) <==> has_row(players@.take(j as int), id),
            forall|id: usize| #[trigger] m@.contains_key(id) ==> {
                &&& m@[id] < j
                &&& players@[m@[id] as int].id == id
                &&& is_last_with_id(players@.take(j as int), m@[id] as int)
            },
        decreases players.len() - j,
    {
        let ghost t0 = players@.take(j as int);
        let ghost t1 = players@.take(j + 1);
        let ghost before = m@;
        m.insert(players[j].id, j);
        proof {
            assert(t1[j as int] == players@[j as int]);
            assert forall|id: usize| #[trigger] m@.contains_key(id) <==> has_row(t1, id) by {
                if has_row(t0, id) {
                    let i = choose|i: int| #![trigger t0[i]] 0 <= i < t0.len() && t0[i].id == id;
                    assert(t1[i] == t0[i]);
                }
                if has_row(t1, id) {
                    let i = choose|i: int| #![trigger t1[i]] 0 <= i < t1.len() && t1[i].id == id;
                    if i < j {
                        assert(t1[i] == t0[i]);
                    }
                }
            }
            assert forall|id: usize| #[trigger] m@.contains_key(id) implies is_last_with_id(t1, m@[id] as int) by {
                if id != players@[j as int].id {
                    assert(before.contains_key(id));
                    assert forall|k: int| #![trigger t1[k]] m@[id] < k < t1.len() implies t1[k].id != t1[m@[id] as int].id by {
                        if k < j {
                            assert(t1[k] == t0[k]);
                        }
                        assert(t0[before[id] as int] == t1[before[id] as int]);
                    }
                }
            }
        }
        j += 1;
    }
    proof {
        assert(players@.take(players.len() as int) =~= players@);
    }
    m
}

/// Lays out the graph: one node for each vertex that has a row in
/// `players`, labelled with the name on its last row (a vertex without one
/// is left out, though edges may still name it), and one edge for each
/// pair of `edges`, numbered in order.
pub fn export_graph(vertices: &Vec<usize>, players: &Vec<Player>, edges: &Vec<(EdgeKey, u64)>) -> (doc: GraphDocument)
    ensures
        doc.nodes.len() == named_vertices(vertices@, players@).len(),
        forall|i: int| #![trigger doc.nodes@[i]] 0 <= i < doc.nodes.len() ==> {
            &&& doc.nodes@[i].id == named_vertices(vertices@, players@)[i]
            &&& is_label_of(players@, doc.nodes@[i].id, doc.nodes@[i].label@)
        },
        doc.edges.len() == edges.len(),
        forall|i: int| #![trigger doc.edges@[i]] 0 <= i < edges.len() ==> numbers_edge(edges@[i], i, doc.edges@[i]),
{
    let rows = last_rows(players);
    let mut nodes: Vec<GraphNode> = Vec::new();
    let mut i: usize = 0;
    while i < vertices.len()
        invariant
            i <= vertices.len(),
            forall|id: usize| #[trigger] rows@.contains_key(id) <==> has_row(players@, id),
            forall|id: usize| #[trigger] rows@.contains_key(id) ==> {
                &&& rows@[id] < players.len()
                &&& players@[rows@[id] as int].id == id
                &&& is_last_with_id(players@, rows@[id] as int)
            },
            nodes.len() == named_vertices(vertices@.take(i as int), players@).len(),
            forall|t: int| #![trigger nodes@[t]] 0 <= t < nodes.len() ==> {
                &&& nodes@[t].id == named_vertices(vertices@.take(i as int), players@)[t]
                &&& is_label_of(players@, nodes@[t].id, nodes@[t].label@)
            },
        decreases vertices.len() - i,
    {
        let v = vertices[i];
        proof {
            assert(vertices@.take(i + 1).drop_last() =~= vertices@.take(i as int));
        }
        let ghost before = nodes@;
        match rows.get(&v) {
            Some(j) => {
                let j = *j;
                let label = players[j].player_name.clone();
                nodes.push(GraphNode { id: v, label });
                proof {
                    assert(players@[j as int].id == v);
                    assert(is_label_of(players@, v, label@));
                    assert forall|t: int| #![trigger nodes@[t]] 0 <= t < nodes.len() implies {
                        &&& nodes@[t].id == named_vertices(vertices@.take(i + 1), players@)[t]
                        &&& is_label_of(players@, nodes@[t].id, nodes@[t].label@)
                    } by {
                        if t < before.len() {
                            assert(nodes@[t] == before[t]);
                        }
                    }
                }
            },
            None => {},
        }
        i += 1;
    }
    proof {
        assert(vertices@.take(vertices.len() as int) =~= vertices@);
    }
    let mut out: Vec<GraphEdge> = Vec::new();
    let mut t: usize = 0;
    while t < edges.len()
        invariant
            t <= edges.len(),
            out.len() == t,
            forall|s: int| #![trigger out@[s]] 0 <= s < t ==> numbers_edge(edges@[s], s, out@[s]),
        decreases edges.len() - t,
    {
        let e = edges[t];
        out.push(GraphEdge { id: t, source: e.0.0, target: e.0.1, weight: e.1 });
        t += 1;
    }
    GraphDocument { nodes, edges: out }
}

} // verus!
