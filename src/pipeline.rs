use vstd::prelude::*;

use crate::cooccurrence::{aggregate_weights, co_occurs, frequent_players, is_frequent, pair_weight};
use crate::edges::{has_key, keys_distinct, EdgeKey};
use crate::export::{export_graph, is_label_of, named_vertices, numbers_edge, GraphDocument};
use crate::identity::Player;
use crate::sessions::Report;
use crate::sparsify::{kept_edges, sparsify};

verus! {

/// Sessions with this many distinct players or more are mass events.
pub const MAX_SESSION_PLAYERS: usize = 30;

/// The fewest valid sessions a player needs to become a vertex.
pub const MIN_APPEARANCES: usize = 200;

/// The most that one session adds to a pair's weight: two hours, in milliseconds.
pub const MAX_SESSION_DURATION: u64 = 7_200_000;

/// The least weight an edge needs to be kept: one day, in milliseconds.
pub const MIN_EDGE_WEIGHT: u64 = 86_400_000;

/// How many of its heaviest edges each vertex keeps.
pub const TOP_K: usize = 30;

/// The thresholds of the graph construction.
#[derive(Clone, Copy, Debug, PartialEq, Eq, Structural)]
pub struct GraphConfig {
    pub max_players: usize,
    pub min_appearances: usize,
    pub max_duration: u64,
    pub min_weight: u64,
    pub top_k: usize,
}

impl GraphConfig {
    /// The thresholds used for the published graph.
    pub fn standard() -> (c: GraphConfig)
        ensures
            c.max_players == MAX_SESSION_PLAYERS,
            c.min_appearances == MIN_APPEARANCES,
            c.max_duration == MAX_SESSION_DURATION,
            c.min_weight == MIN_EDGE_WEIGHT,
            c.top_k == TOP_K,
    {
        GraphConfig {
            max_players: MAX_SESSION_PLAYERS,
            min_appearances: MIN_APPEARANCES,
            max_duration: MAX_SESSION_DURATION,
            min_weight: MIN_EDGE_WEIGHT,
            top_k: TOP_K,
        }
    }
}

/// `doc` is the graph of `records` and `players` under `c`, where `vs`
/// lists the vertices and `es` the accumulated weights in the order they
/// were laid out.
pub open spec fn is_graph_of(
    doc: GraphDocument,
    records: Seq<Report>,
    players: Seq<Player>,
    c: GraphConfig,
    vs: Seq<usize>,
    es: Seq<(EdgeKey, u64)>,
) -> bool {
    &&& vs.no_duplicates()
    &&& forall|p: usize| vs.contains(p) <==> is_frequent(records, c.max_players, c.min_appearances, p)
    &&& keys_distinct(es)
    &&& forall|k: EdgeKey| has_key(es, k) <==> (k.is_canonical() && co_occurs(records, vs.to_set(), c.max_players, k))
    &&& forall|i: int| #![trigger es[i]] 0 <= i < es.len() ==> es[i].1 == pair_weight(
        records,
        vs.to_set(),
        c.max_players,
        c.max_duration,
        es[i].0,
    )
    &&& doc.nodes.len() == named_vertices(vs, players).len()
    &&& forall|i: int| #![trigger doc.nodes@[i]] 0 <= i < doc.nodes.len() ==> {
        &&& doc.nodes@[i].id == named_vertices(vs, players)[i]
        &&& is_label_of(players, doc.nodes@[i].id, doc.nodes@[i].label@)
    }
    &&& doc.edges.len() == kept_edges(es, c.min_weight, c.top_k).len()
    &&& forall|i: int| #![trigger doc.edges@[i]] 0 <= i < doc.edges.len() ==> numbers_edge(
        kept_edges(es, c.min_weight, c.top_k)[i],
        i,
        doc.edges@[i],
    )
}

/// Builds the co-play graph: frequent players become vertices, pairs of
/// them are weighted by the capped time they spent together in valid
/// sessions, each vertex keeps its heaviest edges, and the result is laid
/// out with the players' names.
pub fn build_graph(records: &Vec<Report>, players: &Vec<Player>, config: &GraphConfig) -> (doc: GraphDocument)
    requires
        records.len() * config.max_duration <= u64::MAX,
    ensures
        exists|vs: Seq<usize>, es: Seq<(EdgeKey, u64)>| is_graph_of(doc, records@, players@, *config, vs, es),
{
    let vertices = frequent_players(records, config.max_players, config.min_appearances);
    let weights = aggregate_weights(records, &vertices, config.max_players, config.max_duration);
    let ghost w = weights@;
    let entries = weights.into_entries();
    proof {
        assert forall|i: int| 0 <= i < entries.len() implies (#[trigger] entries@[i]).0.is_canonical() by {
            assert(has_key(entries@, entries@[i].0));
            assert(w.contains_key(entries@[i].0));
        }
    }
    let kept = sparsify(&entries, config.min_weight, config.top_k);
    let doc = export_graph(&vertices, players, &kept);
    proof {
        assert forall|k: EdgeKey| has_key(entries@, k) <==> (k.is_canonical() && co_occurs(
            records@,
            vertices@.to_set(),
            config.max_players,
            k,
        )) by {
            assert(w.contains_key(k) <==> has_key(entries@, k));
        }
        assert forall|i: int| #![trigger entries@[i]] 0 <= i < entries.len() implies entries@[i].1 == pair_weight(
            records@,
            vertices@.to_set(),
            config.max_players,
            config.max_duration,
            entries@[i].0,
        ) by {
            assert(w[entries@[i].0] == entries@[i].1);
            assert(has_key(entries@, entries@[i].0));
        }
        assert(is_graph_of(doc, records@, players@, *config, vertices@, entries@));
    }
    doc
}

} // verus!
