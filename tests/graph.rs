use coplay_graph::cooccurrence::{
    aggregate_weights, count_appearances, frequent_players, select_frequent, session_duration, session_is_valid,
};
use coplay_graph::export::export_graph;
use coplay_graph::pipeline::{build_graph, GraphConfig, MAX_SESSION_DURATION, MIN_EDGE_WEIGHT, TOP_K};
use coplay_graph::sparsify::{ranked_edges, sparsify};
use coplay_graph::{EdgeKey, EdgeWeights, Player, Report};

fn report(code: &str, start: u64, end: u64, players: Vec<usize>) -> Report {
    Report { start_time: start, end_time: end, players, code: code.to_string() }
}

fn sorted_entries(w: EdgeWeights) -> Vec<(EdgeKey, u64)> {
    let mut es = w.into_entries();
    es.sort_by_key(|e| (e.0 .0, e.0 .1));
    es
}

#[test]
fn edge_key_ignores_order() {
    assert_eq!(EdgeKey::new(3, 7), EdgeKey::new(7, 3));
    assert_eq!(EdgeKey::new(7, 3), EdgeKey(3, 7));
}

#[test]
fn weights_accumulate_under_either_order() {
    let mut w = EdgeWeights::new();
    w.add(4, 2, 10);
    w.add(2, 4, 5);
    assert_eq!(w.weight(2, 4), 15);
    assert_eq!(w.weight(4, 2), 15);
    assert_eq!(w.weight(1, 2), 0);
    assert_eq!(w.into_entries(), vec![(EdgeKey(2, 4), 15)]);
}

#[test]
fn duration_is_floored_and_capped() {
    assert_eq!(session_duration(&report("a", 100, 50, vec![]), 1000), 0);
    assert_eq!(session_duration(&report("a", 100, 600, vec![]), 1000), 500);
    assert_eq!(session_duration(&report("a", 0, 9_000_000, vec![]), MAX_SESSION_DURATION), 7_200_000);
}

#[test]
fn long_session_adds_only_the_cap() {
    let records = vec![report("a", 0, 50_000_000, vec![1, 2]), report("b", 0, 100, vec![1, 2])];
    let w = aggregate_weights(&records, &vec![1, 2], 30, 1000);
    assert_eq!(sorted_entries(w), vec![(EdgeKey(1, 2), 1100)]);
}

#[test]
fn session_of_thirty_one_players_counts_for_nothing() {
    let big: Vec<usize> = (1..=31).collect();
    let records = vec![report("raid", 0, 1000, big.clone()), report("duo", 0, 10, vec![1, 2])];
    assert!(!session_is_valid(&records[0], 30));
    let apps = count_appearances(&records, 30);
    assert_eq!(apps, vec![(1, 1), (2, 1)]);
    let w = aggregate_weights(&records, &big, 30, 7_200_000);
    assert_eq!(sorted_entries(w), vec![(EdgeKey(1, 2), 10)]);
}

#[test]
fn session_of_twenty_nine_players_is_valid() {
    let players: Vec<usize> = (1..=29).collect();
    let mut repeated = players.clone();
    repeated.extend(players.iter().copied());
    assert!(session_is_valid(&report("s", 0, 1, repeated), 30));
    let thirty: Vec<usize> = (1..=30).collect();
    assert!(!session_is_valid(&report("s", 0, 1, thirty), 30));
}

#[test]
fn appearances_count_once_per_session() {
    let records = vec![report("a", 0, 1, vec![5, 5, 6]), report("b", 0, 1, vec![6])];
    assert_eq!(count_appearances(&records, 30), vec![(5, 1), (6, 2)]);
    assert!(count_appearances(&Vec::new(), 30).is_empty());
}

#[test]
fn frequency_gate_at_threshold() {
    let records = vec![
        report("a", 0, 1, vec![1, 2]),
        report("b", 0, 1, vec![1, 2]),
        report("c", 0, 1, vec![1]),
    ];
    assert_eq!(frequent_players(&records, 30, 3), vec![1]);
    assert_eq!(frequent_players(&records, 30, 2), vec![1, 2]);
    assert_eq!(select_frequent(&vec![(9, 4), (8, 5), (7, 6)], 5), vec![8, 7]);
}

#[test]
fn pairs_outside_the_vertex_set_get_no_weight() {
    let records = vec![report("a", 0, 100, vec![1, 2, 3])];
    let w = aggregate_weights(&records, &vec![1, 3], 30, 1000);
    assert_eq!(sorted_entries(w), vec![(EdgeKey(1, 3), 100)]);
}

#[test]
fn zero_length_session_still_creates_the_pair() {
    let records = vec![report("a", 500, 400, vec![2, 1])];
    let w = aggregate_weights(&records, &vec![1, 2], 30, 1000);
    assert_eq!(sorted_entries(w), vec![(EdgeKey(1, 2), 0)]);
}

#[test]
fn top_one_keeps_only_the_heaviest_for_the_vertex() {
    let es = vec![(EdgeKey(1, 2), 10), (EdgeKey(1, 3), 20), (EdgeKey(1, 4), 30)];
    assert_eq!(ranked_edges(&es, 1, 1, 1), vec![(EdgeKey(1, 4), 30)]);
    // The other edges survive through their other endpoint, for which they are the best.
    assert_eq!(sparsify(&es, 1, 1), es);
}

#[test]
fn ranking_is_bounded_but_union_may_exceed_it() {
    let es = vec![
        (EdgeKey(1, 2), 50),
        (EdgeKey(1, 3), 40),
        (EdgeKey(1, 4), 30),
        (EdgeKey(4, 5), 10),
        (EdgeKey(3, 5), 5),
    ];
    let mine = ranked_edges(&es, 1, 1, 2);
    assert_eq!(mine, vec![(EdgeKey(1, 2), 50), (EdgeKey(1, 3), 40)]);
    let kept = sparsify(&es, 1, 2);
    let at_one = kept.iter().filter(|e| e.0 .0 == 1 || e.0 .1 == 1).count();
    assert_eq!(at_one, 3);
}

#[test]
fn floor_excludes_light_edges() {
    let es = vec![(EdgeKey(1, 2), 99), (EdgeKey(2, 3), 100)];
    assert_eq!(sparsify(&es, 100, 5), vec![(EdgeKey(2, 3), 100)]);
    assert!(ranked_edges(&es, 1, 100, 5).is_empty());
}

#[test]
fn equal_weights_rank_by_smaller_key() {
    let es = vec![(EdgeKey(2, 9), 10), (EdgeKey(1, 2), 10)];
    assert_eq!(ranked_edges(&es, 2, 1, 1), vec![(EdgeKey(1, 2), 10)]);
}

#[test]
fn export_numbers_edges_and_drops_unnamed_vertices() {
    let players = vec![
        Player { id: 1, player_name: "Ann".to_string() },
        Player { id: 3, player_name: "Old".to_string() },
        Player { id: 3, player_name: "Cara".to_string() },
    ];
    let doc = export_graph(&vec![3, 2, 1], &players, &vec![(EdgeKey(1, 2), 7), (EdgeKey(1, 3), 8)]);
    let nodes: Vec<(usize, String)> = doc.nodes.iter().map(|n| (n.id, n.label.clone())).collect();
    assert_eq!(nodes, vec![(3, "Cara".to_string()), (1, "Ann".to_string())]);
    assert_eq!(doc.edges.len(), 2);
    assert_eq!((doc.edges[1].id, doc.edges[1].source, doc.edges[1].target, doc.edges[1].weight), (1, 1, 3, 8));
}

#[test]
fn standard_config_holds_the_published_thresholds() {
    let c = GraphConfig::standard();
    assert_eq!(c.max_players, 30);
    assert_eq!(c.min_appearances, 200);
    assert_eq!(c.max_duration, MAX_SESSION_DURATION);
    assert_eq!(c.min_weight, MIN_EDGE_WEIGHT);
    assert_eq!(c.top_k, TOP_K);
}

#[test]
fn build_graph_end_to_end() {
    let config = GraphConfig { max_players: 30, min_appearances: 2, max_duration: 100, min_weight: 150, top_k: 1 };
    let records = vec![
        report("a", 0, 500, vec![1, 2, 3]),
        report("b", 0, 80, vec![1, 2]),
        report("c", 0, 100, vec![1, 3, 4]),
    ];
    let players = vec![
        Player { id: 1, player_name: "Ann".to_string() },
        Player { id: 2, player_name: "Bob".to_string() },
    ];
    let doc = build_graph(&records, &players, &config);
    let nodes: Vec<usize> = doc.nodes.iter().map(|n| n.id).collect();
    assert_eq!(nodes, vec![1, 2]);
    let edges: Vec<(usize, usize, u64)> = doc.edges.iter().map(|e| (e.source, e.target, e.weight)).collect();
    assert_eq!(edges, vec![(1, 2, 180), (1, 3, 200)]);
    assert_eq!(doc.edges[0].id, 0);
    assert_eq!(doc.edges[1].id, 1);
}
