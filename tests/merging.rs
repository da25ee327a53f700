use std::collections::HashMap;

use coplay_graph::identity::merge_players;
use coplay_graph::sessions::{dedup_reports, distinct_ids, merge_reports, remap_report, remap_reports};
use coplay_graph::{Player, Report};

fn player(id: usize, name: &str) -> Player {
    Player { id, player_name: name.to_string() }
}

fn report(code: &str, start: u64, end: u64, players: Vec<usize>) -> Report {
    Report { start_time: start, end_time: end, players, code: code.to_string() }
}

fn sorted(mut v: Vec<usize>) -> Vec<usize> {
    v.sort();
    v
}

fn summary(rs: &[Report]) -> Vec<(String, u64, u64, Vec<usize>)> {
    let mut out: Vec<_> = rs
        .iter()
        .map(|r| (r.code.clone(), r.start_time, r.end_time, sorted(r.players.clone())))
        .collect();
    out.sort();
    out
}

#[test]
fn identity_tables_merge_by_name() {
    let tables = vec![
        vec![player(1, "Ann"), player(2, "Bob")],
        vec![player(1, "Bob"), player(2, "Cara")],
    ];
    let (players, maps) = merge_players(tables);
    let got: Vec<(usize, String)> = players.iter().map(|p| (p.id, p.player_name.clone())).collect();
    assert_eq!(
        got,
        vec![(1, "Ann".to_string()), (2, "Bob".to_string()), (3, "Cara".to_string())]
    );
    assert_eq!(maps.len(), 2);
    assert_eq!(maps[0], HashMap::from([(1, 1), (2, 2)]));
    assert_eq!(maps[1], HashMap::from([(1, 2), (2, 3)]));
}

#[test]
fn identity_merge_of_nothing_is_empty() {
    let (players, maps) = merge_players(Vec::new());
    assert!(players.is_empty());
    assert!(maps.is_empty());
}

#[test]
fn identity_repeated_name_within_a_table_reuses_its_id() {
    let (players, maps) = merge_players(vec![vec![player(7, "Ann"), player(9, "Ann"), player(4, "")]]);
    assert_eq!(players.len(), 2);
    assert_eq!(players[1].player_name, "");
    assert_eq!(maps[0], HashMap::from([(7, 1), (9, 1), (4, 2)]));
}

#[test]
fn identity_repeated_id_keeps_its_last_row() {
    let (players, maps) = merge_players(vec![vec![player(1, "Ann"), player(1, "Bob")]]);
    assert_eq!(players.len(), 2);
    assert_eq!(maps[0], HashMap::from([(1, 2)]));
}

#[test]
fn records_with_one_code_merge_into_one() {
    let merged = dedup_reports(vec![
        report("X", 100, 200, vec![1, 2]),
        report("X", 150, 300, vec![2, 3]),
    ]);
    assert_eq!(merged.len(), 1);
    assert_eq!(merged[0].code, "X");
    assert_eq!(merged[0].start_time, 100);
    assert_eq!(merged[0].end_time, 300);
    assert_eq!(sorted(merged[0].players.clone()), vec![1, 2, 3]);
}

#[test]
fn merging_twice_changes_nothing() {
    let raw = vec![
        report("A", 5, 9, vec![1, 1, 2]),
        report("B", 1, 2, vec![3]),
        report("A", 2, 7, vec![4]),
        report("C", 8, 3, vec![]),
    ];
    let once = dedup_reports(raw);
    let twice = dedup_reports(once.clone());
    assert_eq!(summary(&once), summary(&twice));
    assert_eq!(once.len(), 3);
}

#[test]
fn merging_in_either_order_agrees() {
    let a = vec![report("X", 100, 200, vec![1, 2]), report("Y", 10, 20, vec![5])];
    let b = vec![report("X", 150, 300, vec![2, 3]), report("Z", 1, 1, vec![])];
    let mut ab = a.clone();
    ab.extend(b.clone());
    let mut ba = b;
    ba.extend(a);
    assert_eq!(summary(&dedup_reports(ab)), summary(&dedup_reports(ba)));
}

#[test]
fn dedup_of_nothing_is_empty() {
    assert!(dedup_reports(Vec::new()).is_empty());
}

#[test]
fn remapping_drops_unknown_ids_and_repeats() {
    let map = HashMap::from([(10, 1), (11, 1), (12, 2)]);
    let r = remap_report(report("Q", 3, 4, vec![10, 99, 11, 12, 12]), &map);
    assert_eq!(r.code, "Q");
    assert_eq!((r.start_time, r.end_time), (3, 4));
    assert_eq!(r.players, vec![1, 2]);
}

#[test]
fn merge_reports_remaps_then_merges() {
    let map = HashMap::from([(1, 10), (2, 20), (3, 30)]);
    let merged = merge_reports(
        vec![
            report("X", 100, 200, vec![1, 2]),
            report("X", 150, 300, vec![2, 3, 4]),
            report("Y", 7, 8, vec![4]),
        ],
        &map,
    );
    assert_eq!(
        summary(&merged),
        vec![
            ("X".to_string(), 100, 300, vec![10, 20, 30]),
            ("Y".to_string(), 7, 8, vec![]),
        ]
    );
}

#[test]
fn remap_reports_keeps_order() {
    let map = HashMap::from([(1, 5)]);
    let out = remap_reports(vec![report("B", 1, 2, vec![1]), report("A", 3, 4, vec![2])], &map);
    assert_eq!(out.len(), 2);
    assert_eq!(out[0].code, "B");
    assert_eq!(out[0].players, vec![5]);
    assert_eq!(out[1].code, "A");
    assert!(out[1].players.is_empty());
}

#[test]
fn distinct_ids_keeps_first_occurrences() {
    assert_eq!(distinct_ids(&vec![3, 1, 3, 2, 1]), vec![3, 1, 2]);
}
