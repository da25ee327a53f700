use coplay_graph::player_table::{index_from_trimmed, load_player_table, parse_index, parse_last_index, parse_row};
use coplay_graph::registry::PlayerRegistry;
use coplay_graph::scrape::{
    after_failed_fetch, process_codes_main_function, Actor, FetchOutcome, GraphQLResponse, MasterData,
    ReportDataWrapper2, ReportForActors, ReportWrapper, RetryDecision, ScrapeSession, CHECKPOINT_INTERVAL,
};

fn lines(ls: &[&str]) -> Vec<String> {
    ls.iter().map(|l| l.to_string()).collect()
}

fn fetched(start: u64, end: u64, actors: Option<Vec<&str>>) -> FetchOutcome {
    FetchOutcome::Fetched(GraphQLResponse {
        data: ReportDataWrapper2 {
            report_data: ReportWrapper {
                report: Some(ReportForActors {
                    end_time: end,
                    start_time: start,
                    master_data: MasterData {
                        actors: actors.map(|a| a.iter().map(|n| Actor { display_name: n.to_string() }).collect()),
                    },
                }),
            },
        },
    })
}

#[test]
fn numbers_read_like_from_str() {
    assert_eq!(parse_index("42"), Some(42));
    assert_eq!(parse_index("+7"), Some(7));
    assert_eq!(parse_index("007"), Some(7));
    assert_eq!(parse_index(""), None);
    assert_eq!(parse_index("+"), None);
    assert_eq!(parse_index("-1"), None);
    assert_eq!(parse_index("4 2"), None);
    assert_eq!(parse_index("１"), None);
    assert_eq!(parse_index("18446744073709551615"), Some(usize::MAX));
    assert_eq!(parse_index("18446744073709551616"), None);
}

#[test]
fn last_index_is_trimmed_and_defaults_to_zero() {
    assert_eq!(parse_last_index("  42\n"), 42);
    assert_eq!(parse_last_index("\t17 "), 17);
    assert_eq!(parse_last_index("abc"), 0);
    assert_eq!(parse_last_index(""), 0);
    assert_eq!(index_from_trimmed(" 3"), 0);
    assert_eq!(index_from_trimmed("3"), 3);
}

#[test]
fn table_rows_split_at_the_first_comma() {
    let (name, id) = parse_row(&" 5,Ann, the Bold \n".to_string()).unwrap();
    assert_eq!(id, 5);
    assert_eq!(name, "Ann, the Bold");
    assert!(parse_row(&"no comma".to_string()).is_none());
    assert!(parse_row(&"x,Ann".to_string()).is_none());
}

#[test]
fn player_table_loads_with_header() {
    let reg = load_player_table(&lines(&["id,player_name", "3,Ann", "7,Bob", "junk", "2,Ann"]));
    let rows = reg.rows_by_id();
    assert_eq!(rows, vec![(2, "Ann".to_string()), (7, "Bob".to_string())]);
    let mut reg = reg;
    assert_eq!(reg.intern(&"Cara".to_string()), 8);
    assert_eq!(reg.intern(&"Bob".to_string()), 7);
}

#[test]
fn player_table_first_line_may_be_a_row() {
    let reg = load_player_table(&lines(&["4,Dee"]));
    assert_eq!(reg.lookup(&"Dee".to_string()), Some(4));
    let empty = load_player_table(&Vec::new());
    assert!(empty.rows_by_id().is_empty());
    let mut empty = empty;
    assert_eq!(empty.intern(&"New".to_string()), 1);
}

#[test]
fn registry_assign_replaces_and_keeps_id_order() {
    let mut reg = PlayerRegistry::new(10);
    reg.assign("b".to_string(), 5);
    reg.assign("a".to_string(), 2);
    reg.assign("b".to_string(), 1);
    assert_eq!(reg.rows_by_id(), vec![(1, "b".to_string()), (2, "a".to_string())]);
    assert_eq!(reg.lookup(&"c".to_string()), None);
}

#[test]
fn fetched_report_becomes_a_record() {
    let mut session = ScrapeSession::new(PlayerRegistry::new(1));
    let step = process_codes_main_function(
        &mut session,
        0,
        &"abc".to_string(),
        fetched(100, 900, Some(vec!["Ann", "nil", "Bob", "Ann"])),
    );
    let record = step.record.unwrap();
    assert_eq!(record.code, "abc");
    assert_eq!((record.start_time, record.end_time), (100, 900));
    assert_eq!(record.players, vec![1, 2, 1]);
    assert_eq!(step.save_index, Some(1));
    assert!(!step.dump_players);
    assert_eq!(session.since_checkpoint, 1);
    assert_eq!(session.registry.lookup(&"nil".to_string()), None);
}

#[test]
fn report_without_actors_saves_progress_only() {
    let mut session = ScrapeSession::new(PlayerRegistry::new(1));
    let step = process_codes_main_function(&mut session, 4, &"abc".to_string(), fetched(1, 2, None));
    assert!(step.record.is_none());
    assert_eq!(step.save_index, Some(5));
    let step = process_codes_main_function(&mut session, 5, &"abd".to_string(), FetchOutcome::NoData);
    assert!(step.record.is_none());
    assert_eq!(step.save_index, Some(6));
    assert_eq!(session.since_checkpoint, 2);
}

#[test]
fn failed_fetch_is_retried_on_resume() {
    let mut session = ScrapeSession::new(PlayerRegistry::new(1));
    let step = process_codes_main_function(&mut session, 3, &"abc".to_string(), FetchOutcome::Failed);
    assert!(step.record.is_none());
    assert_eq!(step.save_index, None);
    assert!(!step.dump_players);
    assert_eq!(session.since_checkpoint, 0);
}

#[test]
fn player_table_is_saved_every_interval() {
    let mut session = ScrapeSession::new(PlayerRegistry::new(1));
    let mut dumps = Vec::new();
    for i in 0..(2 * CHECKPOINT_INTERVAL) {
        let step = process_codes_main_function(&mut session, i, &format!("c{}", i), FetchOutcome::NoData);
        if step.dump_players {
            dumps.push(i);
        }
    }
    assert_eq!(dumps, vec![CHECKPOINT_INTERVAL - 1, 2 * CHECKPOINT_INTERVAL - 1]);
    assert_eq!(session.since_checkpoint, 0);
}

#[test]
fn fetch_gives_up_after_five_retries() {
    let mut failures = 0;
    let mut decisions = Vec::new();
    loop {
        let (n, d) = after_failed_fetch(failures);
        failures = n;
        decisions.push(d);
        if d == RetryDecision::GiveUp {
            break;
        }
    }
    assert_eq!(failures, 6);
    assert_eq!(decisions.iter().filter(|d| **d == RetryDecision::Retry).count(), 5);
}
