use vstd::prelude::*;

use crate::registry::PlayerRegistry;
use crate::sessions::Report;

verus! {

broadcast use vstd::seq_lib::group_seq_properties;

/// The answer of the reporting API to a query for one report.
#[derive(Debug)]
pub struct GraphQLResponse {
    pub data: ReportDataWrapper2,
}

#[derive(Debug)]
pub struct ReportDataWrapper2 {
    pub report_data: ReportWrapper,
}

#[derive(Debug)]
pub struct ReportWrapper {
    pub report: Option<ReportForActors>,
}

/// A report's time range and the players seen in it.
#[derive(Debug)]
pub struct ReportForActors {
    pub end_time: u64,
    pub start_time: u64,
    pub master_data: MasterData,
}

#[derive(Debug)]
pub struct MasterData {
    pub actors: Option<Vec<Actor>>,
}

#[derive(Debug)]
pub struct Actor {
    pub display_name: String,
}

/// What became of fetching one report code.
#[derive(Debug)]
pub enum FetchOutcome {
    Fetched(GraphQLResponse),
    NoData,
    Failed,
}

/// After this many processed codes the player table is saved.
pub const CHECKPOINT_INTERVAL: usize = 25;

/// A run over the report codes: the ids given so far, and how many codes
/// were processed since the player table was last saved.
pub struct ScrapeSession {
    pub registry: PlayerRegistry,
    pub since_checkpoint: usize,
}

/// What the runner does after one code: append a record, save the index
/// to resume from, save the player table.
#[derive(Debug)]
pub struct ScrapeStep {
    pub record: Option<Report>,
    pub save_index: Option<usize>,
    pub dump_players: bool,
}

impl ScrapeSession {
    pub open spec fn wf(&self) -> bool {
        self.registry.wf() && self.since_checkpoint < CHECKPOINT_INTERVAL
    }

    /// A session that resumes with `registry`.
    pub fn new(registry: PlayerRegistry) -> (s: ScrapeSession)
        requires
            registry.wf(),
        ensures
            s.wf(),
            s.registry == registry,
            s.since_checkpoint == 0,
    {
        ScrapeSession { registry, since_checkpoint: 0 }
    }
}

/// The actors of a fetched report, if it has a report with a list of actors.
pub open spec fn actors_of(outcome: FetchOutcome) -> Option<Seq<Actor>> {
    match outcome {
        FetchOutcome::Fetched(resp) => match resp.data.report_data.report {
            Some(r) => match r.master_data.actors {
                Some(a) => Some(a@),
                None => None,
            },
            None => None,
        },
        _ => None,
    }
}

/// The display names of `actors`, leaving out the placeholder `nil`.
pub open spec fn named_actors(actors: Seq<Actor>) -> Seq<Seq<char>>
    decreases actors.len(),
{
    if actors.len() == 0 {
        Seq::empty()
    } else {
        let prev = named_actors(actors.drop_last());
        let n = actors.last().display_name@;
        if n == "nil"@ {
            prev
        } else {
            prev.push(n)
        }
    }
}

/// The ids after giving each of `names`, in turn, the next id unless it has one.
pub open spec fn interned(m: Map<Seq<char>, usize>, next: int, names: Seq<Seq<char>>) -> (Map<Seq<char>, usize>, int)
    decreases names.len(),
{
    if names.len() == 0 {
        (m, next)
    } else {
        let (m1, n1) = interned(m, next, names.drop_last());
        let x = names.last();
        if m1.contains_key(x) {
            (m1, n1)
        } else {
            (m1.insert(x, n1 as usize), n1 + 1)
        }
    }
}

proof fn lemma_interned_grows(m: Map<Seq<char>, usize>, next: int, names: Seq<Seq<char>>)
    ensures
        interned(m, next, names).1 <= next + names.len(),
        interned(m, next, names).1 >= next,
        forall|x: Seq<char>| #[trigger] m.contains_key(x) ==> interned(m, next, names).0.contains_key(x)
            && interned(m, next, names).0[x] == m[x],
        forall|i: int| 0 <= i < names.len() ==> interned(m, next, names).0.contains_key(#[trigger] names[i]),
    decreases names.len(),
{
    if names.len() > 0 {
        let init = names.drop_last();
        lemma_interned_grows(m, next, init);
        let (m1, n1) = interned(m, next, init);
        assert forall|i: int| 0 <= i < names.len() implies interned(m, next, names).0.contains_key(#[trigger] names[i]) by {
            if i < init.len() {
                assert(init[i] == names[i]);
            }
        }
    }
}

proof fn lemma_interned_keeps(m: Map<Seq<char>, usize>, next: int, names: Seq<Seq<char>>, more: Seq<char>)
    ensures
        ({
            let (m1, n1) = interned(m, next, names);
            let (m2, n2) = interned(m, next, names.push(more));
            forall|x: Seq<char>| #[trigger] m1.contains_key(x) ==> m2.contains_key(x) && m2[x] == m1[x]
        }),
{
    assert(names.push(more).drop_last() =~= names);
}

/// The number of actors a fetched report lists.
pub open spec fn actor_count(outcome: FetchOutcome) -> nat {
    match actors_of(outcome) {
        Some(a) => a.len(),
        None => 0,
    }
}

/// Decides what follows from fetching the report `code`, the `index`-th
/// code of the run. A failed fetch changes nothing and saves nothing, so the
/// code is fetched again on resume. Otherwise the next index is saved and,
/// every [`CHECKPOINT_INTERVAL`] codes, the player table too; and when the
/// report lists its actors, each named actor (`nil` is left out) gets an id
/// from the registry, and the record of the report lists those ids in order.
pub fn process_codes_main_function(
    session: &mut ScrapeSession,
    index: usize,
    code: &String,
    outcome: FetchOutcome,
) -> (step: ScrapeStep)
    requires
        old(session).wf(),
        index < usize::MAX,
        old(session).registry.next() + actor_count(outcome) < usize::MAX,
    ensures
        final(session).wf(),
        outcome is Failed ==> step.record is None && step.save_index is None && !step.dump_players
            && *final(session) == *old(session),
        !(outcome is Failed) ==> {
            &&& step.save_index == Some((index + 1) as usize)
            &&& step.dump_players == (old(session).since_checkpoint + 1 >= CHECKPOINT_INTERVAL)
            &&& final(session).since_checkpoint == if step.dump_players {
                0
            } else {
                old(session).since_checkpoint + 1
            }
        },
        actors_of(outcome) is None ==> step.record is None && final(session).registry@ == old(session).registry@
            && final(session).registry.next() == old(session).registry.next(),
        actors_of(outcome) matches Some(actors) ==> {
            let names = named_actors(actors);
            let (m, next) = interned(old(session).registry@, old(session).registry.next() as int, names);
            &&& final(session).registry@ == m
            &&& final(session).registry.next() == next
            &&& step.record matches Some(r) && {
                &&& r.code@ == code@
                &&& outcome matches FetchOutcome::Fetched(resp) && resp.data.report_data.report matches Some(rep)
                    && r.start_time == rep.start_time && r.end_time == rep.end_time
                &&& r.players@.len() == names.len()
                &&& forall|i: int| 0 <= i < names.len() ==> #[trigger] r.players@[i] == m[names[i]]
            }
        },
{
    let ghost before = *session;
    let failed = match &outcome {
        FetchOutcome::Failed => true,
        _ => false,
    };
    if failed {
        return ScrapeStep { record: None, save_index: None, dump_players: false };
    }
    let mut record: Option<Report> = None;
    match outcome {
        FetchOutcome::Fetched(resp) => match resp.data.report_data.report {
            Some(rep) => match rep.master_data.actors {
                Some(actors) => {
                    let nil = "nil".to_owned();
                    proof {
                        reveal_strlit("nil");
                    }
                    let mut ids: Vec<usize> = Vec::new();
                    let ghost mut names: Seq<Seq<char>> = Seq::empty();
                    let mut i: usize = 0;
                    while i < actors.len()
                        invariant
                            i <= actors.len(),
                            nil@ == "nil"@,
                            names == named_actors(actors@.take(i as int)),
                            session.registry.wf(),
                            session.since_checkpoint == before.since_checkpoint,
                            before.registry.next() + actors.len() < usize::MAX,
                            (session.registry@, session.registry.next() as int) == interned(
                                before.registry@,
                                before.registry.next() as int,
                                names,
                            ),
                            names.len() <= i,
                            ids.len() == names.len(),
                            forall|k: int| 0 <= k < names.len() ==> #[trigger] ids@[k] == session.registry@[names[k]],
                        decreases actors.len() - i,
                    {
                        let actor = &actors[i];
                        proof {
                            assert(actors@.take(i + 1).drop_last() =~= actors@.take(i as int));
                            lemma_interned_grows(before.registry@, before.registry.next() as int, names);
                        }
                        if actor.display_name != nil {
                            let ghost prev_map = session.registry@;
                            let id = session.registry.intern(&actor.display_name);
                            proof {
                                let grown = names.push(actor.display_name@);
                                assert(grown.drop_last() =~= names);
                                lemma_interned_keeps(before.registry@, before.registry.next() as int, names, actor.display_name@);
                                names = grown;
                            }
                            ids.push(id);
                            proof {
                                assert forall|k: int| 0 <= k < names.len() implies #[trigger] ids@[k] == session.registry@[names[k]] by {
                                    if k < names.len() - 1 {
                                        assert(prev_map.contains_key(names[k]));
                                    }
                                }
                            }
                        }
                        i += 1;
                    }
                    proof {
                        assert(actors@.take(actors.len() as int) =~= actors@);
                    }
                    record = Some(Report {
                        start_time: rep.start_time,
                        end_time: rep.end_time,
                        players: ids,
                        code: code.clone(),
                    });
                },
                None => {},
            },
            None => {},
        },
        _ => {},
    }
    let count = session.since_checkpoint + 1;
    let dump = count >= CHECKPOINT_INTERVAL;
    session.since_checkpoint = if dump { 0 } else { count };
    ScrapeStep { record, save_index: Some(index + 1), dump_players: dump }
}

/// How many times a failing fetch is retried before the code is given up.
pub const MAX_FETCH_RETRIES: u32 = 5;

/// Whether to try a fetch again.
#[derive(Clone, Copy, Debug, PartialEq, Eq, Structural)]
pub enum RetryDecision {
    Retry,
    GiveUp,
}

/// After a failed attempt at a fetch that had failed `failures` times
/// before: the new count, and whether to wait and try again or give up.
pub fn after_failed_fetch(failures: u32) -> (r: (u32, RetryDecision))
    requires
        failures <= MAX_FETCH_RETRIES,
    ensures
        r.0 == failures + 1,
        r.1 == if failures + 1 > MAX_FETCH_RETRIES {
            RetryDecision::GiveUp
        } else {
            RetryDecision::Retry
        },
{
    let n = failures + 1;
    if n > MAX_FETCH_RETRIES {
        (n, RetryDecision::GiveUp)
    } else {
        (n, RetryDecision::Retry)
    }
}

} // verus!
