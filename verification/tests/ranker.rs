use jjs::ranker::{
    build_monitor, Cell, Config, Monitor, PartyId, PenaltyAggregation, ProblemConfig, ProblemId,
    ProblemScoreAggregationTarget, ProblemStats, Run, RunScoreAggregation, RunScoreAggregationTarget, SubtaskId,
};

const SIMPLE_CONFIG: Config = Config {
    penalty_aggregation: PenaltyAggregation::Sum,
    score_problems: ProblemScoreAggregationTarget::All,
};

const EMPTY_CELL: Cell = Cell { empty: true, ok: false, score: 0, marked: false, attempts: 0 };

fn simple_problem_config(name: &str) -> ProblemConfig {
    ProblemConfig {
        name: name.to_string(),
        accepted_score: 100,
        score_runs: RunScoreAggregationTarget::All,
        aggregation: RunScoreAggregation::Max,
    }
}

fn run(party: u32, problem: u32, subtasks: &[(u32, i32)]) -> Run {
    Run {
        subtasks: subtasks.iter().map(|&(id, s)| (SubtaskId(id), s)).collect(),
        party: PartyId(party),
        problem: ProblemId(problem),
    }
}

fn cell_of(mon: &Monitor, party: u32, problem: u32) -> Cell {
    let row = &mon.parties.iter().find(|(p, _)| *p == PartyId(party)).unwrap().1;
    row.problems.iter().find(|(q, _)| *q == ProblemId(problem)).unwrap().1
}

fn stats_of(mon: &Monitor, problem: u32) -> ProblemStats {
    mon.stats.problems.iter().find(|(q, _)| *q == ProblemId(problem)).unwrap().1
}

fn party_stats(mon: &Monitor, party: u32) -> (u32, i32) {
    let row = &mon.parties.iter().find(|(p, _)| *p == PartyId(party)).unwrap().1;
    (row.stats.color, row.stats.score)
}

fn three_parties_runs() -> Vec<Run> {
    vec![
        // user1 solved easy
        run(1, 1, &[(1, 50), (2, 50)]),
        // user2 also got good score on easy
        run(2, 1, &[(1, 50), (2, 35)]),
        // user2 attempted hard, but unsuccessfully
        run(2, 2, &[(1, 0)]),
        // well, easy is easy
        run(3, 1, &[(1, 50), (2, 50)]),
        // hard is hard even for the strongest
        run(3, 2, &[(1, 40), (2, 25)]),
        run(3, 2, &[(1, 40), (2, 40), (3, 11)]),
    ]
}

#[test]
fn test_simple() {
    let problems = vec![
        (ProblemId(1), simple_problem_config("easy")),
        (ProblemId(2), simple_problem_config("hard")),
    ];
    let parties = vec![PartyId(1), PartyId(2), PartyId(3)];
    let mon = build_monitor(&three_parties_runs(), &problems, &parties, &SIMPLE_CONFIG);
    assert_eq!(mon.parties.len(), 3);
    assert_eq!(
        cell_of(&mon, 1, 1),
        Cell { empty: false, ok: true, score: 100, marked: false, attempts: 1 }
    );
    assert_eq!(cell_of(&mon, 1, 2), EMPTY_CELL);
    assert_eq!(
        cell_of(&mon, 2, 1),
        Cell { empty: false, ok: false, score: 85, marked: false, attempts: 1 }
    );
    assert_eq!(
        cell_of(&mon, 2, 2),
        Cell { empty: false, ok: false, score: 0, marked: false, attempts: 1 }
    );
    assert_eq!(
        cell_of(&mon, 3, 1),
        Cell { empty: false, ok: true, score: 100, marked: false, attempts: 1 }
    );
    assert_eq!(
        cell_of(&mon, 3, 2),
        Cell { empty: false, ok: false, score: 91, marked: false, attempts: 2 }
    );
    assert_eq!(stats_of(&mon, 1), ProblemStats { total_runs: 3, accepted_runs: 2, max_score: 100 });
    assert_eq!(stats_of(&mon, 2), ProblemStats { total_runs: 3, accepted_runs: 0, max_score: 91 });
    // scores 100, 85, 191: coloring keys 1, 0, 1
    assert_eq!(party_stats(&mon, 1), (0, 100));
    assert_eq!(party_stats(&mon, 2), (1, 85));
    assert_eq!(party_stats(&mon, 3), (0, 191));
}

#[test]
fn runs_after_full_solution_are_not_attempts() {
    let problems = vec![(ProblemId(1), simple_problem_config("easy"))];
    let parties = vec![PartyId(7)];
    let runs = vec![run(7, 1, &[(1, 30)]), run(7, 1, &[(1, 100)]), run(7, 1, &[(1, 10)]), run(7, 1, &[(1, 100)])];
    let mon = build_monitor(&runs, &problems, &parties, &SIMPLE_CONFIG);
    assert_eq!(cell_of(&mon, 7, 1), Cell { empty: false, ok: true, score: 100, marked: false, attempts: 2 });
    assert_eq!(stats_of(&mon, 1), ProblemStats { total_runs: 4, accepted_runs: 2, max_score: 100 });
}

#[test]
fn merge_subtasks_takes_best_of_each_subtask() {
    let problems = vec![(
        ProblemId(1),
        ProblemConfig {
            name: "merge".to_string(),
            accepted_score: 100,
            score_runs: RunScoreAggregationTarget::All,
            aggregation: RunScoreAggregation::MergeSubtasks,
        },
    )];
    let parties = vec![PartyId(1)];
    let runs = vec![run(1, 1, &[(1, 50), (2, 10)]), run(1, 1, &[(1, 20), (2, 40)]), run(1, 1, &[(3, -5)])];
    let mon = build_monitor(&runs, &problems, &parties, &SIMPLE_CONFIG);
    // best of subtask 1 is 50, of subtask 2 is 40, of subtask 3 is 0
    assert_eq!(cell_of(&mon, 1, 1), Cell { empty: false, ok: false, score: 90, marked: false, attempts: 3 });
    assert_eq!(stats_of(&mon, 1).max_score, 90);
}

#[test]
fn runs_of_unlisted_parties_are_ignored() {
    let problems = vec![(ProblemId(1), simple_problem_config("easy"))];
    let parties = vec![PartyId(1)];
    let runs = vec![run(2, 1, &[(1, 100)]), run(1, 1, &[(1, 20)])];
    let mon = build_monitor(&runs, &problems, &parties, &SIMPLE_CONFIG);
    assert_eq!(stats_of(&mon, 1), ProblemStats { total_runs: 1, accepted_runs: 0, max_score: 20 });
    assert_eq!(party_stats(&mon, 1), (0, 20));
}

#[test]
fn colors_follow_score_hundreds() {
    let problems = vec![(ProblemId(1), simple_problem_config("a")), (ProblemId(2), simple_problem_config("b"))];
    let parties = vec![PartyId(1), PartyId(2), PartyId(3), PartyId(4)];
    let runs = vec![
        run(1, 1, &[(1, 100)]),
        run(1, 2, &[(1, 100)]),
        run(2, 1, &[(1, 99)]),
        run(3, 1, &[(1, 100)]),
        run(3, 2, &[(1, 50)]),
    ];
    let mon = build_monitor(&runs, &problems, &parties, &SIMPLE_CONFIG);
    // scores 200, 99, 150, 0: keys 2, 0, 1, 0
    assert_eq!(party_stats(&mon, 1), (0, 200));
    assert_eq!(party_stats(&mon, 2), (2, 99));
    assert_eq!(party_stats(&mon, 3), (1, 150));
    assert_eq!(party_stats(&mon, 4), (2, 0));
}
