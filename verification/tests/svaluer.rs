use jjs::cfg::{
    default_run_to_first_failure, Config, FeedbackKind, Group as CfgGroup, GroupRef, MSG_CIRCULAR_REF,
    MSG_INVALID_GROUP_REF,
};
use jjs::fiber::{Fiber, FiberReply};
use jjs::group::Group;
use jjs::pom::TestId;
use jjs::valuer::{make_err_status, make_ok_status, SimpleValuer, StepOutcome};
use jjs::valuer_proto::{
    JudgeLog, JudgeLogKind, JudgeLogSubtaskRow, JudgeLogTestRow, ProblemInfo, Status, StatusKind, SubtaskId,
    SubtaskVisibleComponents, TestDoneNotification, TestVisibleComponents, ValuerResponse,
};
use std::collections::VecDeque;

fn group(name: &str, feedback: FeedbackKind, score: u32, deps: Vec<GroupRef>) -> CfgGroup {
    CfgGroup {
        name: name.to_string(),
        feedback,
        tests_tag: None,
        run_to_first_failure: default_run_to_first_failure(),
        score,
        deps,
    }
}

fn by_name(name: &str) -> GroupRef {
    GroupRef::ByName(name.to_string())
}

fn info(tags: &[&str]) -> ProblemInfo {
    ProblemInfo { tests: tags.iter().map(|t| t.to_string()).collect() }
}

fn check_errs(cfg: &Config, errs: &[&str]) {
    let mut sink = Vec::new();
    cfg.validate(&mut sink);
    if sink != errs {
        panic!("expected {:?}, got {:?}", errs, sink);
    }
}

#[test]
fn test_ok() {
    let cfg = Config { groups: vec![group("grp", FeedbackKind::Full, 0, vec![])] };
    check_errs(&cfg, &[]);
}

#[test]
fn test_invalid_numeric_ref() {
    let cfg = Config {
        groups: vec![
            group("g1", FeedbackKind::Full, 15, vec![]),
            group("g2", FeedbackKind::Full, 85, vec![GroupRef::ById(2)]),
        ],
    };
    check_errs(&cfg, &[MSG_INVALID_GROUP_REF]);
}

#[test]
fn test_invalid_named_ref() {
    let cfg = Config { groups: vec![group("foo", FeedbackKind::Full, 15, vec![by_name("bar")])] };
    check_errs(&cfg, &[MSG_INVALID_GROUP_REF]);
}

#[test]
fn test_circular_ref() {
    let cfg = Config {
        groups: vec![
            group("foo", FeedbackKind::Full, 50, vec![by_name("bar")]),
            group("bar", FeedbackKind::Hidden, 50, vec![GroupRef::ById(0)]),
        ],
    };
    check_errs(&cfg, &[MSG_CIRCULAR_REF]);
}

#[test]
fn validate_reports_each_invalid_ref_before_cycles() {
    let cfg = Config {
        groups: vec![
            group("a", FeedbackKind::Full, 10, vec![by_name("b"), by_name("zzz")]),
            group("b", FeedbackKind::Full, 10, vec![GroupRef::ById(0), GroupRef::ById(7)]),
        ],
    };
    check_errs(&cfg, &[MSG_INVALID_GROUP_REF, MSG_INVALID_GROUP_REF, MSG_CIRCULAR_REF]);
}

#[test]
fn get_group_resolves_names_and_positions() {
    let cfg = Config {
        groups: vec![
            group("a", FeedbackKind::Full, 10, vec![]),
            group("b", FeedbackKind::Full, 10, vec![]),
            group("b", FeedbackKind::Full, 10, vec![]),
        ],
    };
    assert_eq!(cfg.get_group(&by_name("b")), Some(1));
    assert_eq!(cfg.get_group(&by_name("c")), None);
    assert_eq!(cfg.get_group(&GroupRef::ById(2)), Some(2));
    assert_eq!(cfg.get_group(&GroupRef::ById(3)), None);
}

#[test]
fn group_simple() {
    let st = || Status { kind: StatusKind::Accepted, code: "MOCK_OK".to_string() };
    let mut g = Group::new();
    g.add_tests(&vec![1, 2, 3]);
    g.freeze();

    assert_eq!(g.pop_test(), Some(TestId::make(1)));
    g.on_test_done(TestId::make(1), st());
    assert_eq!(g.pop_test(), Some(TestId::make(2)));
    g.on_test_done(TestId::make(2), st());
    assert_eq!(g.pop_test(), Some(TestId::make(3)));
    assert_eq!(g.pop_test(), None);
}

#[test]
fn group_stops_at_first_failure() {
    let mut g = Group::new();
    g.add_tests(&vec![1, 2, 3]);
    g.set_score(30);
    g.freeze();
    assert_eq!(g.pop_test(), Some(TestId::make(1)));
    g.on_test_done(TestId::make(1), make_err_status());
    assert_eq!(g.pop_test(), None);
    assert!(g.is_failed());
    assert!(!g.is_passed());
    assert_eq!(g.score(), 0);
}

#[test]
fn group_runs_all_tests_when_asked() {
    let mut g = Group::new();
    g.add_tests(&vec![1, 2]);
    g.set_score(30);
    g.set_run_all_tests();
    g.freeze();
    assert_eq!(g.pop_test(), Some(TestId::make(1)));
    assert_eq!(g.pop_test(), Some(TestId::make(2)));
    assert_eq!(g.running_tests(), 2);
    g.on_test_done(TestId::make(2), make_ok_status());
    g.on_test_done(TestId::make(1), make_ok_status());
    assert!(g.is_passed());
    assert_eq!(g.score(), 30);
}

#[test]
fn group_waits_for_deps() {
    let mut g = Group::new();
    g.add_tests(&vec![4]);
    g.add_dep(0);
    g.add_dep(2);
    g.freeze();
    assert!(g.is_waiting());
    assert_eq!(g.pop_test(), None);
    g.on_group_pass(0);
    assert!(g.is_waiting());
    g.on_group_pass(2);
    assert!(!g.is_waiting());
    assert_eq!(g.pop_test(), Some(TestId::make(4)));
}

#[test]
fn group_skipped_when_dep_fails() {
    let mut g = Group::new();
    g.add_tests(&vec![4]);
    g.add_dep(1);
    g.freeze();
    g.on_group_fail(1);
    assert!(g.is_skipped());
    assert_eq!(g.pop_test(), None);
}

fn row_eq(actual: &JudgeLogTestRow, test: u32, status: &Status, components: TestVisibleComponents) -> bool {
    actual.test_id == TestId::make(test)
        && actual.status.code == status.code
        && actual.status.kind == status.kind
        && actual.components == components
}

fn sub_eq(actual: &JudgeLogSubtaskRow, id: u32, score: u32, components: SubtaskVisibleComponents) -> bool {
    actual.subtask_id == SubtaskId::make(id) && actual.score == score && actual.components == components
}

fn make_fiber(cfg: &Config, tags: &[&str], kind: JudgeLogKind) -> Fiber {
    let info = info(tags);
    assert!(Fiber::config_ok(cfg, &info, kind));
    Fiber::new(cfg, &info, kind)
}

fn expect_test(r: FiberReply, id: u32) {
    match r {
        FiberReply::Test { test_id } => assert_eq!(test_id, TestId::make(id)),
        other => panic!("{:?}", other),
    }
}

fn expect_nothing(r: FiberReply) {
    match r {
        FiberReply::Nothing => {}
        other => panic!("{:?}", other),
    }
}

#[test]
fn fiber_simple() {
    let cfg = Config {
        groups: vec![
            group("samples", FeedbackKind::Full, 0, vec![]),
            group("online", FeedbackKind::Brief, 60, vec![by_name("samples")]),
            group("offline", FeedbackKind::Hidden, 40, vec![by_name("online")]),
        ],
    };
    let mut f = make_fiber(&cfg, &["samples", "online", "offline"], JudgeLogKind::Full);
    expect_test(f.poll(), 1);
    expect_nothing(f.poll());
    f.add_test(TestId::make(1), &make_ok_status());
    expect_test(f.poll(), 2);
    expect_nothing(f.poll());
    f.add_test(TestId::make(2), &make_ok_status());
    match f.poll() {
        FiberReply::LiveScore { score } => assert_eq!(score, 60),
        other => panic!("{:?}", other),
    }
    expect_test(f.poll(), 3);
    expect_nothing(f.poll());
    f.add_test(TestId::make(3), &make_err_status());
    let judge_log = match f.poll() {
        FiberReply::Finish(log) => log,
        oth => panic!("{:?}", oth),
    };
    assert_eq!(judge_log.tests.len(), 3);
    assert!(row_eq(&judge_log.tests[0], 1, &make_ok_status(), TestVisibleComponents::all()));
    assert!(row_eq(&judge_log.tests[1], 2, &make_ok_status(), TestVisibleComponents::all()));
    assert!(row_eq(&judge_log.tests[2], 3, &make_err_status(), TestVisibleComponents::all()));
    assert_eq!(judge_log.subtasks.len(), 3);
    assert!(sub_eq(&judge_log.subtasks[0], 1, 0, SubtaskVisibleComponents::all()));
    assert!(sub_eq(&judge_log.subtasks[1], 2, 60, SubtaskVisibleComponents::all()));
    assert!(sub_eq(&judge_log.subtasks[2], 3, 0, SubtaskVisibleComponents::all()));
    assert!(!judge_log.is_full);
    assert_eq!(judge_log.kind, JudgeLogKind::Full);
    assert_eq!(judge_log.score, 60);
    assert!(f.is_finished());
    expect_nothing(f.poll());
}

#[test]
fn fiber_contestant_hides_hidden_groups() {
    let cfg = Config {
        groups: vec![
            group("samples", FeedbackKind::Full, 10, vec![]),
            group("secret", FeedbackKind::Hidden, 90, vec![]),
        ],
    };
    let mut f = make_fiber(&cfg, &["samples", "secret"], JudgeLogKind::Contestant);
    assert!(f.test_is_live(TestId::make(1)));
    assert!(!f.is_visible(TestId::make(2)));
    expect_test(f.poll(), 1);
    f.add_test(TestId::make(2), &make_ok_status());
    expect_nothing(f.poll());
    f.add_test(TestId::make(1), &make_ok_status());
    match f.poll() {
        FiberReply::LiveScore { score } => assert_eq!(score, 10),
        other => panic!("{:?}", other),
    }
    match f.poll() {
        FiberReply::Finish(log) => {
            assert_eq!(log.subtasks.len(), 1);
            assert!(log.is_full);
            assert_eq!(log.score, 10);
            assert_eq!(log.kind, JudgeLogKind::Contestant);
        }
        other => panic!("{:?}", other),
    }
}

#[test]
fn fiber_config_rejects_group_without_tests() {
    let cfg = Config { groups: vec![group("samples", FeedbackKind::Full, 10, vec![])] };
    assert!(!Fiber::config_ok(&cfg, &info(&["other"]), JudgeLogKind::Full));
    assert!(Fiber::config_ok(&cfg, &info(&["samples"]), JudgeLogKind::Full));
}

#[test]
fn fiber_config_rejects_unresolved_dep() {
    let cfg = Config { groups: vec![group("samples", FeedbackKind::Full, 10, vec![by_name("nope")])] };
    assert!(!Fiber::config_ok(&cfg, &info(&["samples"]), JudgeLogKind::Full));
}

#[test]
fn fiber_runs_a_group_that_depends_on_a_later_one() {
    let cfg = Config {
        groups: vec![
            group("a", FeedbackKind::Full, 30, vec![by_name("b")]),
            group("b", FeedbackKind::Full, 70, vec![]),
        ],
    };
    let mut f = make_fiber(&cfg, &["a", "b"], JudgeLogKind::Full);
    expect_test(f.poll(), 2);
    expect_nothing(f.poll());
    f.add_test(TestId::make(2), &make_ok_status());
    match f.poll() {
        FiberReply::LiveScore { score } => assert_eq!(score, 70),
        other => panic!("{:?}", other),
    }
    expect_test(f.poll(), 1);
    expect_nothing(f.poll());
    f.add_test(TestId::make(1), &make_ok_status());
    match f.poll() {
        FiberReply::LiveScore { score } => assert_eq!(score, 100),
        other => panic!("{:?}", other),
    }
    match f.poll() {
        FiberReply::Finish(log) => {
            assert_eq!(log.score, 100);
            assert!(log.is_full);
        }
        other => panic!("{:?}", other),
    }
}

#[test]
fn fiber_config_rejects_dependency_cycle() {
    let cfg = Config {
        groups: vec![
            group("a", FeedbackKind::Full, 30, vec![by_name("b")]),
            group("b", FeedbackKind::Full, 70, vec![by_name("a")]),
        ],
    };
    assert!(!Fiber::config_ok(&cfg, &info(&["a", "b"]), JudgeLogKind::Full));
    let self_dep = Config { groups: vec![group("a", FeedbackKind::Full, 30, vec![by_name("a")])] };
    assert!(!Fiber::config_ok(&self_dep, &info(&["a"]), JudgeLogKind::Full));
}

#[test]
fn status_helpers() {
    let ok = make_ok_status();
    assert_eq!(ok.code, "OK");
    assert_eq!(ok.kind, StatusKind::Accepted);
    let err = make_err_status();
    assert_eq!(err.code, "NOT_OK");
    assert_eq!(err.kind, StatusKind::Rejected);
}

struct TestMock {
    test_id: TestId,
    live: bool,
    status: Status,
}

struct MockDriver {
    tests: VecDeque<TestMock>,
    pending_notifications: VecDeque<TestDoneNotification>,
    live_scores: VecDeque<u32>,
    problem_info: ProblemInfo,
    judge_logs: Vec<JudgeLog>,
}

fn logs_equal(expected: &JudgeLog, actual: &JudgeLog) {
    assert_eq!(expected.kind, actual.kind);
    assert_eq!(expected.score, actual.score);
    assert_eq!(expected.is_full, actual.is_full);
    assert_eq!(expected.tests.len(), actual.tests.len());
    for (e, a) in expected.tests.iter().zip(actual.tests.iter()) {
        assert!(row_eq(a, e.test_id.get(), &e.status, e.components));
    }
    assert_eq!(expected.subtasks.len(), actual.subtasks.len());
    for (e, a) in expected.subtasks.iter().zip(actual.subtasks.iter()) {
        assert!(sub_eq(a, e.subtask_id.get(), e.score, e.components));
    }
}

impl MockDriver {
    fn new(problem_info: ProblemInfo) -> Self {
        Self {
            tests: VecDeque::new(),
            problem_info,
            live_scores: VecDeque::new(),
            pending_notifications: VecDeque::new(),
            judge_logs: Vec::new(),
        }
    }

    fn add_test(&mut self, test_id: u32, live: bool, ok: bool) -> &mut Self {
        let mock = TestMock {
            test_id: TestId::make(test_id),
            live,
            status: if ok { make_ok_status() } else { make_err_status() },
        };
        self.tests.push_back(mock);
        self
    }

    fn add_judge_log(&mut self, judge_log: JudgeLog) -> &mut Self {
        self.judge_logs.push(judge_log);
        self
    }

    fn add_live_score(&mut self, score: u32) -> &mut Self {
        self.live_scores.push_back(score);
        self
    }

    fn check_finish(&mut self) {
        if !self.pending_notifications.is_empty() {
            panic!("not all notifications are delivered");
        }
        if !self.live_scores.is_empty() {
            panic!("not all live scores were emitted");
        }
        if !self.tests.is_empty() {
            panic!("not all tests were executed");
        }
        if let Some(judge_log) = self.judge_logs.first() {
            panic!("judge log {:?} was not emitted", judge_log.kind);
        }
    }

    fn check_live_score(&mut self, score: u32) {
        match self.live_scores.pop_front() {
            Some(expected) => {
                if expected != score {
                    panic!("expected live score {}, but valuer gave {}", expected, score);
                }
            }
            None => panic!("no more live scores expected, but got {}", score),
        }
    }

    fn check_test(&mut self, test_id: TestId, live: bool) {
        match self.tests.pop_front() {
            Some(mock) => {
                if mock.test_id != test_id {
                    panic!(
                        "expected {} to be next test, but got {} instead",
                        mock.test_id.get(),
                        test_id.get()
                    );
                }
                if mock.live != live {
                    panic!("live flag differs: expected {}, actual {}", mock.live, live);
                }
                self.pending_notifications
                    .push_back(TestDoneNotification { test_id: mock.test_id, test_status: mock.status })
            }
            None => panic!("No more test runs expected, but got request for {}", test_id.get()),
        }
    }

    fn check_judge_log(&mut self, judge_log: &JudgeLog) {
        let pos = match self.judge_logs.iter().position(|log| log.kind == judge_log.kind) {
            Some(p) => p,
            None => panic!("Judge log of kind {:?} is not expected", judge_log.kind),
        };
        let expected = self.judge_logs.remove(pos);
        if self.judge_logs.iter().any(|log| log.kind == judge_log.kind) {
            panic!("Invalid test data: duplicated judge log: {:?}", judge_log.kind);
        }
        logs_equal(&expected, judge_log);
    }

    fn send_command(&mut self, cmd: &ValuerResponse) {
        match cmd {
            ValuerResponse::Finish => self.check_finish(),
            ValuerResponse::JudgeLog(judge_log) => self.check_judge_log(judge_log),
            ValuerResponse::LiveScore { score } => self.check_live_score(*score),
            ValuerResponse::Test { test_id, live } => self.check_test(*test_id, *live),
        }
    }

    fn exec(&mut self, cfg: &Config) {
        let info = self.problem_info.clone();
        assert!(SimpleValuer::config_ok(cfg, &info));
        let mut valuer = SimpleValuer::new(cfg, &info);
        loop {
            let should_run = match valuer.poll_fibers() {
                StepOutcome::Send(cmd) => {
                    self.send_command(&cmd);
                    true
                }
                StepOutcome::Continue => true,
                StepOutcome::PollNotification => {
                    let notification = self.pending_notifications.pop_front();
                    if let Some(n) = &notification {
                        assert!(valuer.accepts(n));
                    }
                    valuer.on_notification(notification)
                }
            };
            if !should_run {
                break;
            }
        }
        self.send_command(&ValuerResponse::Finish);
    }
}

fn clone_log(log: &JudgeLog) -> JudgeLog {
    JudgeLog {
        kind: log.kind,
        tests: log
            .tests
            .iter()
            .map(|r| JudgeLogTestRow {
                test_id: r.test_id,
                status: Status { code: r.status.code.clone(), kind: r.status.kind },
                components: r.components,
            })
            .collect(),
        subtasks: log
            .subtasks
            .iter()
            .map(|s| JudgeLogSubtaskRow { subtask_id: s.subtask_id, score: s.score, components: s.components })
            .collect(),
        score: log.score,
        is_full: log.is_full,
    }
}

#[test]
fn simple_ok() {
    let full_log = JudgeLog {
        is_full: true,
        kind: JudgeLogKind::Full,
        tests: vec![
            JudgeLogTestRow {
                test_id: TestId::make(1),
                status: make_ok_status(),
                components: TestVisibleComponents::all(),
            },
            JudgeLogTestRow {
                test_id: TestId::make(2),
                status: make_ok_status(),
                components: TestVisibleComponents::all(),
            },
        ],
        subtasks: vec![
            JudgeLogSubtaskRow {
                subtask_id: SubtaskId::make(1),
                score: 64,
                components: SubtaskVisibleComponents::score_only(),
            },
            JudgeLogSubtaskRow {
                subtask_id: SubtaskId::make(2),
                score: 36,
                components: SubtaskVisibleComponents::score_only(),
            },
        ],
        score: 100,
    };
    let mut contestant_log = clone_log(&full_log);
    contestant_log.kind = JudgeLogKind::Contestant;
    contestant_log.subtasks.pop();
    contestant_log.tests.pop();
    contestant_log.tests[0].components = TestVisibleComponents::status_only();
    contestant_log.score = 64;
    let cfg = Config {
        groups: vec![
            group("online", FeedbackKind::Brief, 64, vec![]),
            group("offline", FeedbackKind::Hidden, 36, vec![by_name("online")]),
        ],
    };
    MockDriver::new(info(&["online", "offline"]))
        .add_test(1, true, true)
        .add_test(2, false, true)
        .add_judge_log(full_log)
        .add_judge_log(contestant_log)
        .add_live_score(64)
        .exec(&cfg);
}

#[test]
fn status_err() {
    let full_log = JudgeLog {
        is_full: false,
        kind: JudgeLogKind::Full,
        tests: vec![JudgeLogTestRow {
            test_id: TestId::make(1),
            status: make_err_status(),
            components: TestVisibleComponents::all(),
        }],
        subtasks: vec![
            JudgeLogSubtaskRow {
                subtask_id: SubtaskId::make(1),
                score: 0,
                components: SubtaskVisibleComponents::all(),
            },
            JudgeLogSubtaskRow {
                subtask_id: SubtaskId::make(2),
                score: 0,
                components: SubtaskVisibleComponents::all(),
            },
        ],
        score: 0,
    };
    let mut contestant_log = clone_log(&full_log);
    contestant_log.kind = JudgeLogKind::Contestant;
    let cfg = Config {
        groups: vec![
            group("samples", FeedbackKind::Full, 0, vec![]),
            group("online", FeedbackKind::Brief, 100, vec![by_name("samples")]),
        ],
    };
    MockDriver::new(info(&["samples", "online"]))
        .add_test(1, true, false)
        .add_judge_log(full_log)
        .add_judge_log(contestant_log)
        .exec(&cfg);
}

#[test]
fn valuer_rejects_notification_without_running_test() {
    let cfg = Config { groups: vec![group("samples", FeedbackKind::Full, 5, vec![])] };
    let info = info(&["samples"]);
    let valuer = SimpleValuer::new(&cfg, &info);
    assert_eq!(valuer.running_tests(), 0);
    assert_eq!(valuer.running_fibers(), 2);
    let n = TestDoneNotification { test_id: TestId::make(1), test_status: make_ok_status() };
    assert!(!valuer.accepts(&n));
}
