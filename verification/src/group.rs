//! A group (subtask) of tests while valuing: it waits for the groups it
//! depends on, runs its tests in order, and finishes as passed or failed.
use vstd::prelude::*;
use crate::pom::TestId;
use crate::valuer_proto::{
    JudgeLog, JudgeLogSubtaskRow, JudgeLogTestRow, Status, SubtaskId, SubtaskVisibleComponents,
    TestVisibleComponents,
};
use crate::ordered::{
    ids_sorted, keys, lower_bound, insert_id, insert_result, remove_id, sorted_set_of,
};

verus! {

struct RunningState {
    queued_tests: Vec<TestId>,
    succeeded_tests: Vec<(TestId, Status)>,
    failed_tests: Vec<(TestId, Status)>,
    running_tests: Vec<TestId>,
}

struct WaitingState {
    deps: Vec<u32>,
}

struct SkippedState {
    failed_dep: u32,
}

struct FinishedState {
    score: u32,
    success: bool,
    tests: Vec<(TestId, Status)>,
}

enum State {
    Building,
    Running(RunningState),
    Waiting(WaitingState),
    Skipped(SkippedState),
    Finished(FinishedState),
}

/// Phase of a group.
#[derive(Debug, Clone, Copy, PartialEq, Eq, Structural)]
pub enum Phase {
    /// Being configured.
    Building,
    /// Running its tests.
    Running,
    /// Waiting for the groups it depends on.
    Waiting,
    /// Not run, because a group it depends on failed.
    Skipped,
    /// All its tests are done.
    Finished,
}

/// Abstract state of a [`Group`]. Fields of a phase other than the current one
/// hold their empty values.
pub struct GroupView {
    pub id: u32,
    pub dep_groups: Seq<u32>,
    pub test_vis: TestVisibleComponents,
    pub subtask_vis: SubtaskVisibleComponents,
    pub run_all_tests: bool,
    pub tests: Seq<TestId>,
    pub score: u32,
    pub phase: Phase,
    /// Running: tests not started yet, by increasing id.
    pub queued: Seq<TestId>,
    /// Running: tests started and not done, by increasing id.
    pub running: Seq<TestId>,
    /// Running: accepted tests with their statuses, by increasing id.
    pub succeeded: Seq<(TestId, Status)>,
    /// Running: failed tests with their statuses, by increasing id.
    pub failed: Seq<(TestId, Status)>,
    /// Waiting: groups still to pass.
    pub waiting_deps: Set<u32>,
    /// Skipped: the group whose failure skipped this one.
    pub failed_dep: u32,
    /// Finished: the score gained.
    pub finished_score: u32,
    /// Finished: whether all tests passed.
    pub success: bool,
    /// Finished: failed tests, then accepted tests, each by increasing id.
    pub finished_tests: Seq<(TestId, Status)>,
}

/// Group (subtask) of tests.
pub struct Group {
    id: SubtaskId,
    dep_groups: Vec<u32>,
    test_vis_flags: TestVisibleComponents,
    subtask_vis_flags: SubtaskVisibleComponents,
    run_all_tests: bool,
    state: State,
    tests: Vec<TestId>,
    score: u32,
}

/// The tests of a group in running order: distinct, by increasing id.
pub open spec fn queue_of(q: Seq<TestId>, tests: Seq<TestId>) -> bool {
    ids_sorted(q) && q.to_set() == tests.to_set()
}

/// The state right after the group starts running.
pub open spec fn started(v: GroupView, q: Seq<TestId>) -> GroupView {
    GroupView {
        phase: Phase::Running,
        queued: q,
        running: Seq::empty(),
        succeeded: Seq::empty(),
        failed: Seq::empty(),
        waiting_deps: Set::empty(),
        ..v
    }
}

/// Phase-specific fields cleared.
pub open spec fn cleared(v: GroupView) -> GroupView {
    GroupView {
        queued: Seq::empty(),
        running: Seq::empty(),
        succeeded: Seq::empty(),
        failed: Seq::empty(),
        waiting_deps: Set::empty(),
        failed_dep: 0,
        finished_score: 0,
        success: false,
        finished_tests: Seq::empty(),
        ..v
    }
}

/// The state after the last running test of a group is done: finished if
/// nothing is queued or running.
pub open spec fn after_done(v: GroupView) -> GroupView {
    if v.queued.len() == 0 && v.running.len() == 0 {
        GroupView {
            phase: Phase::Finished,
            finished_score: if v.failed.len() == 0 {
                v.score
            } else {
                0
            },
            success: v.failed.len() == 0,
            finished_tests: v.failed + v.succeeded,
            ..cleared(v)
        }
    } else {
        v
    }
}

/// The state after test `t` of a group finished with `status`.
pub open spec fn spec_test_done(v: GroupView, t: TestId, status: Status) -> GroupView {
    if v.phase == Phase::Running && v.running.contains(t) {
        let running = v.running.remove(lower_bound(v.running, t.value()));
        let mid = if status.kind.spec_is_success() {
            GroupView {
                running: running,
                succeeded: v.succeeded.insert(lower_bound(keys(v.succeeded), t.value()), (t, status)),
                ..v
            }
        } else {
            GroupView {
                running: running,
                failed: v.failed.insert(lower_bound(keys(v.failed), t.value()), (t, status)),
                queued: if v.run_all_tests {
                    v.queued
                } else {
                    Seq::empty()
                },
                ..v
            }
        };
        after_done(mid)
    } else {
        v
    }
}

/// Score of a group: its score if it passed, else 0.
pub open spec fn group_score(v: GroupView) -> u32 {
    if v.phase == Phase::Finished && v.success {
        v.score
    } else {
        0
    }
}

/// The row a finished test gets in a judge log.
pub open spec fn test_row(vis: TestVisibleComponents, e: (TestId, Status)) -> JudgeLogTestRow {
    JudgeLogTestRow { test_id: e.0, status: e.1, components: vis }
}

impl View for Group {
    type V = GroupView;

    closed spec fn view(&self) -> GroupView {
        let base = GroupView {
            id: self.id.value(),
            dep_groups: self.dep_groups@,
            test_vis: self.test_vis_flags,
            subtask_vis: self.subtask_vis_flags,
            run_all_tests: self.run_all_tests,
            tests: self.tests@,
            score: self.score,
            phase: Phase::Building,
            queued: Seq::empty(),
            running: Seq::empty(),
            succeeded: Seq::empty(),
            failed: Seq::empty(),
            waiting_deps: Set::empty(),
            failed_dep: 0,
            finished_score: 0,
            success: false,
            finished_tests: Seq::empty(),
        };
        match &self.state {
            State::Building => base,
            State::Running(st) => GroupView {
                phase: Phase::Running,
                queued: st.queued_tests@,
                running: st.running_tests@,
                succeeded: st.succeeded_tests@,
                failed: st.failed_tests@,
                ..base
            },
            State::Waiting(st) => GroupView {
                phase: Phase::Waiting,
                waiting_deps: st.deps@.to_set(),
                ..base
            },
            State::Skipped(st) => GroupView { phase: Phase::Skipped, failed_dep: st.failed_dep, ..base },
            State::Finished(st) => GroupView {
                phase: Phase::Finished,
                finished_score: st.score,
                success: st.success,
                finished_tests: st.tests@,
                ..base
            },
        }
    }
}

/// The state invariant of a group.
pub open spec fn group_wf(v: GroupView) -> bool {
    &&& v.phase == Phase::Running ==> {
        &&& ids_sorted(v.queued)
        &&& ids_sorted(v.running)
        &&& ids_sorted(keys(v.succeeded))
        &&& ids_sorted(keys(v.failed))
        &&& forall|t: TestId|
            #![trigger v.queued.contains(t), v.running.contains(t)]
            !(v.queued.contains(t) && v.running.contains(t))
        &&& forall|t: TestId|
            #![trigger keys(v.succeeded).contains(t)]
            keys(v.succeeded).contains(t) ==> !v.queued.contains(t) && !v.running.contains(t)
                && !keys(v.failed).contains(t)
        &&& forall|t: TestId|
            #![trigger keys(v.failed).contains(t)]
            keys(v.failed).contains(t) ==> !v.queued.contains(t) && !v.running.contains(t)
        &&& !v.run_all_tests ==> v.running.len() <= 1
        &&& forall|t: TestId| #[trigger] v.queued.contains(t) ==> v.tests.contains(t)
        &&& forall|t: TestId| #[trigger] v.running.contains(t) ==> v.tests.contains(t)
        &&& v.tests.len() > 0 ==> v.queued.len() > 0 || v.running.len() > 0
    }
    &&& v.phase == Phase::Waiting ==> {
        &&& !v.waiting_deps.is_empty()
        &&& v.waiting_deps.subset_of(v.dep_groups.to_set())
    }
    &&& v.phase == Phase::Finished ==> v.finished_score == (if v.success {
        v.score
    } else {
        0
    })
}

impl Group {
    /// The state invariant of the group.
    pub open spec fn wf(&self) -> bool {
        group_wf(self@) && self.deps_distinct()
    }

    /// The dependencies waited for are kept without repetition.
    pub closed spec fn deps_distinct(&self) -> bool {
        match &self.state {
            State::Waiting(st) => st.deps@.no_duplicates(),
            _ => true,
        }
    }

    /// A new group in the Building phase.
    pub fn new() -> (r: Group)
        ensures
            r@ == (GroupView {
                id: u32::MAX,
                dep_groups: Seq::empty(),
                test_vis: TestVisibleComponents::spec_empty(),
                subtask_vis: SubtaskVisibleComponents { score: false },
                run_all_tests: false,
                tests: Seq::empty(),
                score: 0,
                phase: Phase::Building,
                queued: Seq::empty(),
                running: Seq::empty(),
                succeeded: Seq::empty(),
                failed: Seq::empty(),
                waiting_deps: Set::empty(),
                failed_dep: 0,
                finished_score: 0,
                success: false,
                finished_tests: Seq::empty(),
            }),
            r.wf(),
    {
        Group {
            id: SubtaskId::make(u32::MAX),
            dep_groups: Vec::new(),
            test_vis_flags: TestVisibleComponents::empty(),
            subtask_vis_flags: SubtaskVisibleComponents::empty(),
            run_all_tests: false,
            state: State::Building,
            tests: Vec::new(),
            score: 0,
        }
    }

    /// Sets the subtask id; only while building.
    pub fn set_id(&mut self, id: u32)
        requires
            old(self)@.phase == Phase::Building,
            id != 0,
        ensures
            final(self)@ == (GroupView { id: id, ..old(self)@ }),
    {
        self.id = SubtaskId::make(id);
    }

    /// Appends tests with the given ids; only while building.
    pub fn add_tests(&mut self, range: &Vec<u32>)
        requires
            old(self)@.phase == Phase::Building,
            forall|k: int| 0 <= k < range@.len() ==> range@[k] != 0,
        ensures
            final(self)@ == (GroupView { tests: final(self)@.tests, ..old(self)@ }),
            final(self)@.tests.len() == old(self)@.tests.len() + range@.len(),
            forall|k: int| 0 <= k < old(self)@.tests.len() ==> final(self)@.tests[k] == old(self)@.tests[k],
            forall|k: int|
                0 <= k < range@.len() ==> (#[trigger] final(self)@.tests[old(self)@.tests.len() + k]).value()
                    == range@[k],
    {
        let n = range.len();
        let mut i: usize = 0;
        let ghost t0 = self.tests@;
        while i < n
            invariant
                n == range@.len(),
                0 <= i <= n,
                self@ == (GroupView { tests: self.tests@, ..old(self)@ }),
                forall|k: int| 0 <= k < range@.len() ==> range@[k] != 0,
                self.tests@.len() == t0.len() + i,
                forall|k: int| 0 <= k < t0.len() ==> self.tests@[k] == t0[k],
                forall|k: int| 0 <= k < i ==> (#[trigger] self.tests@[t0.len() + k]).value() == range@[k],
            decreases n - i,
        {
            self.tests.push(TestId::make(range[i]));
            i = i + 1;
        }
    }

    /// Adds a group that must pass before this one runs; only while building.
    pub fn add_dep(&mut self, dep_id: u32)
        requires
            old(self)@.phase == Phase::Building,
        ensures
            final(self)@ == (GroupView { dep_groups: old(self)@.dep_groups.push(dep_id), ..old(self)@ }),
    {
        self.dep_groups.push(dep_id);
    }

    /// Sets the group score; only while building.
    pub fn set_score(&mut self, score: u32)
        requires
            old(self)@.phase == Phase::Building,
        ensures
            final(self)@ == (GroupView { score: score, ..old(self)@ }),
    {
        self.score = score;
    }

    /// Sets which test components are shown; only while building.
    pub fn set_tests_vis(&mut self, vis: TestVisibleComponents)
        requires
            old(self)@.phase == Phase::Building,
        ensures
            final(self)@ == (GroupView { test_vis: vis, ..old(self)@ }),
    {
        self.test_vis_flags = vis;
    }

    /// Sets which subtask components are shown; only while building.
    pub fn set_group_vis(&mut self, vis: SubtaskVisibleComponents)
        requires
            old(self)@.phase == Phase::Building,
        ensures
            final(self)@ == (GroupView { subtask_vis: vis, ..old(self)@ }),
    {
        self.subtask_vis_flags = vis;
    }

    /// Run all tests, even after a failure; only while building.
    pub fn set_run_all_tests(&mut self)
        requires
            old(self)@.phase == Phase::Building,
        ensures
            final(self)@ == (GroupView { run_all_tests: true, ..old(self)@ }),
    {
        self.run_all_tests = true;
    }

    /// Ends configuration: the group waits for its dependencies, or starts
    /// running at once if it has none.
    pub fn freeze(&mut self)
        ensures
            final(self).wf(),
            old(self)@.dep_groups.len() == 0 ==> final(self)@ == started(
                cleared(old(self)@),
                final(self)@.queued,
            ) && queue_of(final(self)@.queued, old(self)@.tests),
            old(self)@.dep_groups.len() != 0 ==> final(self)@ == (GroupView {
                phase: Phase::Waiting,
                waiting_deps: old(self)@.dep_groups.to_set(),
                ..cleared(old(self)@)
            }),
    {
        let deps = distinct_u32(&self.dep_groups);
        proof {
            if self.dep_groups@.len() != 0 {
                assert(deps@.to_set().contains(self.dep_groups@[0]));
            }
        }
        self.state = State::Waiting(WaitingState { deps });
        self.maybe_stop_waiting();
    }

    /// Starts running if no dependency is left to wait for.
    fn maybe_stop_waiting(&mut self)
        requires
            old(self)@.phase == Phase::Waiting,
            old(self).deps_distinct(),
            old(self)@.waiting_deps.subset_of(old(self)@.dep_groups.to_set()),
        ensures
            final(self).wf(),
            old(self)@.waiting_deps.is_empty() ==> final(self)@ == started(
                cleared(old(self)@),
                final(self)@.queued,
            ) && queue_of(final(self)@.queued, old(self)@.tests) && final(self).wf(),
            !old(self)@.waiting_deps.is_empty() ==> final(self)@ == old(self)@,
    {
        let empty = match &self.state {
            State::Waiting(st) => {
                proof {
                    if st.deps@.len() > 0 {
                        assert(st.deps@.to_set().contains(st.deps@[0]));
                    } else {
                        assert(st.deps@.to_set() =~= Set::empty());
                    }
                }
                st.deps.len() == 0
            },
            _ => {
                proof {
                    assert(false);
                }
                false
            },
        };
        if empty {
            let q = sorted_set_of(&self.tests);
            self.state = State::Running(RunningState {
                queued_tests: q,
                failed_tests: Vec::new(),
                succeeded_tests: Vec::new(),
                running_tests: Vec::new(),
            });
            proof {
                assert(keys(Seq::<(TestId, Status)>::empty()) =~= Seq::<TestId>::empty());
                let qs = self@.queued;
                let ts = self@.tests;
                assert forall|t: TestId| #[trigger] qs.contains(t) implies ts.contains(t) by {
                    assert(qs.to_set().contains(t));
                }
                if ts.len() > 0 {
                    assert(ts.to_set().contains(ts[0]));
                    assert(qs.to_set().contains(ts[0]));
                }
            }
        }
    }

    /// `Some(success)` once the group is finished.
    pub fn finished(&self) -> (r: Option<bool>)
        ensures
            r == (if self@.phase == Phase::Finished {
                Some(self@.success)
            } else {
                None
            }),
    {
        match &self.state {
            State::Finished(st) => Some(st.success),
            _ => None,
        }
    }

    /// The group finished and all its tests passed.
    pub fn is_passed(&self) -> (r: bool)
        ensures
            r == (self@.phase == Phase::Finished && self@.success),
    {
        self.finished() == Some(true)
    }

    /// The group finished and some test failed.
    pub fn is_failed(&self) -> (r: bool)
        ensures
            r == (self@.phase == Phase::Finished && !self@.success),
    {
        self.finished() == Some(false)
    }

    /// The group is waiting for dependencies.
    pub fn is_waiting(&self) -> (r: bool)
        ensures
            r == (self@.phase == Phase::Waiting),
    {
        match &self.state {
            State::Waiting(_) => true,
            _ => false,
        }
    }

    /// The group was skipped.
    pub fn is_skipped(&self) -> (r: bool)
        ensures
            r == (self@.phase == Phase::Skipped),
    {
        match &self.state {
            State::Skipped(_) => true,
            _ => false,
        }
    }

    /// Number of tests of this group currently running.
    pub fn running_tests(&self) -> (r: u32)
        ensures
            r == (if self@.phase == Phase::Running {
                self@.running.len() as u32
            } else {
                0
            }),
    {
        match &self.state {
            State::Running(st) => st.running_tests.len() as u32,
            _ => 0,
        }
    }

    /// Tests of this group currently running, by increasing id.
    pub fn list_running_tests(&self) -> (r: Vec<TestId>)
        ensures
            r@ == (if self@.phase == Phase::Running {
                self@.running
            } else {
                Seq::empty()
            }),
    {
        match &self.state {
            State::Running(st) => st.running_tests.clone(),
            _ => Vec::new(),
        }
    }

    /// Group `other_group_id` passed: stop waiting for it.
    pub fn on_group_pass(&mut self, other_group_id: u32)
        requires
            old(self).wf(),
        ensures
            final(self).wf(),
            old(self)@.phase == Phase::Waiting && old(self)@.waiting_deps.contains(other_group_id)
                ==> if old(self)@.waiting_deps.remove(other_group_id).is_empty() {
                final(self)@ == started(cleared(old(self)@), final(self)@.queued) && queue_of(
                    final(self)@.queued,
                    old(self)@.tests,
                )
            } else {
                final(self)@ == (GroupView {
                    waiting_deps: old(self)@.waiting_deps.remove(other_group_id),
                    ..old(self)@
                })
            },
            !(old(self)@.phase == Phase::Waiting && old(self)@.waiting_deps.contains(
                other_group_id,
            )) ==> final(self)@ == old(self)@,
    {
        let removed = match &mut self.state {
            State::Waiting(st) => remove_u32(&mut st.deps, other_group_id),
            _ => false,
        };
        if removed {
            self.maybe_stop_waiting();
        }
    }

    /// Group `other_group_id` failed: if this group needs it, it is skipped.
    pub fn on_group_fail(&mut self, other_group_id: u32)
        requires
            old(self).wf(),
        ensures
            final(self).wf(),
            old(self)@.phase == Phase::Waiting && old(self)@.waiting_deps.contains(other_group_id)
                ==> final(self)@ == (GroupView {
                phase: Phase::Skipped,
                failed_dep: other_group_id,
                ..cleared(old(self)@)
            }),
            !(old(self)@.phase == Phase::Waiting && old(self)@.waiting_deps.contains(
                other_group_id,
            )) ==> final(self)@ == old(self)@,
    {
        let needed = match &self.state {
            State::Waiting(st) => contains_u32(&st.deps, other_group_id),
            _ => false,
        };
        if needed {
            self.state = State::Skipped(SkippedState { failed_dep: other_group_id });
        }
    }

    /// Returns next test from this group that can be executed, and marks it running.
    pub fn pop_test(&mut self) -> (r: Option<TestId>)
        requires
            old(self).wf(),
            old(self)@.phase != Phase::Building,
        ensures
            final(self).wf(),
            old(self)@.phase == Phase::Running && (old(self)@.running.len() == 0
                || old(self)@.run_all_tests) && old(self)@.queued.len() > 0 ==> {
                &&& r == Some(old(self)@.queued[0])
                &&& final(self)@ == (GroupView {
                    queued: old(self)@.queued.drop_first(),
                    running: old(self)@.running.insert(
                        lower_bound(old(self)@.running, old(self)@.queued[0].value()),
                        old(self)@.queued[0],
                    ),
                    ..old(self)@
                })
            },
            !(old(self)@.phase == Phase::Running && (old(self)@.running.len() == 0
                || old(self)@.run_all_tests) && old(self)@.queued.len() > 0) ==> r is None
                && final(self)@ == old(self)@,
    {
        let run_all = self.run_all_tests;
        match &mut self.state {
            State::Running(st) => {
                if st.running_tests.len() != 0 && !run_all {
                    return None;
                }
                if st.queued_tests.len() > 0 {
                    let t = st.queued_tests.remove(0);
                    proof {
                        assert(!st.running_tests@.contains(t)) by {
                            assert(old(self)@.queued.contains(t));
                        }
                        assert forall|k: int| #![auto] 0 <= k < st.queued_tests@.len() implies st.queued_tests@[k]
                            == old(self)@.queued[k + 1] by {
                        }
                    }
                    insert_id(&mut st.running_tests, t);
                    proof {
                        assert(st.queued_tests@ =~= old(self)@.queued.drop_first());
                        let q0 = old(self)@.queued;
                        let q1 = st.queued_tests@;
                        assert(ids_sorted(q1)) by {
                            assert forall|i: int, j: int| 0 <= i < j < q1.len() implies (
                            #[trigger] q1[i]).value() < (#[trigger] q1[j]).value() by {
                                assert(q1[i] == q0[i + 1] && q1[j] == q0[j + 1]);
                            }
                        }
                        assert forall|x: TestId| q1.contains(x) implies q0.contains(x) && x != t by {
                            let k = choose|k: int| 0 <= k < q1.len() && q1[k] == x;
                            assert(q0[k + 1] == x);
                            assert(q0[0].value() < q0[k + 1].value());
                        }
                        let r1 = st.running_tests@;
                        assert forall|x: TestId| r1.contains(x) implies old(self)@.running.contains(x)
                            || x == t by {
                            assert(r1.to_set().contains(x));
                        }
                        assert(old(self)@.queued.contains(t));
                        assert(r1.to_set().contains(t));
                        assert(r1.contains(t));
                    }
                    Some(t)
                } else {
                    None
                }
            },
            _ => None,
        }
    }

    /// Records the status of a finished test of this group, if it was running.
    pub fn on_test_done(&mut self, test_id: TestId, status: Status)
        requires
            old(self).wf(),
        ensures
            final(self).wf(),
            final(self)@ == spec_test_done(old(self)@, test_id, status),
    {
        let run_all = self.run_all_tests;
        let own_score = self.score;
        let ghost v = self@;
        let finish = match &mut self.state {
            State::Running(st) => {
                if !remove_id(&mut st.running_tests, test_id) {
                    return;
                }
                proof {
                    let rs = st.running_tests@;
                    assert forall|x: TestId| rs.contains(x) implies v.running.contains(x) && x
                        != test_id by {
                        assert(rs.to_set().contains(x));
                    }
                }
                if status.kind.is_success() {
                    proof {
                        assert(!keys(st.succeeded_tests@).contains(test_id));
                    }
                    insert_result(&mut st.succeeded_tests, (test_id, status));
                    proof {
                        let ks = keys(st.succeeded_tests@);
                        assert forall|x: TestId| ks.contains(x) implies keys(v.succeeded).contains(x)
                            || x == test_id by {
                            assert(ks.to_set().contains(x));
                        }
                    }
                } else {
                    proof {
                        assert(!keys(st.failed_tests@).contains(test_id));
                    }
                    insert_result(&mut st.failed_tests, (test_id, status));
                    if !run_all {
                        st.queued_tests.clear();
                    }
                    proof {
                        let kf = keys(st.failed_tests@);
                        assert forall|x: TestId| kf.contains(x) implies keys(v.failed).contains(x)
                            || x == test_id by {
                            assert(kf.to_set().contains(x));
                        }
                    }
                }
                proof {
                    let q = st.queued_tests@;
                    let r = st.running_tests@;
                    let ks = keys(st.succeeded_tests@);
                    let kf = keys(st.failed_tests@);
                    assert forall|x: TestId| q.contains(x) implies v.queued.contains(x) by {
                        if q.len() > 0 {
                            assert(q == v.queued);
                        }
                    }
                    assert forall|x: TestId| #[trigger] ks.contains(x) implies keys(v.succeeded).contains(x)
                        || x == test_id by {
                        if !status.kind.spec_is_success() {
                            assert(ks == keys(v.succeeded));
                        }
                    }
                    assert forall|x: TestId| #[trigger] kf.contains(x) implies keys(v.failed).contains(x)
                        || x == test_id by {
                        if status.kind.spec_is_success() {
                            assert(kf == keys(v.failed));
                        }
                    }
                    assert(v.running.contains(test_id));
                    assert(!v.queued.contains(test_id));
                    assert(!keys(v.succeeded).contains(test_id));
                    assert(!keys(v.failed).contains(test_id));
                    assert(r.len() < v.running.len());
                }
                if st.queued_tests.len() == 0 && st.running_tests.len() == 0 {
                    let success = st.failed_tests.len() == 0;
                    let mut tests = Vec::new();
                    tests.append(&mut st.failed_tests);
                    tests.append(&mut st.succeeded_tests);
                    Some((success, tests))
                } else {
                    None
                }
            },
            _ => {
                return;
            },
        };
        match finish {
            Some((success, tests)) => {
                let score = if success {
                    own_score
                } else {
                    0
                };
                self.state = State::Finished(FinishedState { score, success, tests });
            },
            None => {},
        }
    }

    /// Appends this group's rows to a judge log; the group must be finished or skipped.
    pub fn update_judge_log(&self, log: &mut JudgeLog)
        requires
            self.wf(),
            self@.phase == Phase::Finished || self@.phase == Phase::Skipped,
            old(log).score + group_score(self@) <= u32::MAX,
        ensures
            final(log).kind == old(log).kind,
            final(log).is_full == old(log).is_full,
            final(log).score == old(log).score + group_score(self@),
            final(log).subtasks@.len() == old(log).subtasks@.len() + 1,
            forall|k: int|
                0 <= k < old(log).subtasks@.len() ==> final(log).subtasks@[k] == old(log).subtasks@[k],
            final(log).subtasks@.last().subtask_id.value() == self@.id,
            final(log).subtasks@.last().score == group_score(self@),
            final(log).subtasks@.last().components == self@.subtask_vis,
            final(log).tests@ == old(log).tests@ + (if self@.phase == Phase::Finished {
                self@.finished_tests.map_values(|e: (TestId, Status)| test_row(self@.test_vis, e))
            } else {
                Seq::empty()
            }),
    {
        let self_score = self.score();
        match &self.state {
            State::Finished(st) => {
                log.score = log.score + self_score;
                log.subtasks.push(
                    JudgeLogSubtaskRow {
                        components: self.subtask_vis_flags,
                        score: self_score,
                        subtask_id: self.id,
                    },
                );
                let n = st.tests.len();
                let mut i: usize = 0;
                let ghost t0 = log.tests@;
                let ghost subs = log.subtasks@;
                let ghost sc = log.score;
                let ghost rows = st.tests@.map_values(
                    |e: (TestId, Status)| test_row(self.test_vis_flags, e),
                );
                while i < n
                    invariant
                        n == st.tests@.len(),
                        rows == st.tests@.map_values(
                            |e: (TestId, Status)| test_row(self.test_vis_flags, e),
                        ),
                        0 <= i <= n,
                        log.tests@ == t0 + rows.take(i as int),
                        log.subtasks@ == subs,
                        log.score == sc,
                        log.kind == old(log).kind,
                        log.is_full == old(log).is_full,
                    decreases n - i,
                {
                    let (test, status) = &st.tests[i];
                    let row = JudgeLogTestRow {
                        components: self.test_vis_flags,
                        test_id: *test,
                        status: status.duplicate(),
                    };
                    log.tests.push(row);
                    proof {
                        assert(rows.take(i + 1) =~= rows.take(i as int).push(rows[i as int]));
                    }
                    i = i + 1;
                }
                proof {
                    assert(rows.take(n as int) =~= rows);
                }
            },
            State::Skipped(_) => {
                log.subtasks.push(
                    JudgeLogSubtaskRow {
                        components: self.subtask_vis_flags,
                        score: 0,
                        subtask_id: self.id,
                    },
                );
                proof {
                    assert(log.tests@ =~= old(log).tests@ + Seq::empty());
                }
            },
            _ => {
                proof {
                    assert(false);
                }
            },
        }
    }

    /// Score gained: the group score if passed, else 0.
    pub fn score(&self) -> (r: u32)
        ensures
            r == group_score(self@),
    {
        if self.is_passed() {
            self.score
        } else {
            0
        }
    }
}

/// The distinct values of `v`.
fn distinct_u32(v: &Vec<u32>) -> (r: Vec<u32>)
    ensures
        r@.no_duplicates(),
        r@.to_set() == v@.to_set(),
{
    let mut r: Vec<u32> = Vec::new();
    let n = v.len();
    let mut i: usize = 0;
    while i < n
        invariant
            n == v@.len(),
            0 <= i <= n,
            r@.no_duplicates(),
            r@.to_set() == v@.take(i as int).to_set(),
        decreases n - i,
    {
        let x = v[i];
        let ghost r0 = r@;
        let ghost q = v@.take(i as int);
        proof {
            assert(v@.take(i + 1) =~= q.push(x));
            lemma_push_to_set(q, x);
        }
        if !contains_u32(&r, x) {
            r.push(x);
            proof {
                lemma_push_to_set(r0, x);
                assert forall|a: int, b: int| 0 <= a < b < r@.len() implies r@[a] != r@[b] by {
                    if b == r0.len() {
                        assert(r0.contains(r0[a]));
                    }
                }
            }
        } else {
            proof {
                assert(r0.to_set().insert(x) =~= r0.to_set());
            }
        }
        i = i + 1;
    }
    proof {
        assert(v@.take(n as int) =~= v@);
    }
    r
}

proof fn lemma_push_to_set(q: Seq<u32>, x: u32)
    ensures
        q.push(x).to_set() == q.to_set().insert(x),
{
    assert forall|y: u32| #[trigger] q.push(x).to_set().contains(y) <==> q.to_set().insert(x).contains(y) by {
        if q.push(x).contains(y) {
            let k = choose|k: int| 0 <= k < q.push(x).len() && q.push(x)[k] == y;
            if k < q.len() {
                assert(q[k] == y);
                assert(q.contains(y));
            }
        }
        if q.contains(y) {
            let k = choose|k: int| 0 <= k < q.len() && q[k] == y;
            assert(q.push(x)[k] == y);
            assert(q.push(x).contains(y));
        }
        if y == x {
            assert(q.push(x)[q.len() as int] == y);
            assert(q.push(x).contains(y));
        }
    }
    assert(q.push(x).to_set() =~= q.to_set().insert(x));
}

/// Whether `v` holds `x`.
fn contains_u32(v: &Vec<u32>, x: u32) -> (r: bool)
    ensures
        r == v@.contains(x),
        r == v@.to_set().contains(x),
{
    let n = v.len();
    let mut i: usize = 0;
    while i < n
        invariant
            n == v@.len(),
            0 <= i <= n,
            forall|k: int| 0 <= k < i ==> v@[k] != x,
        decreases n - i,
    {
        if v[i] == x {
            proof {
                assert(v@[i as int] == x);
            }
            return true;
        }
        i = i + 1;
    }
    false
}

/// Removes `x` from the distinct values `v`; returns whether it was there.
fn remove_u32(v: &mut Vec<u32>, x: u32) -> (r: bool)
    requires
        old(v)@.no_duplicates(),
    ensures
        r == old(v)@.to_set().contains(x),
        !r ==> final(v)@ == old(v)@,
        final(v)@.no_duplicates(),
        final(v)@.to_set() == old(v)@.to_set().remove(x),
{
    let n = v.len();
    let mut i: usize = 0;
    let ghost v0 = v@;
    while i < n
        invariant
            n == v@.len(),
            v@ == v0,
            v0 == old(v)@,
            v0.no_duplicates(),
            0 <= i <= n,
            forall|k: int| 0 <= k < i ==> v@[k] != x,
        decreases n - i,
    {
        if v[i] == x {
            v.remove(i);
            proof {
                assert(v0[i as int] == x);
                assert(v0.contains(x));
                assert(v0.to_set().contains(x));
                v0.remove_ensures(i as int);
                assert forall|y: u32| #[trigger] v@.to_set().contains(y) <==> v0.to_set().remove(x).contains(y) by {
                    if v@.contains(y) {
                        let j = choose|j: int| 0 <= j < v@.len() && v@[j] == y;
                        if j < i {
                            assert(v0[j] == y);
                            assert(v0.contains(y));
                        } else {
                            assert(v0[j + 1] == y);
                            assert(v0.contains(y));
                        }
                    }
                    if v0.contains(y) && y != x {
                        let j = choose|j: int| 0 <= j < v0.len() && v0[j] == y;
                        if j < i {
                            assert(v@[j] == y);
                            assert(v@.contains(y));
                        } else {
                            assert(j != i);
                            assert(v@[j - 1] == y);
                            assert(v@.contains(y));
                        }
                    }
                }
                assert(v@.to_set() =~= v0.to_set().remove(x));
                assert forall|a: int, b: int| 0 <= a < b < v@.len() implies v@[a] != v@[b] by {
                    let a0 = if a < i { a } else { a + 1 };
                    let b0 = if b < i { b } else { b + 1 };
                    assert(v@[a] == v0[a0] && v@[b] == v0[b0]);
                }
            }
            return true;
        }
        i = i + 1;
    }
    proof {
        assert(!v0.contains(x));
        assert(v@.to_set() =~= v0.to_set().remove(x));
    }
    false
}

} // verus!
