//! The simple valuer: two fibers (full and contestant judge logs) driven
//! step by step. The valuer only decides; its driver performs each step's
//! I/O (sending commands, polling finished tests) and hands results back.
use vstd::prelude::*;
use crate::cfg::Config;
use crate::fiber::{
    Fiber, FiberReply, FiberView, fiber_config_ok, hands_out, idle, is_new_fiber, is_judge_log_of, poll_step,
    running_sum, score_sum,
};
use crate::group::{GroupView, spec_test_done};
use crate::ordered::{ids_sorted, contains_id, insert_id};
use crate::pom::TestId;
use crate::valuer_proto::{
    JudgeLogKind, ProblemInfo, Status, StatusKind, TestDoneNotification, ValuerResponse,
};

verus! {

/// What one step of the valuer came to.
#[derive(Debug)]
pub enum StepOutcome {
    /// Send this command; the step is done.
    Send(ValuerResponse),
    /// The step is done and nothing needs sending.
    Continue,
    /// The fibers have nothing to say: poll for a finished test and hand
    /// the result to [`SimpleValuer::on_notification`].
    PollNotification,
}

/// The simple valuer.
pub struct SimpleValuer {
    /// Amount of tests that are currently running.
    running_tests: u32,
    /// How many fibers did not emit judge log yet.
    running_fibers: usize,
    /// Tests that were requested to run, sorted by id.
    used_tests: Vec<TestId>,
    fibers: Vec<Fiber>,
}

/// Abstract state of a [`SimpleValuer`].
pub struct ValuerView {
    pub running_tests: u32,
    pub running_fibers: usize,
    pub used_tests: Set<TestId>,
    pub fibers: Seq<FiberView>,
}

impl View for SimpleValuer {
    type V = ValuerView;

    closed spec fn view(&self) -> ValuerView {
        ValuerView {
            running_tests: self.running_tests,
            running_fibers: self.running_fibers,
            used_tests: self.used_tests@.to_set(),
            fibers: self.fibers@.map_values(|f: Fiber| f@),
        }
    }
}

/// Number of fibers that have not emitted their judge log.
pub open spec fn unfinished(fs: Seq<FiberView>) -> int {
    (if !fs[0].finished { 1int } else { 0int }) + (if !fs[1].finished { 1int } else { 0int })
}

/// A test finished with this notification is live: the contestant fiber shows it.
pub open spec fn spec_is_live(fs: Seq<FiberView>, t: TestId) -> bool {
    exists|i: int|
        0 <= i < fs.len() && #[trigger] fs[i].kind == JudgeLogKind::Contestant && fs[i].visible_tests.contains(t)
}

/// The fiber state after a finished-test notification.
pub open spec fn fiber_after(v: FiberView, n: TestDoneNotification) -> FiberView {
    if v.visible_tests.contains(n.test_id) {
        FiberView {
            groups: v.groups.map_values(|g: GroupView| spec_test_done(g, n.test_id, n.test_status)),
            ..v
        }
    } else {
        v
    }
}

/// The valuer can take notification `n`: a test runs, and no fiber that
/// shows the test has emitted its judge log.
pub open spec fn spec_accepts(v: ValuerView, n: TestDoneNotification) -> bool {
    &&& v.running_tests != 0
    &&& forall|i: int|
        0 <= i < v.fibers.len() && (#[trigger] v.fibers[i]).visible_tests.contains(n.test_id) ==> !v.fibers[i].finished
}

/// A reply that lets the valuer go on to the next fiber: nothing, or a live
/// score of a fiber other than the contestant's.
pub open spec fn quiet(kind: JudgeLogKind, r: FiberReply) -> bool {
    r is Nothing || (r is LiveScore && kind != JudgeLogKind::Contestant)
}

/// Fiber `j` was polled from `old` to `new` and gave a quiet reply.
pub open spec fn polled_quiet(old: FiberView, new: FiberView) -> bool {
    exists|r: FiberReply| #[trigger] poll_step(old, new, r) && quiet(old.kind, r)
}

/// The fibers `old` were polled in order up to fiber `i`, which gave `ri`:
/// the fibers before it gave quiet replies, and those after it were not
/// polled.
pub open spec fn polled_to(old: Seq<FiberView>, new: Seq<FiberView>, i: int, ri: FiberReply) -> bool {
    &&& 0 <= i < 2
    &&& poll_step(old[i], new[i], ri)
    &&& forall|j: int| 0 <= j < i ==> #[trigger] polled_quiet(old[j], new[j])
    &&& forall|j: int| i < j < 2 ==> #[trigger] new[j] == old[j]
}

/// Sorted test ids that are not 0 are fewer than `u32::MAX`.
proof fn lemma_sorted_ids_len(s: Seq<TestId>)
    requires
        ids_sorted(s),
        forall|k: int| 0 <= k < s.len() ==> (#[trigger] s[k]).value() != 0,
    ensures
        s.len() <= u32::MAX,
{
    if s.len() > 0 {
        assert forall|k: int| 0 <= k < s.len() implies (#[trigger] s[k]).value() >= k + 1 by {
            lemma_sorted_ids_grow(s, k);
        }
        assert(s[s.len() - 1].value() >= s.len());
    }
}

proof fn lemma_sorted_ids_grow(s: Seq<TestId>, k: int)
    requires
        ids_sorted(s),
        forall|j: int| 0 <= j < s.len() ==> (#[trigger] s[j]).value() != 0,
        0 <= k < s.len(),
    ensures
        s[k].value() >= k + 1,
    decreases k,
{
    if k > 0 {
        lemma_sorted_ids_grow(s, k - 1);
        assert(s[k - 1].value() < s[k].value());
    }
}

impl SimpleValuer {
    /// The state invariant of the valuer.
    pub closed spec fn wf(&self) -> bool {
        let v = self@;
        &&& self.fibers@.len() == 2
        &&& forall|i: int| 0 <= i < 2 ==> (#[trigger] self.fibers@[i]).wf()
        &&& v.fibers[0].kind == JudgeLogKind::Full
        &&& v.fibers[1].kind == JudgeLogKind::Contestant
        &&& self.running_fibers == unfinished(v.fibers)
        &&& ids_sorted(self.used_tests@)
        &&& forall|k: int| 0 <= k < self.used_tests@.len() ==> (#[trigger] self.used_tests@[k]).value() != 0
        &&& self.running_tests <= self.used_tests@.len()
    }

    /// A valuer with a full and a contestant fiber built from `cfg`; no test
    /// has been requested yet.
    pub fn new(cfg: &Config, problem_info: &ProblemInfo) -> (r: SimpleValuer)
        requires
            fiber_config_ok(cfg.groups@, problem_info.tests@, JudgeLogKind::Full),
            fiber_config_ok(cfg.groups@, problem_info.tests@, JudgeLogKind::Contestant),
        ensures
            r.wf(),
            r@.running_tests == 0,
            r@.running_fibers == 2,
            r@.used_tests.is_empty(),
            r@.fibers.len() == 2,
            is_new_fiber(cfg.groups@, problem_info.tests@, JudgeLogKind::Full, r@.fibers[0]),
            is_new_fiber(cfg.groups@, problem_info.tests@, JudgeLogKind::Contestant, r@.fibers[1]),
    {
        let mut fibers: Vec<Fiber> = Vec::new();
        fibers.push(Fiber::new(cfg, problem_info, JudgeLogKind::Full));
        fibers.push(Fiber::new(cfg, problem_info, JudgeLogKind::Contestant));
        let fibers_cnt = fibers.len();
        let r = SimpleValuer { running_tests: 0, used_tests: Vec::new(), fibers, running_fibers: fibers_cnt };
        proof {
            assert(r@.fibers[0] == r.fibers@[0]@);
            assert(r@.fibers[1] == r.fibers@[1]@);
            assert(r@.used_tests =~= Set::<TestId>::empty());
        }
        r
    }

    /// Whether `new` can take `cfg`: both fibers can be built and run to
    /// their judge logs.
    pub fn config_ok(cfg: &Config, problem_info: &ProblemInfo) -> (r: bool)
        ensures
            r == (fiber_config_ok(cfg.groups@, problem_info.tests@, JudgeLogKind::Full) && fiber_config_ok(
                cfg.groups@,
                problem_info.tests@,
                JudgeLogKind::Contestant,
            )),
    {
        Fiber::config_ok(cfg, problem_info, JudgeLogKind::Full) && Fiber::config_ok(
            cfg,
            problem_info,
            JudgeLogKind::Contestant,
        )
    }

    /// Amount of tests that are currently running.
    pub fn running_tests(&self) -> (r: u32)
        ensures
            r == self@.running_tests,
    {
        self.running_tests
    }

    /// How many fibers did not emit their judge log yet.
    pub fn running_fibers(&self) -> (r: usize)
        ensures
            r == self@.running_fibers,
    {
        self.running_fibers
    }

    /// Whether the valuer can take notification `n` (see [`spec_accepts`]).
    pub fn accepts(&self, n: &TestDoneNotification) -> (r: bool)
        requires
            self.wf(),
        ensures
            r == spec_accepts(self@, *n),
    {
        proof {
            assert(self@.fibers[0] == self.fibers@[0]@);
            assert(self@.fibers[1] == self.fibers@[1]@);
        }
        if self.running_tests == 0 {
            return false;
        }
        let mut i: usize = 0;
        while i < 2
            invariant
                self.wf(),
                self.running_tests != 0,
                0 <= i <= 2,
                forall|j: int|
                    0 <= j < i && (#[trigger] self@.fibers[j]).visible_tests.contains(n.test_id) ==> !self@.fibers[j].finished,
            decreases 2 - i,
        {
            proof {
                assert(self@.fibers[i as int] == self.fibers@[i as int]@);
            }
            if self.fibers[i].is_visible(n.test_id) && self.fibers[i].is_finished() {
                return false;
            }
            i = i + 1;
        }
        true
    }

    /// Requests test `test_id` unless it was requested before.
    fn send_run_on_test_query(&mut self, test_id: TestId, live: bool) -> (r: StepOutcome)
        requires
            old(self).wf(),
        ensures
            final(self).wf(),
            final(self)@.fibers == old(self)@.fibers,
            final(self)@.running_fibers == old(self)@.running_fibers,
            old(self)@.used_tests.contains(test_id) ==> r is Continue && final(self)@ == old(self)@,
            !old(self)@.used_tests.contains(test_id) ==> {
                &&& r == StepOutcome::Send(ValuerResponse::Test { test_id, live })
                &&& final(self)@.used_tests == old(self)@.used_tests.insert(test_id)
                &&& final(self)@.running_tests == old(self)@.running_tests + 1
            },
    {
        if contains_id(&self.used_tests, test_id) {
            return StepOutcome::Continue;
        }
        let _id = test_id.get();
        let ghost u0 = self.used_tests@;
        insert_id(&mut self.used_tests, test_id);
        proof {
            crate::ordered::lemma_lower_bound(u0, test_id.value());
            let p = crate::ordered::lower_bound(u0, test_id.value());
            assert forall|k: int| 0 <= k < self.used_tests@.len() implies (#[trigger] self.used_tests@[k]).value() != 0 by {
                assert(_id != 0);
                if k < p {
                    assert(self.used_tests@[k] == u0[k]);
                } else if k > p {
                    assert(self.used_tests@[k] == u0[k - 1]);
                }
            }
            lemma_sorted_ids_len(self.used_tests@);
        }
        self.running_tests = self.running_tests + 1;
        StepOutcome::Send(ValuerResponse::Test { test_id, live })
    }

    /// Whether some fiber shows test `test_id` live.
    fn is_live(&self, test_id: TestId) -> (r: bool)
        requires
            self.wf(),
        ensures
            r == spec_is_live(self@.fibers, test_id),
    {
        let mut i: usize = 0;
        while i < 2
            invariant
                self.wf(),
                0 <= i <= 2,
                forall|j: int|
                    0 <= j < i ==> !(#[trigger] self@.fibers[j].kind == JudgeLogKind::Contestant
                        && self@.fibers[j].visible_tests.contains(test_id)),
            decreases 2 - i,
        {
            proof {
                assert(self@.fibers[i as int] == self.fibers@[i as int]@);
            }
            if self.fibers[i].test_is_live(test_id) {
                return true;
            }
            i = i + 1;
        }
        proof {
            assert(self@.fibers.len() == 2);
        }
        false
    }
    /// One step of the valuer up to polling for a finished test: the fibers
    /// are polled in order, and the first that has something to say ends the
    /// step. A new live score counts only from the contestant fiber; a test
    /// is requested once, however many fibers ask for it.
    pub fn poll_fibers(&mut self) -> (r: StepOutcome)
        requires
            old(self).wf(),
        ensures
            final(self).wf(),
            final(self)@.fibers.len() == 2,
            forall|i: int| 0 <= i < 2 ==> (#[trigger] final(self)@.fibers[i]).kind == old(self)@.fibers[i].kind,
            match r {
                StepOutcome::Send(ValuerResponse::LiveScore { score }) => {
                    &&& polled_to(old(self)@.fibers, final(self)@.fibers, 1, FiberReply::LiveScore { score })
                    &&& score == score_sum(old(self)@.fibers[1].groups)
                    &&& score != old(self)@.fibers[1].last_live_score
                    &&& final(self)@.fibers[1] == (FiberView { last_live_score: score, ..old(self)@.fibers[1] })
                    &&& final(self)@.used_tests == old(self)@.used_tests
                    &&& final(self)@.running_tests == old(self)@.running_tests
                    &&& final(self)@.running_fibers == old(self)@.running_fibers
                },
                StepOutcome::Send(ValuerResponse::Test { test_id, live }) => {
                    &&& exists|i: int| polled_to(old(self)@.fibers, final(self)@.fibers, i, FiberReply::Test { test_id })
                    &&& !old(self)@.used_tests.contains(test_id)
                    &&& final(self)@.used_tests == old(self)@.used_tests.insert(test_id)
                    &&& final(self)@.running_tests == old(self)@.running_tests + 1
                    &&& final(self)@.running_fibers == old(self)@.running_fibers
                    &&& live == spec_is_live(final(self)@.fibers, test_id)
                    &&& exists|i: int|
                        0 <= i < 2 && (#[trigger] final(self)@.fibers[i]).visible_tests.contains(test_id) && hands_out(
                            old(self)@.fibers[i].groups,
                            final(self)@.fibers[i].groups,
                            test_id,
                        )
                },
                StepOutcome::Continue => {
                    &&& exists|i: int, t: TestId|
                        old(self)@.used_tests.contains(t) && polled_to(
                            old(self)@.fibers,
                            final(self)@.fibers,
                            i,
                            FiberReply::Test { test_id: t },
                        )
                    &&& exists|i: int, t: TestId|
                        0 <= i < 2 && old(self)@.used_tests.contains(t) && #[trigger] hands_out(
                            old(self)@.fibers[i].groups,
                            final(self)@.fibers[i].groups,
                            t,
                        )
                    &&& final(self)@.used_tests == old(self)@.used_tests
                    &&& final(self)@.running_tests == old(self)@.running_tests
                    &&& final(self)@.running_fibers == old(self)@.running_fibers
                },
                StepOutcome::Send(ValuerResponse::JudgeLog(log)) => {
                    &&& exists|i: int| polled_to(old(self)@.fibers, final(self)@.fibers, i, FiberReply::Finish(log))
                    &&& final(self)@.running_fibers == old(self)@.running_fibers - 1
                    &&& exists|i: int|
                        0 <= i < 2 && !old(self)@.fibers[i].finished && (#[trigger] final(self)@.fibers[i]).finished
                            && is_judge_log_of(log, final(self)@.fibers[i].kind, final(self)@.fibers[i].groups)
                    &&& final(self)@.used_tests == old(self)@.used_tests
                    &&& final(self)@.running_tests == old(self)@.running_tests
                },
                StepOutcome::PollNotification => {
                    &&& forall|j: int| 0 <= j < 2 ==> #[trigger] polled_quiet(old(self)@.fibers[j], final(self)@.fibers[j])
                    &&& final(self)@.used_tests == old(self)@.used_tests
                    &&& final(self)@.running_tests == old(self)@.running_tests
                    &&& final(self)@.running_fibers == old(self)@.running_fibers
                    &&& forall|i: int|
                        0 <= i < 2 ==> (#[trigger] final(self)@.fibers[i]).finished || (running_sum(
                            final(self)@.fibers[i].groups,
                        ) > 0 && idle(final(self)@.fibers[i].groups)) || (i == 0
                            && final(self)@.fibers[i].last_live_score != old(self)@.fibers[i].last_live_score)
                },
                _ => false,
            },
    {
        let mut i: usize = 0;
        while i < 2
            invariant
                self.wf(),
                old(self).wf(),
                old(self)@.fibers.len() == 2,
                0 <= i <= 2,
                self@.used_tests == old(self)@.used_tests,
                self@.running_tests == old(self)@.running_tests,
                self@.running_fibers == old(self)@.running_fibers,
                self@.fibers.len() == 2,
                forall|j: int| 0 <= j < 2 ==> (#[trigger] self@.fibers[j]).kind == old(self)@.fibers[j].kind,
                forall|j: int| i <= j < 2 ==> #[trigger] self@.fibers[j] == old(self)@.fibers[j],
                forall|j: int| 0 <= j < i ==> #[trigger] polled_quiet(old(self)@.fibers[j], self@.fibers[j]),
                forall|j: int|
                    0 <= j < i ==> (#[trigger] self@.fibers[j]).finished || (running_sum(self@.fibers[j].groups) > 0
                        && idle(self@.fibers[j].groups)) || (j == 0 && self@.fibers[j].last_live_score
                        != old(self)@.fibers[j].last_live_score),
            decreases 2 - i,
        {
            let ghost before = self.fibers@;
            let ghost fv0 = self@.fibers;
            proof {
                assert(self@.fibers[i as int] == self.fibers@[i as int]@);
                self.fibers@[i as int].lemma_score_fits();
            }
            let mut f = self.fibers.remove(i);
            let ghost fb = f@;
            let reply = f.poll();
            let ghost rg = reply;
            let kind = f.kind();
            self.fibers.insert(i, f);
            proof {
                assert(self.fibers@ =~= before.update(i as int, f));
                assert(self@.fibers =~= fv0.update(i as int, f@));
                assert forall|j: int| 0 <= j < 2 implies (#[trigger] self.fibers@[j]).wf() by {
                    if j != i {
                        assert(self.fibers@[j] == before[j]);
                    }
                }
            }
            proof {
                assert(fv0[i as int] == old(self)@.fibers[i as int]);
                assert(self@.fibers[i as int] == f@);
                assert(self@.fibers[0].kind == JudgeLogKind::Full);
                assert(fb == old(self)@.fibers[i as int]);
                assert(poll_step(old(self)@.fibers[i as int], self@.fibers[i as int], rg));
                assert forall|j: int| 0 <= j < i implies #[trigger] polled_quiet(
                    old(self)@.fibers[j],
                    self@.fibers[j],
                ) by {
                    assert(self@.fibers[j] == fv0[j]);
                }
                assert forall|j: int| i < j < 2 implies #[trigger] self@.fibers[j] == old(self)@.fibers[j] by {
                    assert(self@.fibers[j] == fv0[j]);
                }
                assert(polled_to(old(self)@.fibers, self@.fibers, i as int, rg));
                if quiet(old(self)@.fibers[i as int].kind, rg) {
                    assert(polled_quiet(old(self)@.fibers[i as int], self@.fibers[i as int]));
                }
            }
            match reply {
                FiberReply::LiveScore { score } => {
                    if kind == JudgeLogKind::Contestant {
                        proof {
                            assert(i == 1);
                        }
                        return StepOutcome::Send(ValuerResponse::LiveScore { score });
                    }
                },
                FiberReply::Test { test_id } => {
                    let live = self.is_live(test_id);
                    let out = self.send_run_on_test_query(test_id, live);
                    proof {
                        assert(polled_to(old(self)@.fibers, self@.fibers, i as int, FiberReply::Test { test_id }));
                        if let StepOutcome::Send(ValuerResponse::Test { test_id: t2, live: _ }) = out {
                            assert(t2 == test_id);
                            assert(exists|i: int|
                                polled_to(old(self)@.fibers, self@.fibers, i, FiberReply::Test { test_id: t2 }));
                        }
                        if out is Continue {
                            assert(old(self)@.used_tests.contains(test_id));
                            assert(exists|i: int, t: TestId|
                                old(self)@.used_tests.contains(t) && polled_to(
                                    old(self)@.fibers,
                                    self@.fibers,
                                    i,
                                    FiberReply::Test { test_id: t },
                                ));
                        }
                    }
                    return out;
                },
                FiberReply::Finish(judge_log) => {
                    self.running_fibers = self.running_fibers - 1;
                    return StepOutcome::Send(ValuerResponse::JudgeLog(judge_log));
                },
                FiberReply::Nothing => {},
            }
            i = i + 1;
        }
        StepOutcome::PollNotification
    }

    /// Ends a step after polling: takes the finished test into account, if
    /// any, and tells whether valuing goes on (a notification came, a test
    /// still runs or a fiber has not emitted its judge log).
    pub fn on_notification(&mut self, notification: Option<TestDoneNotification>) -> (should_run: bool)
        requires
            old(self).wf(),
            notification matches Some(n) ==> spec_accepts(old(self)@, n),
        ensures
            final(self).wf(),
            final(self)@.running_fibers == old(self)@.running_fibers,
            final(self)@.used_tests == old(self)@.used_tests,
            notification is None ==> final(self)@ == old(self)@ && should_run == (old(self)@.running_tests != 0
                || old(self)@.running_fibers != 0),
            notification matches Some(n) ==> {
                &&& should_run
                &&& final(self)@.running_tests == old(self)@.running_tests - 1
                &&& final(self)@.fibers.len() == 2
                &&& forall|i: int| 0 <= i < 2 ==> #[trigger] final(self)@.fibers[i] == fiber_after(old(self)@.fibers[i], n)
            },
    {
        match notification {
            Some(n) => {
                self.running_tests = self.running_tests - 1;
                let mut i: usize = 0;
                while i < 2
                    invariant
                        self.fibers@.len() == 2,
                        old(self)@.fibers.len() == 2,
                        forall|j: int| 0 <= j < 2 ==> (#[trigger] self.fibers@[j]).wf(),
                        0 <= i <= 2,
                        self@.used_tests == old(self)@.used_tests,
                        self@.running_tests == old(self)@.running_tests - 1,
                        self@.running_fibers == old(self)@.running_fibers,
                        self.used_tests == old(self).used_tests,
                        spec_accepts(old(self)@, n),
                        self@.fibers.len() == 2,
                        forall|j: int| i <= j < 2 ==> #[trigger] self@.fibers[j] == old(self)@.fibers[j],
                        forall|j: int| 0 <= j < i ==> #[trigger] self@.fibers[j] == fiber_after(old(self)@.fibers[j], n),
                    decreases 2 - i,
                {
                    let ghost before = self.fibers@;
                    let ghost fv0 = self@.fibers;
                    proof {
                        assert(self@.fibers[i as int] == self.fibers@[i as int]@);
                        assert(old(self)@.fibers[i as int] == fv0[i as int]);
                        assert(old(self)@.fibers[i as int].visible_tests.contains(n.test_id)
                            ==> !old(self)@.fibers[i as int].finished);
                    }
                    let mut f = self.fibers.remove(i);
                    f.add(&n);
                    self.fibers.insert(i, f);
                    proof {
                        assert(self.fibers@ =~= before.update(i as int, f));
                        assert(self@.fibers =~= fv0.update(i as int, f@));
                        assert forall|j: int| 0 <= j < 2 implies (#[trigger] self.fibers@[j]).wf() by {
                            if j != i {
                                assert(self.fibers@[j] == before[j]);
                            }
                        }
                    }
                    i = i + 1;
                }
                true
            },
            None => self.running_tests != 0 || self.running_fibers != 0,
        }
    }
}

/// The requested tests `used` across a run of valuer steps, with the test
/// each step requested, if any: what `poll_fibers` and `on_notification`
/// state of `used_tests`.
pub open spec fn requests_ok(used: Seq<Set<TestId>>, reqs: Seq<Option<TestId>>) -> bool {
    &&& used.len() == reqs.len() + 1
    &&& forall|k: int|
        0 <= k < reqs.len() ==> match #[trigger] reqs[k] {
            Some(t) => !used[k].contains(t) && used[k + 1] == used[k].insert(t),
            None => used[k + 1] == used[k],
        }
}

/// What a step requested before step `b` is among the tests requested at
/// step `b`.
proof fn lemma_requested_kept(used: Seq<Set<TestId>>, reqs: Seq<Option<TestId>>, a: int, b: int)
    requires
        requests_ok(used, reqs),
        0 <= a < b <= reqs.len(),
        reqs[a] is Some,
    ensures
        used[b].contains(reqs[a]->0),
    decreases b - a,
{
    if b == a + 1 {
        assert(used[a + 1] == used[a].insert(reqs[a]->0));
    } else {
        lemma_requested_kept(used, reqs, a, b - 1);
        let k = b - 1;
        match reqs[k] {
            Some(t) => {
                assert(used[k + 1] == used[k].insert(t));
            },
            None => {
                assert(used[k + 1] == used[k]);
            },
        }
    }
}

/// Over any run of the valuer, no test is requested twice: two steps that
/// request a test request different ones.
pub proof fn lemma_no_test_requested_twice(used: Seq<Set<TestId>>, reqs: Seq<Option<TestId>>, a: int, b: int)
    requires
        requests_ok(used, reqs),
        0 <= a < b < reqs.len(),
        reqs[a] is Some,
        reqs[b] is Some,
    ensures
        reqs[a]->0 != reqs[b]->0,
{
    lemma_requested_kept(used, reqs, a, b);
    assert(!used[b].contains(reqs[b]->0));
}

/// Status of a passed test, as the valuer's own checks produce it.
pub fn make_ok_status() -> (r: Status)
    ensures
        r.code@ == "OK"@,
        r.kind == StatusKind::Accepted,
{
    Status { code: "OK".to_owned(), kind: StatusKind::Accepted }
}

/// Status of a failed test, as the valuer's own checks produce it.
pub fn make_err_status() -> (r: Status)
    ensures
        r.code@ == "NOT_OK"@,
        r.kind == StatusKind::Rejected,
{
    Status { code: "NOT_OK".to_owned(), kind: StatusKind::Rejected }
}

} // verus!
