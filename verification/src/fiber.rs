//! A fiber builds one judge log: it drives the groups visible to one
//! audience, asks for tests to run and emits the judge log when done.
use vstd::prelude::*;
use crate::cfg::{Config, FeedbackKind, GroupRef, spec_get_group, spec_tests_tag};
use crate::group::{Group, GroupView, Phase, group_score, group_wf, test_row, queue_of, spec_test_done};
use crate::ordered::{ids_sorted, contains_id, insert_id, lower_bound, lemma_lower_bound};
use crate::pom::TestId;
use crate::text::str_eq;
use crate::valuer_proto::{
    JudgeLog, JudgeLogKind, JudgeLogSubtaskRow, JudgeLogTestRow, ProblemInfo, Status, SubtaskVisibleComponents,
    TestDoneNotification, TestVisibleComponents,
};

verus! {

/// How much of a group is shown, before taking the audience into account.
#[derive(Debug, Clone, Copy, PartialEq, Eq, Structural)]
pub enum GroupVisPreset {
    Full,
    Brief,
    Hidden,
}

/// Preset of a feedback kind.
pub open spec fn preset_of(f: FeedbackKind) -> GroupVisPreset {
    match f {
        FeedbackKind::Brief => GroupVisPreset::Brief,
        FeedbackKind::Full => GroupVisPreset::Full,
        FeedbackKind::Hidden => GroupVisPreset::Hidden,
    }
}

/// Subtask components shown to audience `k`.
pub open spec fn spec_subtask_flags_for(p: GroupVisPreset, k: JudgeLogKind) -> SubtaskVisibleComponents {
    SubtaskVisibleComponents {
        score: p == GroupVisPreset::Full || k == JudgeLogKind::Full || p == GroupVisPreset::Brief,
    }
}

/// Test components shown to audience `k`.
pub open spec fn spec_test_flags_for(p: GroupVisPreset, k: JudgeLogKind) -> TestVisibleComponents {
    if p == GroupVisPreset::Full || k == JudgeLogKind::Full {
        TestVisibleComponents::spec_all()
    } else if p == GroupVisPreset::Brief {
        TestVisibleComponents::spec_status_only()
    } else {
        TestVisibleComponents::spec_empty()
    }
}

/// Whether the group is in the judge log for audience `k`.
pub open spec fn spec_is_visible_for(p: GroupVisPreset, k: JudgeLogKind) -> bool {
    match p {
        GroupVisPreset::Brief | GroupVisPreset::Full => true,
        GroupVisPreset::Hidden => k == JudgeLogKind::Full,
    }
}

impl GroupVisPreset {
    /// Preset of a feedback kind.
    pub fn of(f: FeedbackKind) -> (r: GroupVisPreset)
        ensures
            r == preset_of(f),
    {
        match f {
            FeedbackKind::Brief => GroupVisPreset::Brief,
            FeedbackKind::Full => GroupVisPreset::Full,
            FeedbackKind::Hidden => GroupVisPreset::Hidden,
        }
    }

    /// Subtask components shown to audience `k`.
    pub fn subtask_flags_for(self, k: JudgeLogKind) -> (r: SubtaskVisibleComponents)
        ensures
            r == spec_subtask_flags_for(self, k),
    {
        let mut out = SubtaskVisibleComponents::empty();
        if self == GroupVisPreset::Full || k == JudgeLogKind::Full {
            out = out.union(SubtaskVisibleComponents::all());
        }
        if self == GroupVisPreset::Brief || k == JudgeLogKind::Full {
            out = out.union(SubtaskVisibleComponents::score_only());
        }
        out
    }

    /// Test components shown to audience `k`.
    pub fn test_flags_for(self, k: JudgeLogKind) -> (r: TestVisibleComponents)
        ensures
            r == spec_test_flags_for(self, k),
    {
        let mut out = TestVisibleComponents::empty();
        if self == GroupVisPreset::Full || k == JudgeLogKind::Full {
            out = out.union(TestVisibleComponents::all());
        }
        if self == GroupVisPreset::Brief {
            out = out.union(TestVisibleComponents::status_only());
        }
        out
    }

    /// Whether the group is in the judge log for audience `k`.
    pub fn is_visible_for(self, k: JudgeLogKind) -> (r: bool)
        ensures
            r == spec_is_visible_for(self, k),
    {
        match self {
            GroupVisPreset::Brief | GroupVisPreset::Full => true,
            GroupVisPreset::Hidden => k == JudgeLogKind::Full,
        }
    }
}

/// Config group `c` is shown to audience `k`.
pub open spec fn cfg_visible(groups: Seq<crate::cfg::Group>, k: JudgeLogKind, c: int) -> bool {
    spec_is_visible_for(preset_of(groups[c].feedback), k)
}

/// Indices of the config groups shown to audience `k`, in order.
pub open spec fn visible_indices(groups: Seq<crate::cfg::Group>, k: JudgeLogKind, n: int) -> Seq<int>
    decreases n,
{
    if n <= 0 {
        Seq::empty()
    } else {
        let prev = visible_indices(groups, k, n - 1);
        if cfg_visible(groups, k, n - 1) {
            prev.push(n - 1)
        } else {
            prev
        }
    }
}

/// Ids (1-based) of the tests whose tag is `tag`, among the first `n` tests.
pub open spec fn matching_tests(tags: Seq<String>, tag: Seq<char>, n: int) -> Seq<u32>
    decreases n,
{
    if n <= 0 {
        Seq::empty()
    } else {
        let prev = matching_tests(tags, tag, n - 1);
        if tags[n - 1]@ == tag {
            prev.push(n as u32)
        } else {
            prev
        }
    }
}

/// Dependencies of config group `i` as seen by a fiber: the resolved group
/// indices, except groups before `i` that are not shown to audience `k`.
pub open spec fn fiber_deps(
    groups: Seq<crate::cfg::Group>,
    k: JudgeLogKind,
    i: int,
    deps: Seq<GroupRef>,
) -> Seq<u32>
    decreases deps.len(),
{
    if deps.len() == 0 {
        Seq::empty()
    } else {
        let prev = fiber_deps(groups, k, i, deps.drop_last());
        match spec_get_group(groups, deps.last()) {
            Some(c) => if c < i && !cfg_visible(groups, k, c) {
                prev
            } else {
                prev.push(c as u32)
            },
            None => prev,
        }
    }
}

/// Total score of the config groups shown to audience `k` among the first `n`.
pub open spec fn visible_score_sum(groups: Seq<crate::cfg::Group>, k: JudgeLogKind, n: int) -> int
    decreases n,
{
    if n <= 0 {
        0
    } else {
        visible_score_sum(groups, k, n - 1) + if cfg_visible(groups, k, n - 1) {
            groups[n - 1].score as int
        } else {
            0
        }
    }
}

/// Total number of tests of the config groups shown to audience `k` among the first `n`.
pub open spec fn visible_test_sum(
    groups: Seq<crate::cfg::Group>,
    tags: Seq<String>,
    k: JudgeLogKind,
    n: int,
) -> int
    decreases n,
{
    if n <= 0 {
        0
    } else {
        visible_test_sum(groups, tags, k, n - 1) + if cfg_visible(groups, k, n - 1) {
            matching_tests(tags, spec_tests_tag(groups[n - 1]), tags.len() as int).len() as int
        } else {
            0
        }
    }
}

/// The dependencies of the groups shown to audience `k`, as the fiber sees
/// them, one list per fiber group.
pub open spec fn fiber_dep_lists(cfg: Seq<crate::cfg::Group>, k: JudgeLogKind) -> Seq<Seq<u32>> {
    let vis = visible_indices(cfg, k, cfg.len() as int);
    Seq::new(vis.len(), |f: int| fiber_deps(cfg, k, vis[f], cfg[vis[f]].deps@))
}

/// `rank` gives each node of graph `g` (its lists of successors) a number
/// that each of its successors, all nodes of `g`, has smaller.
pub open spec fn graph_ranked(g: Seq<Seq<u32>>, rank: Seq<nat>) -> bool {
    &&& rank.len() == g.len()
    &&& forall|f: int, d: int|
        0 <= f < g.len() && 0 <= d < g[f].len() ==> (#[trigger] g[f][d] as int) < g.len() && rank[g[f][d] as int]
            < rank[f]
}

/// Graph `g` names only its own nodes and has no cycle.
pub open spec fn graph_acyclic(g: Seq<Seq<u32>>) -> bool {
    exists|rank: Seq<nat>| graph_ranked(g, rank)
}

/// Conditions under which a fiber built from `cfg` for audience `k` valuates
/// without failing: every dependency resolves, scores and test counts fit,
/// every shown group has a test, and the dependencies name groups of the
/// fiber and have no cycle.
pub open spec fn fiber_config_ok(cfg: Seq<crate::cfg::Group>, tags: Seq<String>, k: JudgeLogKind) -> bool {
    let vis = visible_indices(cfg, k, cfg.len() as int);
    &&& cfg.len() < u32::MAX
    &&& tags.len() < u32::MAX
    &&& forall|c: int, d: int|
        0 <= c < cfg.len() && cfg_visible(cfg, k, c) && 0 <= d < cfg[c].deps@.len()
            ==> #[trigger] spec_get_group(cfg, cfg[c].deps@[d]) is Some
    &&& visible_score_sum(cfg, k, cfg.len() as int) <= u32::MAX
    &&& visible_test_sum(cfg, tags, k, cfg.len() as int) <= u32::MAX
    &&& forall|f: int|
        0 <= f < vis.len() ==> matching_tests(tags, spec_tests_tag(cfg[#[trigger] vis[f]]), tags.len() as int).len()
            > 0
    &&& graph_acyclic(fiber_dep_lists(cfg, k))
}

/// Reply of a fiber to a poll.
#[derive(Debug)]
pub enum FiberReply {
    /// Run this test.
    Test { test_id: TestId },
    /// The judge log is complete.
    Finish(JudgeLog),
    /// Nothing to do yet.
    Nothing,
    /// The live score changed.
    LiveScore { score: u32 },
}

/// Creates a single judge log. The valuer aggregates several fibers, one per
/// judge log kind.
pub struct Fiber {
    kind: JudgeLogKind,
    /// If test is not in this set, it will not be included into judge log.
    visible_tests: Vec<TestId>,
    // contains indices for `groups`
    active_groups: Vec<usize>,
    groups: Vec<Group>,
    finished: bool,
    last_live_score: u32,
}

/// Abstract state of a [`Fiber`].
pub struct FiberView {
    pub kind: JudgeLogKind,
    pub visible_tests: Set<TestId>,
    pub active_groups: Seq<usize>,
    pub groups: Seq<GroupView>,
    pub finished: bool,
    pub last_live_score: u32,
}

impl View for Fiber {
    type V = FiberView;

    closed spec fn view(&self) -> FiberView {
        FiberView {
            kind: self.kind,
            visible_tests: self.visible_tests@.to_set(),
            active_groups: self.active_groups@,
            groups: self.groups@.map_values(|g: Group| g@),
            finished: self.finished,
            last_live_score: self.last_live_score,
        }
    }
}

/// Sum of the scores gained by the groups.
pub open spec fn score_sum(groups: Seq<GroupView>) -> int
    decreases groups.len(),
{
    if groups.len() == 0 {
        0
    } else {
        score_sum(groups.drop_last()) + group_score(groups.last())
    }
}

/// Sum of the configured scores of the groups.
pub open spec fn max_score_sum(groups: Seq<GroupView>) -> int
    decreases groups.len(),
{
    if groups.len() == 0 {
        0
    } else {
        max_score_sum(groups.drop_last()) + groups.last().score
    }
}

/// Sum of the numbers of tests of the groups.
pub open spec fn tests_sum(groups: Seq<GroupView>) -> int
    decreases groups.len(),
{
    if groups.len() == 0 {
        0
    } else {
        tests_sum(groups.drop_last()) + groups.last().tests.len()
    }
}

/// Sum of the numbers of running tests of the groups.
pub open spec fn running_sum(groups: Seq<GroupView>) -> int
    decreases groups.len(),
{
    if groups.len() == 0 {
        0
    } else {
        running_sum(groups.drop_last()) + if groups.last().phase == Phase::Running {
            groups.last().running.len() as int
        } else {
            0
        }
    }
}

/// Test rows of a judge log made of the groups, in group order.
pub open spec fn test_rows(groups: Seq<GroupView>) -> Seq<JudgeLogTestRow>
    decreases groups.len(),
{
    if groups.len() == 0 {
        Seq::empty()
    } else {
        test_rows(groups.drop_last()) + if groups.last().phase == Phase::Finished {
            groups.last().finished_tests.map_values(
                |e: (TestId, Status)| test_row(groups.last().test_vis, e),
            )
        } else {
            Seq::empty()
        }
    }
}

/// `log` is the judge log of audience `kind` made of the groups.
pub open spec fn is_judge_log_of(log: JudgeLog, kind: JudgeLogKind, groups: Seq<GroupView>) -> bool {
    &&& log.kind == kind
    &&& log.is_full == (forall|k: int|
        0 <= k < groups.len() ==> #[trigger] groups[k].phase == Phase::Finished && groups[k].success)
    &&& log.score == score_sum(groups)
    &&& log.subtasks@.len() == groups.len()
    &&& forall|k: int|
        0 <= k < groups.len() ==> {
            &&& (#[trigger] log.subtasks@[k]).subtask_id.value() == groups[k].id
            &&& log.subtasks@[k].score == group_score(groups[k])
            &&& log.subtasks@[k].components == groups[k].subtask_vis
        }
    &&& log.tests@ == test_rows(groups)
}

/// The group a fiber builds from config group `c`, right after building.
pub open spec fn built_group(
    cfg: Seq<crate::cfg::Group>,
    tags: Seq<String>,
    k: JudgeLogKind,
    c: int,
    gv: GroupView,
) -> bool {
    let m = matching_tests(tags, spec_tests_tag(cfg[c]), tags.len() as int);
    &&& gv.id == c + 1
    &&& gv.score == cfg[c].score
    &&& gv.tests.len() == m.len()
    &&& forall|t: int| 0 <= t < m.len() ==> (#[trigger] gv.tests[t]).value() == m[t]
    &&& gv.dep_groups == fiber_deps(cfg, k, c, cfg[c].deps@)
    &&& gv.test_vis == spec_test_flags_for(preset_of(cfg[c].feedback), k)
    &&& gv.subtask_vis == spec_subtask_flags_for(preset_of(cfg[c].feedback), k)
    &&& gv.run_all_tests == !cfg[c].run_to_first_failure
    &&& gv.dep_groups.len() == 0 ==> {
        &&& gv.phase == Phase::Running
        &&& queue_of(gv.queued, gv.tests)
        &&& gv.running.len() == 0
        &&& gv.succeeded.len() == 0
        &&& gv.failed.len() == 0
    }
    &&& gv.dep_groups.len() != 0 ==> gv.phase == Phase::Waiting && gv.waiting_deps
        == gv.dep_groups.to_set()
}

/// Every group that some group waits for is a group of `gs` and is not done
/// yet, or is finished but not yet announced (in `rest`), or is in `pending`.
pub open spec fn deps_ok(gs: Seq<GroupView>, rest: Set<int>, pending: Set<int>) -> bool {
    forall|g: int, d: u32|
        #![trigger gs[g].waiting_deps.contains(d)]
        0 <= g < gs.len() && gs[g].phase == Phase::Waiting && gs[g].waiting_deps.contains(d) ==> {
            &&& (d as int) < gs.len()
            &&& {
                ||| gs[d as int].phase == Phase::Waiting
                ||| gs[d as int].phase == Phase::Running
                ||| (gs[d as int].phase == Phase::Finished && rest.contains(d as int))
                ||| pending.contains(d as int)
            }
        }
}

/// `v` is the fiber of audience `k` freshly built from the config groups
/// `cfg` and the test tags `tags`.
pub open spec fn is_new_fiber(cfg: Seq<crate::cfg::Group>, tags: Seq<String>, k: JudgeLogKind, v: FiberView) -> bool {
    let vis = visible_indices(cfg, k, cfg.len() as int);
    &&& v.kind == k
    &&& !v.finished
    &&& v.last_live_score == 0
    &&& v.groups.len() == vis.len()
    &&& v.active_groups == Seq::new(v.groups.len(), |f: int| f as usize)
    &&& forall|f: int| 0 <= f < v.groups.len() ==> built_group(cfg, tags, k, vis[f], #[trigger] v.groups[f])
    &&& forall|t: TestId|
        v.visible_tests.contains(t) <==> exists|f: int| 0 <= f < v.groups.len() && #[trigger] v.groups[f].tests.contains(t)
}

impl Fiber {
    /// The state invariant of the fiber.
    pub closed spec fn wf(&self) -> bool {
        let v = self@;
        let gs = v.groups;
        let n = gs.len();
        &&& forall|f: int| 0 <= f < n ==> (#[trigger] self.groups@[f]).wf()
        &&& forall|f: int| 0 <= f < n ==> (#[trigger] gs[f]).phase != Phase::Building
        &&& forall|f: int| 0 <= f < n ==> (#[trigger] gs[f]).tests.len() > 0
        &&& forall|f: int, d: int|
            0 <= f < n && 0 <= d < gs[f].dep_groups.len() ==> (#[trigger] gs[f].dep_groups[d] as int) < n
        &&& deps_acyclic(gs)
        &&& v.active_groups.no_duplicates()
        &&& forall|x: int, y: int|
            0 <= x < y < v.active_groups.len() ==> (#[trigger] v.active_groups[x]) < (#[trigger] v.active_groups[y])
        &&& forall|t: int| 0 <= t < v.active_groups.len() ==> (#[trigger] v.active_groups[t] as int) < n
        &&& forall|f: int|
            0 <= f < n && (#[trigger] gs[f]).phase != Phase::Finished ==> v.active_groups.contains(
                f as usize,
            )
        &&& deps_ok(gs, v.active_groups.to_set().map(|x: usize| x as int), Set::empty())
        &&& max_score_sum(gs) <= u32::MAX
        &&& tests_sum(gs) <= u32::MAX
        &&& ids_sorted(self.visible_tests@)
        &&& forall|f: int, t: TestId|
            0 <= f < n && #[trigger] gs[f].tests.contains(t) ==> v.visible_tests.contains(t)
    }

    /// Builds the fiber of audience `kind`: one group per config group shown to it.
    pub fn new(cfg: &Config, problem_info: &ProblemInfo, kind: JudgeLogKind) -> (r: Fiber)
        requires
            fiber_config_ok(cfg.groups@, problem_info.tests@, kind),
        ensures
            r.wf(),
            r@.kind == kind,
            !r@.finished,
            r@.last_live_score == 0,
            r@.groups.len() == visible_indices(cfg.groups@, kind, cfg.groups@.len() as int).len(),
            r@.active_groups == Seq::new(r@.groups.len(), |f: int| f as usize),
            forall|f: int|
                0 <= f < r@.groups.len() ==> built_group(
                    cfg.groups@,
                    problem_info.tests@,
                    kind,
                    visible_indices(cfg.groups@, kind, cfg.groups@.len() as int)[f],
                    #[trigger] r@.groups[f],
                ),
            forall|t: TestId|
                r@.visible_tests.contains(t) <==> exists|f: int|
                    0 <= f < r@.groups.len() && #[trigger] r@.groups[f].tests.contains(t),
            is_new_fiber(cfg.groups@, problem_info.tests@, kind, r@),
    {
        let ghost cg = cfg.groups@;
        let ghost tags = problem_info.tests@;
        let ghost nc = cg.len() as int;
        let mut groups: Vec<Group> = Vec::new();
        let mut visible_tests: Vec<TestId> = Vec::new();
        let mut skipped_groups: Vec<usize> = Vec::new();
        let n = cfg.groups.len();
        let mut i: usize = 0;
        while i < n
            invariant
                cg == cfg.groups@,
                tags == problem_info.tests@,
                nc == cg.len(),
                n == cg.len(),
                fiber_config_ok(cg, tags, kind),
                0 <= i <= n,
                groups@.len() == visible_indices(cg, kind, i as int).len(),
                forall|f: int|
                    0 <= f < groups@.len() ==> built_group(
                        cg,
                        tags,
                        kind,
                        visible_indices(cg, kind, i as int)[f],
                        #[trigger] groups@[f]@,
                    ),
                forall|f: int| 0 <= f < groups@.len() ==> (#[trigger] groups@[f]).wf(),
                forall|j: usize|
                    #[trigger] skipped_groups@.contains(j) <==> (j < i && !cfg_visible(cg, kind, j as int)),
                ids_sorted(visible_tests@),
                forall|t: TestId|
                    visible_tests@.contains(t) <==> exists|f: int|
                        0 <= f < groups@.len() && #[trigger] groups@[f]@.tests.contains(t),
                max_score_sum(groups@.map_values(|g: Group| g@)) == visible_score_sum(cg, kind, i as int),
                tests_sum(groups@.map_values(|g: Group| g@)) == visible_test_sum(cg, tags, kind, i as int),
            decreases n - i,
        {
            let group_cfg = &cfg.groups[i];
            let vis_preset = GroupVisPreset::of(group_cfg.feedback);
            let ghost sk0 = skipped_groups@;
            if !vis_preset.is_visible_for(kind) {
                skipped_groups.push(i);
                proof {
                    assert forall|j: usize|
                        #[trigger] skipped_groups@.contains(j) <==> (j < i + 1 && !cfg_visible(cg, kind, j as int)) by {
                        lemma_push_contains(sk0, i, j);
                    }
                    assert(visible_indices(cg, kind, i as int + 1) == visible_indices(cg, kind, i as int));
                }
                i = i + 1;
                continue;
            }
            let tests = matching_test_ids(&problem_info.tests, group_cfg.tests_tag());
            let ghost vt0 = visible_tests@;
            add_visible(&mut visible_tests, &tests);
            let grp = build_group(cfg, kind, i, &skipped_groups, &tests, vis_preset);
            let ghost f = groups@.len() as int;
            let ghost views0 = groups@.map_values(|g: Group| g@);
            let ghost gs0 = groups@;
            groups.push(grp);
            proof {
                assert(groups@.map_values(|g: Group| g@) =~= views0.push(grp@));
                lemma_step_invariants(
                    cg,
                    tags,
                    kind,
                    i as int,
                    views0,
                    groups@.map_values(|g: Group| g@),
                    grp@,
                );
                assert forall|ff: int|
                    0 <= ff < groups@.len() implies built_group(
                        cg,
                        tags,
                        kind,
                        visible_indices(cg, kind, i as int + 1)[ff],
                        #[trigger] groups@[ff]@,
                    ) by {
                    assert(groups@[ff]@ == groups@.map_values(|g: Group| g@)[ff]);
                    if ff < f {
                        assert(groups@[ff]@ == views0[ff]);
                    }
                }
                assert forall|t: TestId|
                    visible_tests@.contains(t) <==> exists|ff: int|
                        0 <= ff < groups@.len() && #[trigger] groups@[ff]@.tests.contains(t) by {
                    if visible_tests@.contains(t) {
                        if vt0.contains(t) {
                            let ff = choose|ff: int| 0 <= ff < gs0.len() && #[trigger] gs0[ff]@.tests.contains(t);
                            assert(groups@[ff] == gs0[ff]);
                            assert(groups@[ff]@.tests.contains(t));
                        } else {
                            let x = choose|x: int| 0 <= x < tests@.len() && tests@[x] == t.value();
                            assert(grp@.tests[x].value() == tests@[x]);
                            crate::pom::lemma_test_id_eq(grp@.tests[x], t);
                            assert(groups@[f]@.tests[x] == t);
                            assert(groups@[f]@.tests.contains(t));
                        }
                    }
                    if exists|ff: int| 0 <= ff < groups@.len() && #[trigger] groups@[ff]@.tests.contains(t) {
                        let ff = choose|ff: int| 0 <= ff < groups@.len() && #[trigger] groups@[ff]@.tests.contains(t);
                        if ff < f {
                            assert(groups@[ff] == gs0[ff]);
                            assert(gs0[ff]@.tests.contains(t));
                            assert(vt0.contains(t));
                        } else {
                            let x = choose|x: int| 0 <= x < grp@.tests.len() && grp@.tests[x] == t;
                            assert(tests@[x] == t.value());
                        }
                    }
                }
            }
            i = i + 1;
        }
        let ng = groups.len();
        let mut active: Vec<usize> = Vec::new();
        let mut a: usize = 0;
        while a < ng
            invariant
                0 <= a <= ng,
                active@ == Seq::new(a as nat, |f: int| f as usize),
            decreases ng - a,
        {
            active.push(a);
            proof {
                assert(active@ =~= Seq::new((a + 1) as nat, |f: int| f as usize));
            }
            a = a + 1;
        }
        let r = Fiber {
            kind,
            visible_tests,
            active_groups: active,
            finished: false,
            groups,
            last_live_score: 0,
        };
        proof {
            assert forall|x: int, y: int| 0 <= x < y < r.active_groups@.len() implies r.active_groups@[x]
                != r.active_groups@[y] by {
                assert(r.active_groups@[x] == x as usize);
                assert(r.active_groups@[y] == y as usize);
            }
            assert forall|x: int, y: int| 0 <= x < y < r.active_groups@.len() implies (#[trigger] r.active_groups@[x])
                < (#[trigger] r.active_groups@[y]) by {
                assert(r.active_groups@[x] == x as usize);
                assert(r.active_groups@[y] == y as usize);
            }
            lemma_new_wf(&r, cg, tags, kind);
            assert forall|t: TestId|
                r@.visible_tests.contains(t) <==> exists|f: int|
                    0 <= f < r@.groups.len() && #[trigger] r@.groups[f].tests.contains(t) by {
                assert(r@.visible_tests.contains(t) == r.visible_tests@.contains(t));
                if r.visible_tests@.contains(t) {
                    let f = choose|f: int| 0 <= f < r.groups@.len() && #[trigger] r.groups@[f]@.tests.contains(t);
                    assert(r@.groups[f] == r.groups@[f]@);
                }
                if exists|f: int| 0 <= f < r@.groups.len() && #[trigger] r@.groups[f].tests.contains(t) {
                    let f = choose|f: int| 0 <= f < r@.groups.len() && #[trigger] r@.groups[f].tests.contains(t);
                    assert(r@.groups[f] == r.groups@[f]@);
                }
            }
        }
        r
    }
}

/// The ids (1-based) of the tests whose tag is `tag`.
fn matching_test_ids(tags: &Vec<String>, tag: &str) -> (r: Vec<u32>)
    requires
        tags@.len() < u32::MAX,
    ensures
        r@ == matching_tests(tags@, tag@, tags@.len() as int),
        forall|k: int| 0 <= k < r@.len() ==> r@[k] != 0,
{
    let mut tests: Vec<u32> = Vec::new();
    let np = tags.len();
    let mut j: usize = 0;
    while j < np
        invariant
            np == tags@.len(),
            np < u32::MAX,
            0 <= j <= np,
            tests@ == matching_tests(tags@, tag@, j as int),
            forall|k: int| 0 <= k < tests@.len() ==> tests@[k] != 0,
        decreases np - j,
    {
        if str_eq(tags[j].as_str(), tag) {
            tests.push((j + 1) as u32);
        }
        j = j + 1;
    }
    tests
}

/// Adds the tests with ids `tests` to the sorted set `visible`.
fn add_visible(visible: &mut Vec<TestId>, tests: &Vec<u32>)
    requires
        ids_sorted(old(visible)@),
        forall|k: int| 0 <= k < tests@.len() ==> tests@[k] != 0,
    ensures
        ids_sorted(final(visible)@),
        forall|t: TestId|
            #[trigger] final(visible)@.contains(t) <==> (old(visible)@.contains(t) || tests@.contains(t.value())),
{
    let ghost vt0 = visible@;
    let mut k: usize = 0;
    while k < tests.len()
        invariant
            0 <= k <= tests@.len(),
            forall|x: int| 0 <= x < tests@.len() ==> tests@[x] != 0,
            vt0 == old(visible)@,
            ids_sorted(visible@),
            forall|t: TestId|
                #[trigger] visible@.contains(t) <==> (vt0.contains(t) || tests@.take(k as int).contains(t.value())),
        decreases tests@.len() - k,
    {
        let t = TestId::make(tests[k]);
        let ghost vt1 = visible@;
        if !contains_id(visible, t) {
            insert_id(visible, t);
        }
        proof {
            assert(tests@.take(k + 1) =~= tests@.take(k as int).push(tests@[k as int]));
            assert forall|u: TestId|
                #[trigger] visible@.contains(u) <==> (vt0.contains(u) || tests@.take(k + 1).contains(u.value())) by {
                lemma_push_contains(tests@.take(k as int), tests@[k as int], u.value());
                crate::pom::lemma_test_id_eq(u, t);
                assert(visible@.to_set().contains(u) == visible@.contains(u));
                assert(vt1.to_set().contains(u) == vt1.contains(u));
            }
        }
        k = k + 1;
    }
    proof {
        assert(tests@.take(tests@.len() as int) =~= tests@);
    }
}

/// Builds the group of config group `i`, shown to audience `kind`.
fn build_group(
    cfg: &Config,
    kind: JudgeLogKind,
    i: usize,
    skipped_groups: &Vec<usize>,
    tests: &Vec<u32>,
    vis_preset: GroupVisPreset,
) -> (r: Group)
    requires
        (i as int) < cfg.groups@.len() < u32::MAX,
        vis_preset == preset_of(cfg.groups@[i as int].feedback),
        cfg_visible(cfg.groups@, kind, i as int),
        forall|c: int, d: int|
            0 <= c < cfg.groups@.len() && cfg_visible(cfg.groups@, kind, c) && 0 <= d < cfg.groups@[c].deps@.len()
                ==> #[trigger] spec_get_group(cfg.groups@, cfg.groups@[c].deps@[d]) is Some,
        forall|j: usize|
            #[trigger] skipped_groups@.contains(j) <==> (j < i && !cfg_visible(cfg.groups@, kind, j as int)),
        forall|k: int| 0 <= k < tests@.len() ==> tests@[k] != 0,
    ensures
        r.wf(),
        r@.id == i + 1,
        r@.score == cfg.groups@[i as int].score,
        r@.tests.len() == tests@.len(),
        forall|t: int| 0 <= t < tests@.len() ==> (#[trigger] r@.tests[t]).value() == tests@[t],
        r@.dep_groups == fiber_deps(cfg.groups@, kind, i as int, cfg.groups@[i as int].deps@),
        r@.test_vis == spec_test_flags_for(vis_preset, kind),
        r@.subtask_vis == spec_subtask_flags_for(vis_preset, kind),
        r@.run_all_tests == !cfg.groups@[i as int].run_to_first_failure,
        r@.dep_groups.len() == 0 ==> {
            &&& r@.phase == Phase::Running
            &&& queue_of(r@.queued, r@.tests)
            &&& r@.running.len() == 0
            &&& r@.succeeded.len() == 0
            &&& r@.failed.len() == 0
        },
        r@.dep_groups.len() != 0 ==> r@.phase == Phase::Waiting && r@.waiting_deps == r@.dep_groups.to_set(),
{
    let ghost cg = cfg.groups@;
    let group_cfg = &cfg.groups[i];
    let mut grp = Group::new();
    grp.set_id((i + 1) as u32);
    let ghost ge = grp@;
    grp.add_tests(tests);
    proof {
        assert forall|t: int| 0 <= t < tests@.len() implies (#[trigger] grp@.tests[t]).value() == tests@[t] by {
            assert(grp@.tests[ge.tests.len() + t].value() == tests@[t]);
        }
    }
    grp.set_tests_vis(vis_preset.test_flags_for(kind));
    grp.set_group_vis(vis_preset.subtask_flags_for(kind));
    grp.set_score(group_cfg.score);
    let ghost g0 = grp@;
    let ghost deps = group_cfg.deps@;
    let nd = group_cfg.deps.len();
    let mut k: usize = 0;
    while k < nd
        invariant
            cg == cfg.groups@,
            (i as int) < cg.len() < u32::MAX,
            *group_cfg == cg[i as int],
            deps == group_cfg.deps@,
            nd == deps.len(),
            cfg_visible(cg, kind, i as int),
            forall|c: int, d: int|
                0 <= c < cg.len() && cfg_visible(cg, kind, c) && 0 <= d < cg[c].deps@.len()
                    ==> #[trigger] spec_get_group(cg, cg[c].deps@[d]) is Some,
            forall|j: usize|
                #[trigger] skipped_groups@.contains(j) <==> (j < i && !cfg_visible(cg, kind, j as int)),
            0 <= k <= nd,
            g0.phase == Phase::Building,
            grp@ == (GroupView { dep_groups: fiber_deps(cg, kind, i as int, deps.take(k as int)), ..g0 }),
        decreases nd - k,
    {
        proof {
            assert(deps.take(k + 1).drop_last() =~= deps.take(k as int));
            assert(deps.take(k + 1).last() == deps[k as int]);
            assert(spec_get_group(cg, cg[i as int].deps@[k as int]) is Some);
            crate::cfg::lemma_get_group_range(cg, deps[k as int]);
        }
        let group_id = match cfg.get_group(&group_cfg.deps[k]) {
            Some(g) => g,
            None => {
                proof {
                    assert(false);
                }
                0
            },
        };
        proof {
            let c = spec_get_group(cg, deps[k as int])->0;
            assert(0 <= c < cg.len());
            assert(group_id as int == c);
        }
        if !contains_usize(skipped_groups, group_id) {
            grp.add_dep(group_id as u32);
        }
        k = k + 1;
    }
    proof {
        assert(deps.take(nd as int) =~= deps);
    }
    if !group_cfg.run_to_first_failure {
        grp.set_run_all_tests();
    }
    grp.freeze();
    grp
}

/// What a step of `new` adds keeps its running totals and prefix facts.
proof fn lemma_step_invariants(
    cg: Seq<crate::cfg::Group>,
    tags: Seq<String>,
    kind: JudgeLogKind,
    i: int,
    views0: Seq<GroupView>,
    views1: Seq<GroupView>,
    g: GroupView,
)
    requires
        0 <= i < cg.len(),
        cfg_visible(cg, kind, i),
        views1 == views0.push(g),
        g.score == cg[i].score,
        g.tests.len() == matching_tests(tags, spec_tests_tag(cg[i]), tags.len() as int).len(),
        max_score_sum(views0) == visible_score_sum(cg, kind, i),
        tests_sum(views0) == visible_test_sum(cg, tags, kind, i),
    ensures
        max_score_sum(views1) == visible_score_sum(cg, kind, i + 1),
        tests_sum(views1) == visible_test_sum(cg, tags, kind, i + 1),
        visible_indices(cg, kind, i + 1) == visible_indices(cg, kind, i).push(i),
{
    assert(views1.drop_last() =~= views0);
}

impl Fiber {
    /// The audience of this fiber's judge log.
    pub fn kind(&self) -> (r: JudgeLogKind)
        ensures
            r == self@.kind,
    {
        self.kind
    }

    /// Whether the judge log was emitted.
    pub fn is_finished(&self) -> (r: bool)
        ensures
            r == self@.finished,
    {
        self.finished
    }

    /// Whether test `test` belongs to a group of this fiber.
    pub fn is_visible(&self, test: TestId) -> (r: bool)
        requires
            self.wf(),
        ensures
            r == self@.visible_tests.contains(test),
    {
        contains_id(&self.visible_tests, test)
    }

    /// Whether the contestant watches test `test` live.
    pub fn test_is_live(&self, test: TestId) -> (r: bool)
        requires
            self.wf(),
        ensures
            r == (self@.kind == JudgeLogKind::Contestant && self@.visible_tests.contains(test)),
    {
        self.kind == JudgeLogKind::Contestant && self.is_visible(test)
    }

    /// Takes the notification that a test finished into account.
    pub fn add(&mut self, notification: &TestDoneNotification)
        requires
            old(self).wf(),
            old(self)@.visible_tests.contains(notification.test_id) ==> !old(self)@.finished,
        ensures
            final(self).wf(),
            !old(self)@.visible_tests.contains(notification.test_id) ==> final(self)@ == old(self)@,
            old(self)@.visible_tests.contains(notification.test_id) ==> final(self)@ == (FiberView {
                groups: old(self)@.groups.map_values(
                    |g: GroupView| spec_test_done(g, notification.test_id, notification.test_status),
                ),
                ..old(self)@
            }),
    {
        if !self.is_visible(notification.test_id) {
            return;
        }
        self.apply_test_done(notification.test_id, &notification.test_status);
    }

    /// Takes the result of test `test` into account, if this fiber shows the test.
    pub fn add_test(&mut self, test: TestId, status: &Status)
        requires
            old(self).wf(),
        ensures
            final(self).wf(),
            !old(self)@.visible_tests.contains(test) ==> final(self)@ == old(self)@,
            old(self)@.visible_tests.contains(test) ==> final(self)@ == (FiberView {
                groups: old(self)@.groups.map_values(|g: GroupView| spec_test_done(g, test, *status)),
                ..old(self)@
            }),
    {
        if !self.is_visible(test) {
            return;
        }
        self.apply_test_done(test, status);
    }

    /// Hands the result of a shown test to every group.
    fn apply_test_done(&mut self, test: TestId, status: &Status)
        requires
            old(self).wf(),
            old(self)@.visible_tests.contains(test),
        ensures
            final(self).wf(),
            final(self)@ == (FiberView {
                groups: old(self)@.groups.map_values(|g: GroupView| spec_test_done(g, test, *status)),
                ..old(self)@
            }),
    {
        let ghost gs0 = self@.groups;
        let n = self.groups.len();
        let mut j: usize = 0;
        while j < n
            invariant
                n == self.groups@.len(),
                n == gs0.len(),
                0 <= j <= n,
                self.kind == old(self).kind,
                self.visible_tests == old(self).visible_tests,
                self.active_groups == old(self).active_groups,
                self.finished == old(self).finished,
                self.last_live_score == old(self).last_live_score,
                old(self).wf(),
                gs0 == old(self)@.groups,
                forall|f: int| 0 <= f < n ==> (#[trigger] self.groups@[f]).wf(),
                forall|f: int|
                    0 <= f < j ==> self.groups@[f]@ == spec_test_done(#[trigger] gs0[f], test, *status),
                forall|f: int| j <= f < n ==> #[trigger] self.groups@[f]@ == gs0[f],
            decreases n - j,
        {
            let ghost before = self.groups@;
            let mut g = self.groups.remove(j);
            g.on_test_done(test, status.duplicate());
            self.groups.insert(j, g);
            proof {
                assert forall|f: int| 0 <= f < n implies (#[trigger] self.groups@[f]).wf() by {
                    if f != j {
                        assert(self.groups@[f] == before[f]);
                    }
                }
                assert forall|f: int|
                    0 <= f < j + 1 implies self.groups@[f]@ == spec_test_done(#[trigger] gs0[f], test, *status) by {
                    if f < j {
                        assert(self.groups@[f] == before[f]);
                    }
                }
                assert forall|f: int| j + 1 <= f < n implies #[trigger] self.groups@[f]@ == gs0[f] by {
                    assert(self.groups@[f] == before[f]);
                }
            }
            j = j + 1;
        }
        proof {
            let gs1 = self@.groups;
            assert(gs1 =~= gs0.map_values(|g: GroupView| spec_test_done(g, test, *status)));
            lemma_test_done_keeps_wf(old(self), self, test, *status);
        }
    }

    /// Sum of the scores gained by the groups.
    fn current_score(&self) -> (r: u32)
        requires
            self.wf(),
        ensures
            r == score_sum(self@.groups),
    {
        let ghost gs = self@.groups;
        let n = self.groups.len();
        let mut acc: u32 = 0;
        let mut i: usize = 0;
        proof {
            lemma_score_sum_le(gs);
        }
        while i < n
            invariant
                gs == self@.groups,
                n == gs.len(),
                0 <= i <= n,
                acc == score_sum(gs.take(i as int)),
                max_score_sum(gs) <= u32::MAX,
                forall|m: int| 0 <= m <= n ==> score_sum(#[trigger] gs.take(m)) <= max_score_sum(gs),
            decreases n - i,
        {
            proof {
                assert(gs.take(i + 1).drop_last() =~= gs.take(i as int));
                assert(gs[i as int] == self.groups@[i as int]@);
            }
            acc = acc + self.groups[i].score();
            i = i + 1;
        }
        proof {
            assert(gs.take(n as int) =~= gs);
        }
        acc
    }

    /// Number of running tests over all groups.
    fn running_tests(&self) -> (r: u32)
        requires
            self.wf(),
        ensures
            r == running_sum(self@.groups),
    {
        let ghost gs = self@.groups;
        let n = self.groups.len();
        let mut acc: u32 = 0;
        let mut i: usize = 0;
        proof {
            lemma_running_sum_le(self);
        }
        while i < n
            invariant
                gs == self@.groups,
                n == gs.len(),
                0 <= i <= n,
                acc == running_sum(gs.take(i as int)),
                forall|m: int| 0 <= m <= n ==> running_sum(#[trigger] gs.take(m)) <= u32::MAX,
                forall|f: int|
                    0 <= f < n && gs[f].phase == Phase::Running ==> (#[trigger] gs[f].running.len())
                        <= u32::MAX,
            decreases n - i,
        {
            proof {
                assert(gs.take(i + 1).drop_last() =~= gs.take(i as int));
                assert(gs[i as int] == self.groups@[i as int]@);
            }
            acc = acc + self.groups[i].running_tests();
            i = i + 1;
        }
        proof {
            assert(gs.take(n as int) =~= gs);
        }
        acc
    }
}

/// How a group may change when group `x` passed.
pub open spec fn pass_rel(a: GroupView, b: GroupView, x: u32) -> bool {
    if a.phase == Phase::Waiting && a.waiting_deps.contains(x) {
        if a.waiting_deps.remove(x).is_empty() {
            b == crate::group::started(crate::group::cleared(a), b.queued) && queue_of(b.queued, a.tests)
        } else {
            b == (GroupView { waiting_deps: a.waiting_deps.remove(x), ..a })
        }
    } else {
        b == a
    }
}

/// How a group may change while a failure propagates.
pub open spec fn fail_rel(a: GroupView, b: GroupView) -> bool {
    b == a || (a.phase == Phase::Waiting && b.phase == Phase::Skipped && same_config(a, b))
}

/// Number of waiting groups.
pub open spec fn count_waiting(gs: Seq<GroupView>) -> nat
    decreases gs.len(),
{
    if gs.len() == 0 {
        0
    } else {
        count_waiting(gs.drop_last()) + if gs.last().phase == Phase::Waiting {
            1nat
        } else {
            0nat
        }
    }
}

proof fn lemma_count_waiting_update(gs: Seq<GroupView>, j: int, b: GroupView)
    requires
        0 <= j < gs.len(),
    ensures
        count_waiting(gs.update(j, b)) == count_waiting(gs) - (if gs[j].phase == Phase::Waiting {
            1int
        } else {
            0int
        }) + (if b.phase == Phase::Waiting {
            1int
        } else {
            0int
        }),
    decreases gs.len(),
{
    let u = gs.update(j, b);
    if j == gs.len() - 1 {
        assert(u.drop_last() =~= gs.drop_last());
    } else {
        assert(u.drop_last() =~= gs.drop_last().update(j, b));
        lemma_count_waiting_update(gs.drop_last(), j, b);
    }
}

/// Group `d` of `gs0` has failed, or `gs` skips it while `gs0` has it
/// waiting.
pub open spec fn dep_failed(gs0: Seq<GroupView>, gs: Seq<GroupView>, d: int) -> bool {
    ||| (gs0[d].phase == Phase::Finished && !gs0[d].success)
    ||| (gs[d].phase == Phase::Skipped && gs0[d].phase == Phase::Waiting)
}

/// Waiting group `a` became `b`, skipped for one of the dependencies it
/// waited for, which failed or was skipped in turn.
pub open spec fn skipped_for(a: GroupView, b: GroupView, gs0: Seq<GroupView>, gs: Seq<GroupView>) -> bool {
    &&& b == (GroupView { phase: Phase::Skipped, failed_dep: b.failed_dep, ..crate::group::cleared(a) })
    &&& a.waiting_deps.contains(b.failed_dep)
    &&& (b.failed_dep as int) < gs0.len()
    &&& dep_failed(gs0, gs, b.failed_dep as int)
}

/// Group `a` finished and passed.
pub open spec fn passed(a: GroupView) -> bool {
    a.phase == Phase::Finished && a.success
}

/// Where group `f`, waiting in `gs0`, stands in `gs` once the finished
/// groups announced their results: still waiting, for the dependencies that
/// did not pass; started, once all of them passed; or skipped for one that
/// failed or was skipped.
pub open spec fn announced(gs0: Seq<GroupView>, gs: Seq<GroupView>, f: int) -> bool {
    let a = gs0[f];
    let b = gs[f];
    ||| {
        &&& b.phase == Phase::Waiting
        &&& b == (GroupView { waiting_deps: b.waiting_deps, ..a })
        &&& b.waiting_deps.subset_of(a.waiting_deps)
        &&& forall|d: u32|
            #[trigger] a.waiting_deps.contains(d) && !b.waiting_deps.contains(d) ==> (d as int) < gs0.len() && passed(
                gs0[d as int],
            )
    }
    ||| {
        &&& b.phase == Phase::Running
        &&& b == crate::group::started(crate::group::cleared(a), b.queued)
        &&& queue_of(b.queued, a.tests)
        &&& forall|d: u32| #[trigger] a.waiting_deps.contains(d) ==> (d as int) < gs0.len() && passed(gs0[d as int])
    }
    ||| (b.phase == Phase::Skipped && skipped_for(a, b, gs0, gs))
}

/// Announcing that group `i` passed keeps `announced`.
proof fn lemma_announced_pass(gs0: Seq<GroupView>, gb: Seq<GroupView>, ga: Seq<GroupView>, i: u32, f: int)
    requires
        0 <= f < gs0.len(),
        gs0.len() == gb.len(),
        gb.len() == ga.len(),
        (i as int) < gs0.len(),
        passed(gs0[i as int]),
        gs0[f].phase == Phase::Waiting,
        announced(gs0, gb, f),
        forall|g: int| 0 <= g < gb.len() ==> #[trigger] pass_rel(gb[g], ga[g], i),
    ensures
        announced(gs0, ga, f),
{
    let a = gs0[f];
    let b = gb[f];
    let c = ga[f];
    assert(pass_rel(b, c, i));
    if b.phase == Phase::Skipped {
        let fd = b.failed_dep as int;
        assert(pass_rel(gb[fd], ga[fd], i));
        assert(dep_failed(gs0, ga, fd));
    } else if b.phase == Phase::Waiting && b.waiting_deps.contains(i) {
        if b.waiting_deps.remove(i).is_empty() {
            assert(crate::group::cleared(b) == crate::group::cleared(a));
            assert forall|d: u32| #[trigger] a.waiting_deps.contains(d) implies (d as int) < gs0.len() && passed(
                gs0[d as int],
            ) by {
                if d != i && b.waiting_deps.contains(d) {
                    assert(b.waiting_deps.remove(i).contains(d));
                }
            }
        } else {
            assert forall|d: u32| #[trigger] a.waiting_deps.contains(d) && !c.waiting_deps.contains(d) implies (d
                as int) < gs0.len() && passed(gs0[d as int]) by {
                if d != i {
                    assert(!b.waiting_deps.contains(d));
                }
            }
        }
    }
}

/// Announcing that group `i` failed keeps `announced`.
proof fn lemma_announced_fail(gs0: Seq<GroupView>, gb: Seq<GroupView>, ga: Seq<GroupView>, f: int)
    requires
        0 <= f < gs0.len(),
        gs0.len() == gb.len(),
        gb.len() == ga.len(),
        gs0[f].phase == Phase::Waiting,
        announced(gs0, gb, f),
        forall|g: int| 0 <= g < gb.len() && gs0[g].phase != Phase::Waiting ==> #[trigger] gb[g] == gs0[g],
        forall|g: int| 0 <= g < gb.len() && (#[trigger] gb[g]).phase == Phase::Finished ==> gb[g] == gs0[g],
        forall|g: int| 0 <= g < gb.len() ==> #[trigger] fail_rel(gb[g], ga[g]),
        forall|g: int|
            0 <= g < ga.len() && (#[trigger] ga[g]).phase == Phase::Skipped && gb[g].phase == Phase::Waiting
                ==> skipped_for(gb[g], ga[g], gb, ga),
    ensures
        announced(gs0, ga, f),
{
    let a = gs0[f];
    let b = gb[f];
    let c = ga[f];
    assert(fail_rel(b, c));
    if b.phase == Phase::Skipped {
        let fd = b.failed_dep as int;
        assert(fail_rel(gb[fd], ga[fd]));
        assert(dep_failed(gs0, ga, fd));
    } else if b.phase == Phase::Waiting && c.phase == Phase::Skipped {
        assert(skipped_for(b, c, gb, ga));
        let fd = c.failed_dep as int;
        assert(crate::group::cleared(b) == crate::group::cleared(a));
        if gb[fd].phase == Phase::Finished && !gb[fd].success {
            assert(gb[fd] == gs0[fd]);
        } else {
            if gs0[fd].phase != Phase::Waiting {
                assert(gb[fd] == gs0[fd]);
            }
        }
        assert(dep_failed(gs0, ga, fd));
    }
}

/// Group ids in `v`, as a set of integers.
pub open spec fn idx_set(v: Seq<u32>) -> Set<int> {
    v.to_set().map(|x: u32| x as int)
}

impl Fiber {
    /// Tells every group that group `i` passed.
    fn broadcast_pass(&mut self, i: usize, Ghost(rest): Ghost<Set<int>>)
        requires
            (i as int) < old(self).groups@.len() <= u32::MAX,
            forall|f: int| 0 <= f < old(self).groups@.len() ==> (#[trigger] old(self).groups@[f]).wf(),
            old(self)@.groups[i as int].phase == Phase::Finished,
            old(self)@.groups[i as int].success,
            rest.contains(i as int),
            deps_ok(old(self)@.groups, rest, Set::empty()),
        ensures
            final(self)@ == (FiberView { groups: final(self)@.groups, ..old(self)@ }),
            final(self).visible_tests == old(self).visible_tests,
            final(self)@.groups.len() == old(self)@.groups.len(),
            forall|f: int| 0 <= f < final(self).groups@.len() ==> (#[trigger] final(self).groups@[f]).wf(),
            forall|f: int|
                0 <= f < final(self)@.groups.len() ==> #[trigger] pass_rel(
                    old(self)@.groups[f],
                    final(self)@.groups[f],
                    i as u32,
                ),
            deps_ok(final(self)@.groups, rest.remove(i as int), Set::empty()),
    {
        let ghost gs0 = self@.groups;
        let n = self.groups.len();
        let mut j: usize = 0;
        while j < n
            invariant
                n == self.groups@.len(),
                n == gs0.len(),
                n <= u32::MAX,
                (i as int) < n,
                0 <= j <= n,
                self.kind == old(self).kind,
                self.visible_tests == old(self).visible_tests,
                self.active_groups == old(self).active_groups,
                self.finished == old(self).finished,
                self.last_live_score == old(self).last_live_score,
                gs0 == old(self)@.groups,
                forall|f: int| 0 <= f < n ==> (#[trigger] self.groups@[f]).wf(),
                forall|f: int| 0 <= f < j ==> #[trigger] pass_rel(gs0[f], self.groups@[f]@, i as u32),
                forall|f: int| j <= f < n ==> #[trigger] self.groups@[f]@ == gs0[f],
            decreases n - j,
        {
            let ghost before = self.groups@;
            let mut g = self.groups.remove(j);
            g.on_group_pass(i as u32);
            self.groups.insert(j, g);
            proof {
                assert forall|f: int| 0 <= f < n implies (#[trigger] self.groups@[f]).wf() by {
                    if f != j {
                        assert(self.groups@[f] == before[f]);
                    }
                }
                assert forall|f: int| 0 <= f < j + 1 implies #[trigger] pass_rel(gs0[f], self.groups@[f]@, i as u32) by {
                    if f < j {
                        assert(self.groups@[f] == before[f]);
                    }
                }
                assert forall|f: int| j + 1 <= f < n implies #[trigger] self.groups@[f]@ == gs0[f] by {
                    assert(self.groups@[f] == before[f]);
                }
            }
            j = j + 1;
        }
        proof {
            let gs1 = self@.groups;
            assert forall|f: int| 0 <= f < n implies #[trigger] pass_rel(gs0[f], gs1[f], i as u32) by {
                assert(gs1[f] == self.groups@[f]@);
            }
            let rest2 = rest.remove(i as int);
            assert forall|g: int, d: u32|
                #![trigger gs1[g].waiting_deps.contains(d)]
                0 <= g < n && gs1[g].phase == Phase::Waiting && gs1[g].waiting_deps.contains(d) implies {
                &&& (d as int) < gs1.len()
                &&& {
                    ||| gs1[d as int].phase == Phase::Waiting
                    ||| gs1[d as int].phase == Phase::Running
                    ||| (gs1[d as int].phase == Phase::Finished && rest2.contains(d as int))
                    ||| Set::<int>::empty().contains(d as int)
                }
            } by {
                assert(pass_rel(gs0[g], gs1[g], i as u32));
                assert(gs0[g].phase == Phase::Waiting);
                assert(gs0[g].waiting_deps.contains(d));
                assert(d != i as u32);
                assert(pass_rel(gs0[d as int], gs1[d as int], i as u32));
            }
        }
    }

    /// Tells the waiting groups that group `i` failed, and so on for each
    /// group that becomes skipped.
    fn broadcast_fail(&mut self, i: usize, Ghost(rest): Ghost<Set<int>>)
        requires
            (i as int) < old(self).groups@.len() <= u32::MAX,
            forall|f: int| 0 <= f < old(self).groups@.len() ==> (#[trigger] old(self).groups@[f]).wf(),
            old(self)@.groups[i as int].phase == Phase::Finished,
            !old(self)@.groups[i as int].success,
            rest.contains(i as int),
            deps_ok(old(self)@.groups, rest, Set::empty()),
        ensures
            final(self)@ == (FiberView { groups: final(self)@.groups, ..old(self)@ }),
            final(self).visible_tests == old(self).visible_tests,
            final(self)@.groups.len() == old(self)@.groups.len(),
            forall|f: int| 0 <= f < final(self).groups@.len() ==> (#[trigger] final(self).groups@[f]).wf(),
            forall|f: int|
                0 <= f < final(self)@.groups.len() ==> #[trigger] fail_rel(
                    old(self)@.groups[f],
                    final(self)@.groups[f],
                ),
            forall|f: int|
                0 <= f < final(self)@.groups.len() && (#[trigger] final(self)@.groups[f]).phase == Phase::Skipped
                    && old(self)@.groups[f].phase == Phase::Waiting ==> skipped_for(
                    old(self)@.groups[f],
                    final(self)@.groups[f],
                    old(self)@.groups,
                    final(self)@.groups,
                ),
            deps_ok(final(self)@.groups, rest.remove(i as int), Set::empty()),
    {
        let ghost gs0 = self@.groups;
        let n = self.groups.len();
        let mut queue: Vec<u32> = Vec::new();
        queue.push(i as u32);
        while queue.len() > 0
            invariant
                n == self.groups@.len(),
                n == gs0.len(),
                n <= u32::MAX,
                (i as int) < n,
                self.kind == old(self).kind,
                self.visible_tests == old(self).visible_tests,
                self.active_groups == old(self).active_groups,
                self.finished == old(self).finished,
                self.last_live_score == old(self).last_live_score,
                gs0 == old(self)@.groups,
                gs0[i as int].phase == Phase::Finished,
                !gs0[i as int].success,
                rest.contains(i as int),
                forall|f: int| 0 <= f < n ==> (#[trigger] self.groups@[f]).wf(),
                forall|f: int| 0 <= f < n ==> #[trigger] fail_rel(gs0[f], self@.groups[f]),
                forall|t: int| 0 <= t < queue@.len() ==> (#[trigger] queue@[t] as int) < n,
                forall|t: int|
                    0 <= t < queue@.len() ==> queue@[t] == i as u32 || (self@.groups[(#[trigger] queue@[t]) as int].phase
                        == Phase::Skipped && gs0[queue@[t] as int].phase == Phase::Waiting),
                forall|f: int|
                    0 <= f < n && (#[trigger] self@.groups[f]).phase == Phase::Skipped && gs0[f].phase == Phase::Waiting
                        ==> skipped_for(gs0[f], self@.groups[f], gs0, self@.groups),
                queue@ == seq![i as u32] || forall|g: int|
                    0 <= g < n && self@.groups[g].phase == Phase::Waiting ==> !(
                    #[trigger] self@.groups[g].waiting_deps).contains(i as u32),
                deps_ok(self@.groups, rest, idx_set(queue@)),
            decreases queue@.len() + 2 * count_waiting(self@.groups),
        {
            let ghost q0 = queue@;
            let ghost first = q0 == seq![i as u32];
            let k = queue.pop().unwrap();
            let ghost gs_pop = self@.groups;
            let ghost c = queue@.len() + count_waiting(gs_pop);
            let ghost qlen1 = queue@.len();
            proof {
                assert(q0 == queue@.push(k));
                assert forall|x: int| idx_set(q0).contains(x) implies idx_set(queue@).insert(k as int).contains(x) by {
                    let y = choose|y: u32| q0.to_set().contains(y) && x == y as int;
                    lemma_push_contains(queue@, k, y);
                    if y != k {
                        assert(queue@.to_set().contains(y));
                    }
                }
                assert(deps_ok(self@.groups, rest, idx_set(queue@).insert(k as int)));
            }
            let mut j: usize = 0;
            while j < n
                invariant
                    n == self.groups@.len(),
                    n == gs0.len(),
                    n <= u32::MAX,
                    (i as int) < n,
                    0 <= j <= n,
                    (k as int) < n,
                    k == i as u32 || (self@.groups[k as int].phase == Phase::Skipped && gs0[k as int].phase
                        == Phase::Waiting),
                    forall|f: int|
                        0 <= f < n && (#[trigger] self@.groups[f]).phase == Phase::Skipped && gs0[f].phase == Phase::Waiting
                            ==> skipped_for(gs0[f], self@.groups[f], gs0, self@.groups),
                    self.kind == old(self).kind,
                    self.visible_tests == old(self).visible_tests,
                    self.active_groups == old(self).active_groups,
                    self.finished == old(self).finished,
                    self.last_live_score == old(self).last_live_score,
                    gs0 == old(self)@.groups,
                    gs0[i as int].phase == Phase::Finished,
                    !gs0[i as int].success,
                    rest.contains(i as int),
                    forall|f: int| 0 <= f < n ==> (#[trigger] self.groups@[f]).wf(),
                    forall|f: int| 0 <= f < n ==> #[trigger] fail_rel(gs0[f], self@.groups[f]),
                    forall|t: int| 0 <= t < queue@.len() ==> (#[trigger] queue@[t] as int) < n,
                    forall|t: int|
                        0 <= t < queue@.len() ==> queue@[t] == i as u32 || (self@.groups[(#[trigger] queue@[t]) as int].phase
                            == Phase::Skipped && gs0[queue@[t] as int].phase == Phase::Waiting),
                    first ==> k == i as u32,
                    queue@.len() >= qlen1,
                    c == qlen1 + count_waiting(gs_pop),
                    !first ==> forall|g: int|
                        0 <= g < n && self@.groups[g].phase == Phase::Waiting ==> !(
                        #[trigger] self@.groups[g].waiting_deps).contains(i as u32),
                    forall|g: int|
                        0 <= g < j && self@.groups[g].phase == Phase::Waiting ==> !(
                        #[trigger] self@.groups[g].waiting_deps).contains(k),
                    deps_ok(self@.groups, rest, idx_set(queue@).insert(k as int)),
                    queue@.len() + count_waiting(self@.groups) == c,
                decreases n - j,
            {
                let ghost before = self.groups@;
                let ghost gb = self@.groups;
                let ghost qb = queue@;
                if self.groups[j].is_waiting() {
                    let mut g = self.groups.remove(j);
                    g.on_group_fail(k);
                    let skipped = g.is_skipped();
                    let ghost gv = g@;
                    self.groups.insert(j, g);
                    if skipped {
                        queue.push(j as u32);
                    }
                    proof {
                        let ga = self@.groups;
                        assert(ga =~= gb.update(j as int, gv));
                        lemma_count_waiting_update(gb, j as int, gv);
                        assert forall|f: int| 0 <= f < n implies (#[trigger] self.groups@[f]).wf() by {
                            if f != j {
                                assert(self.groups@[f] == before[f]);
                            }
                        }
                        assert forall|f: int| 0 <= f < n implies #[trigger] fail_rel(gs0[f], ga[f]) by {
                            assert(fail_rel(gs0[f], gb[f]));
                            if f == j {
                                if gv != gb[j as int] {
                                    assert(gb[j as int].phase == Phase::Waiting);
                                    assert(gs0[f].phase == Phase::Waiting);
                                }
                            }
                        }
                        lemma_fail_step_deps(gb, ga, rest, qb, queue@, k, j as int, i as int, n as int);
                        assert(gb[j as int] == gs0[j as int]) by {
                            assert(fail_rel(gs0[j as int], gb[j as int]));
                        }
                        assert forall|t: int| 0 <= t < queue@.len() implies queue@[t] == i as u32 || (
                        #[trigger] ga[queue@[t] as int].phase == Phase::Skipped && gs0[queue@[t] as int].phase
                            == Phase::Waiting) by {
                            if t < qb.len() {
                                assert(queue@[t] == qb[t]);
                                if qb[t] != i as u32 {
                                    assert(gb[qb[t] as int].phase == Phase::Skipped);
                                    assert(qb[t] as int != j);
                                }
                            } else {
                                assert(queue@[t] == j as u32);
                            }
                        }
                        assert forall|f: int|
                            0 <= f < n && (#[trigger] ga[f]).phase == Phase::Skipped && gs0[f].phase == Phase::Waiting
                                implies skipped_for(gs0[f], ga[f], gs0, ga) by {
                            if f == j {
                                if k != i as u32 {
                                    assert(gb[k as int].phase == Phase::Skipped);
                                    assert(k as int != j);
                                    assert(ga[k as int] == gb[k as int]);
                                }
                            } else {
                                assert(ga[f] == gb[f]);
                                assert(gb[f].phase == Phase::Skipped);
                                assert(skipped_for(gs0[f], gb[f], gs0, gb));
                                let fd = gb[f].failed_dep as int;
                                if fd != j {
                                    assert(ga[fd] == gb[fd]);
                                }
                            }
                        }
                    }
                }
                j = j + 1;
            }
            proof {
                let gs1 = self@.groups;
                let pend = idx_set(queue@);
                assert(count_waiting(gs1) <= count_waiting(gs_pop));
                assert forall|g: int, d: u32|
                    #![trigger gs1[g].waiting_deps.contains(d)]
                    0 <= g < n && gs1[g].phase == Phase::Waiting && gs1[g].waiting_deps.contains(d) implies {
                    &&& (d as int) < gs1.len()
                    &&& {
                        ||| gs1[d as int].phase == Phase::Waiting
                        ||| gs1[d as int].phase == Phase::Running
                        ||| (gs1[d as int].phase == Phase::Finished && rest.contains(d as int))
                        ||| pend.contains(d as int)
                    }
                } by {
                    assert(d != k);
                    assert(idx_set(queue@).insert(k as int).contains(d as int) ==> pend.contains(d as int));
                }
            }
        }
        proof {
            let gs1 = self@.groups;
            assert(idx_set(queue@) =~= Set::<int>::empty());
            let rest2 = rest.remove(i as int);
            assert forall|g: int, d: u32|
                #![trigger gs1[g].waiting_deps.contains(d)]
                0 <= g < n && gs1[g].phase == Phase::Waiting && gs1[g].waiting_deps.contains(d) implies {
                &&& (d as int) < gs1.len()
                &&& {
                    ||| gs1[d as int].phase == Phase::Waiting
                    ||| gs1[d as int].phase == Phase::Running
                    ||| (gs1[d as int].phase == Phase::Finished && rest2.contains(d as int))
                    ||| Set::<int>::empty().contains(d as int)
                }
            } by {
                assert(queue@ != seq![i as u32]);
                assert(d != i as u32);
            }
        }
    }
}

/// A group can hand out a test now.
pub open spec fn can_pop(a: GroupView) -> bool {
    a.phase == Phase::Running && (a.running.len() == 0 || a.run_all_tests) && a.queued.len() > 0
}

/// No group of `gs` can hand out a test, and no group waits for one that
/// has finished: the groups wait for running tests alone.
pub open spec fn idle(gs: Seq<GroupView>) -> bool {
    &&& forall|f: int| 0 <= f < gs.len() ==> !can_pop(#[trigger] gs[f])
    &&& deps_ok(gs, Set::empty(), Set::empty())
}

/// Test `t` is handed out between groups `old` and `new`: a group runs it
/// in `new` that did not run it in `old`.
pub open spec fn hands_out(old: Seq<GroupView>, new: Seq<GroupView>, t: TestId) -> bool {
    exists|f: int|
        0 <= f < new.len() && f < old.len() && (#[trigger] new[f]).phase == Phase::Running && new[f].running.contains(t)
            && !(old[f].phase == Phase::Running && old[f].running.contains(t))
}

/// `gs` is `gs0` after the finished groups announced their results: the
/// groups that did not wait stay as they were, the waiting ones stand as
/// `announced` says, and no group waits any more for one that finished or
/// was skipped.
pub open spec fn after_announce(gs0: Seq<GroupView>, gs: Seq<GroupView>) -> bool {
    &&& gs.len() == gs0.len()
    &&& forall|f: int| 0 <= f < gs0.len() && gs0[f].phase != Phase::Waiting ==> #[trigger] gs[f] == gs0[f]
    &&& forall|f: int| 0 <= f < gs0.len() && (#[trigger] gs0[f]).phase == Phase::Waiting ==> announced(gs0, gs, f)
    &&& deps_ok(gs, Set::empty(), Set::empty())
}

/// Group `a` is the first of `gs` that can hand out a test.
pub open spec fn first_poppable(gs: Seq<GroupView>, a: int) -> bool {
    &&& 0 <= a < gs.len()
    &&& can_pop(gs[a])
    &&& forall|f: int| 0 <= f < a ==> !can_pop(#[trigger] gs[f])
}

/// Group `a` after handing out its next test.
pub open spec fn popped(a: GroupView) -> GroupView {
    GroupView {
        queued: a.queued.drop_first(),
        running: a.running.insert(lower_bound(a.running, a.queued[0].value()), a.queued[0]),
        ..a
    }
}

/// The facts of the fiber invariant about groups alone.
pub open spec fn groups_ok(gs: Seq<GroupView>) -> bool {
    &&& forall|f: int| 0 <= f < gs.len() ==> group_wf(#[trigger] gs[f])
    &&& forall|f: int| 0 <= f < gs.len() ==> (#[trigger] gs[f]).phase != Phase::Building
    &&& forall|f: int| 0 <= f < gs.len() ==> (#[trigger] gs[f]).tests.len() > 0
    &&& forall|f: int, d: int|
        0 <= f < gs.len() && 0 <= d < gs[f].dep_groups.len() ==> (#[trigger] gs[f].dep_groups[d] as int) < gs.len()
    &&& deps_acyclic(gs)
}

/// `rank` gives each group of `gs` a number that each of its dependencies
/// has smaller.
pub open spec fn ranked(gs: Seq<GroupView>, rank: Seq<nat>) -> bool {
    &&& rank.len() == gs.len()
    &&& forall|f: int, d: int|
        0 <= f < gs.len() && 0 <= d < gs[f].dep_groups.len() ==> rank[#[trigger] gs[f].dep_groups[d] as int] < rank[f]
}

/// The dependencies between the groups of `gs` have no cycle.
pub open spec fn deps_acyclic(gs: Seq<GroupView>) -> bool {
    exists|rank: Seq<nat>| ranked(gs, rank)
}

/// Groups with the same configuration have the same dependencies, so a
/// rank of one ranks the other.
proof fn lemma_acyclic_same_config(a: Seq<GroupView>, b: Seq<GroupView>)
    requires
        a.len() == b.len(),
        forall|f: int| 0 <= f < a.len() ==> #[trigger] same_config(a[f], b[f]),
        deps_acyclic(a),
    ensures
        deps_acyclic(b),
        forall|f: int, d: int|
            0 <= f < b.len() && 0 <= d < b[f].dep_groups.len() ==> (#[trigger] b[f].dep_groups[d]) == a[f].dep_groups[d],
{
    let rank = choose|rank: Seq<nat>| ranked(a, rank);
    assert forall|f: int, d: int| 0 <= f < b.len() && 0 <= d < b[f].dep_groups.len() implies (
    #[trigger] b[f].dep_groups[d]) == a[f].dep_groups[d] by {
        assert(same_config(a[f], b[f]));
    }
    assert forall|f: int, d: int| 0 <= f < b.len() && 0 <= d < b[f].dep_groups.len() implies rank[
    #[trigger] b[f].dep_groups[d] as int] < rank[f] by {
        assert(same_config(a[f], b[f]));
        assert(a[f].dep_groups[d] == b[f].dep_groups[d]);
    }
    assert(ranked(b, rank));
}

impl Fiber {
    /// The group-level part of the invariant.
    proof fn lemma_wf_groups(&self)
        requires
            self.wf(),
        ensures
            groups_ok(self@.groups),
            forall|f: int| 0 <= f < self.groups@.len() ==> (#[trigger] self.groups@[f]).wf(),
            self.groups@.len() == self@.groups.len(),
            forall|f: int| 0 <= f < self.groups@.len() ==> #[trigger] self@.groups[f] == self.groups@[f]@,
    {
        assert forall|f: int| 0 <= f < self@.groups.len() implies group_wf(#[trigger] self@.groups[f]) by {
            assert(self.groups@[f].wf());
        }
    }

    /// Announces every finished group still in the active list to the other
    /// groups, and drops it from the list.
    fn process_active(&mut self)
        requires
            old(self).wf(),
        ensures
            final(self).wf(),
            final(self)@.kind == old(self)@.kind,
            final(self)@.visible_tests == old(self)@.visible_tests,
            final(self)@.finished == old(self)@.finished,
            final(self)@.last_live_score == old(self)@.last_live_score,
            final(self)@.groups.len() == old(self)@.groups.len(),
            forall|t: int|
                0 <= t < final(self)@.active_groups.len() ==> final(self)@.groups[(#[trigger] final(self)@.active_groups[t]) as int].phase
                    != Phase::Finished,
            deps_ok(final(self)@.groups, Set::empty(), Set::empty()),
            forall|f: int|
                0 <= f < final(self)@.groups.len() ==> #[trigger] same_config(
                    old(self)@.groups[f],
                    final(self)@.groups[f],
                ),
            forall|f: int|
                0 <= f < final(self)@.groups.len() && old(self)@.groups[f].phase == Phase::Finished
                    ==> #[trigger] final(self)@.groups[f] == old(self)@.groups[f],
            forall|f: int|
                0 <= f < final(self)@.groups.len() && old(self)@.groups[f].phase != Phase::Waiting
                    ==> #[trigger] final(self)@.groups[f] == old(self)@.groups[f],
            forall|f: int|
                0 <= f < final(self)@.groups.len() && (#[trigger] old(self)@.groups[f]).phase == Phase::Waiting
                    ==> announced(old(self)@.groups, final(self)@.groups, f),
    {
        proof {
            self.lemma_wf_groups();
            lemma_len_le_tests_sum(self@.groups);
        }
        let ghost gs0 = self@.groups;
        let ghost snap = self.active_groups@;
        let n = self.groups.len();
        let n_act = self.active_groups.len();
        proof {
            assert(snap.subrange(0, n_act as int) =~= snap);
        }
        let mut new_active: Vec<usize> = Vec::new();
        let mut idx: usize = 0;
        while idx < n_act
            invariant
                n == self.groups@.len(),
                n == gs0.len(),
                n <= u32::MAX,
                n_act == snap.len(),
                0 <= idx <= n_act,
                old(self).wf(),
                gs0 == old(self)@.groups,
                snap == old(self)@.active_groups,
                self.active_groups@ == snap,
                self.kind == old(self).kind,
                self.visible_tests == old(self).visible_tests,
                self.finished == old(self).finished,
                self.last_live_score == old(self).last_live_score,
                groups_ok(gs0),
                forall|f: int| 0 <= f < n ==> (#[trigger] self.groups@[f]).wf(),
                forall|f: int| 0 <= f < n ==> #[trigger] self@.groups[f] == self.groups@[f]@,
                forall|f: int| 0 <= f < n ==> #[trigger] same_config(gs0[f], self@.groups[f]),
                forall|f: int|
                    0 <= f < n ==> ((#[trigger] self@.groups[f]).phase == Phase::Finished) == (gs0[f].phase
                        == Phase::Finished),
                forall|f: int|
                    0 <= f < n && gs0[f].phase == Phase::Finished ==> #[trigger] self@.groups[f] == gs0[f],
                forall|f: int|
                    0 <= f < n && gs0[f].phase != Phase::Waiting ==> #[trigger] self@.groups[f] == gs0[f],
                forall|f: int|
                    0 <= f < n && (#[trigger] gs0[f]).phase == Phase::Waiting ==> announced(gs0, self@.groups, f),
                forall|f: int| 0 <= f < n ==> (#[trigger] self@.groups[f]).phase != Phase::Building,
                new_active@.no_duplicates(),
                forall|x: int, y: int|
                    0 <= x < y < new_active@.len() ==> (#[trigger] new_active@[x]) < (#[trigger] new_active@[y]),
                forall|t: int| 0 <= t < new_active@.len() ==> (#[trigger] new_active@[t] as int) < n,
                forall|t: int|
                    0 <= t < new_active@.len() ==> self@.groups[(#[trigger] new_active@[t]) as int].phase
                        != Phase::Finished,
                forall|t: int|
                    0 <= t < new_active@.len() ==> snap.subrange(0, idx as int).contains(#[trigger] new_active@[t]),
                forall|f: int|
                    0 <= f < n && (#[trigger] self@.groups[f]).phase != Phase::Finished ==> new_active@.contains(
                        f as usize,
                    ) || snap.subrange(idx as int, n_act as int).contains(f as usize),
                deps_ok(
                    self@.groups,
                    snap.subrange(idx as int, n_act as int).to_set().map(|x: usize| x as int),
                    Set::empty(),
                ),
            decreases n_act - idx,
        {
            let i = self.active_groups[idx];
            let ghost s1 = snap.subrange(idx as int, n_act as int);
            let ghost s2 = snap.subrange(idx + 1, n_act as int);
            let ghost rest = s1.to_set().map(|x: usize| x as int);
            let ghost rest2 = s2.to_set().map(|x: usize| x as int);
            proof {
                assert(snap[idx as int] == i);
                assert(snap.contains(i));
                assert((i as int) < n);
                assert(s1[0] == i);
                assert(s1.to_set().contains(i));
                assert(rest.contains(i as int));
                assert(rest2 =~= rest.remove(i as int)) by {
                    assert forall|x: int| rest2.contains(x) <==> rest.remove(i as int).contains(x) by {
                        if rest2.contains(x) {
                            let y = choose|y: usize| s2.to_set().contains(y) && x == y as int;
                            let t = choose|t: int| 0 <= t < s2.len() && s2[t] == y;
                            assert(snap[idx + 1 + t] == y);
                            assert(s1[t + 1] == y);
                            assert(s1.to_set().contains(y));
                            assert(y != i);
                        }
                        if rest.remove(i as int).contains(x) {
                            let y = choose|y: usize| s1.to_set().contains(y) && x == y as int;
                            let t = choose|t: int| 0 <= t < s1.len() && s1[t] == y;
                            assert(t != 0);
                            assert(s2[t - 1] == y);
                            assert(s2.to_set().contains(y));
                        }
                    }
                }
            }
            let is_passed = self.groups[i].is_passed();
            let is_failed = self.groups[i].is_failed();
            let ghost na0 = new_active@;
            if !(is_passed || is_failed) {
                new_active.push(i);
            }
            let ghost gsb = self@.groups;
            if is_passed {
                self.broadcast_pass(i, Ghost(rest));
            } else if is_failed {
                self.broadcast_fail(i, Ghost(rest));
            }
            proof {
                let gsa = self@.groups;
                assert forall|f: int| 0 <= f < n implies #[trigger] self@.groups[f] == self.groups@[f]@ by {}
                assert forall|f: int| 0 <= f < n implies same_config(gs0[f], #[trigger] self@.groups[f]) && (
                    (self@.groups[f].phase == Phase::Finished) == (gs0[f].phase == Phase::Finished)) && (
                    gs0[f].phase == Phase::Finished ==> self@.groups[f] == gs0[f]) && self@.groups[f].phase
                    != Phase::Building by {
                    assert(same_config(gs0[f], gsb[f]));
                    if is_passed {
                        assert(pass_rel(gsb[f], gsa[f], i as u32));
                    } else if is_failed {
                        assert(fail_rel(gsb[f], gsa[f]));
                    }
                }
                assert forall|f: int| 0 <= f < n && (#[trigger] gs0[f]).phase == Phase::Waiting implies announced(
                    gs0,
                    gsa,
                    f,
                ) by {
                    if is_passed {
                        assert(gsb[i as int] == gs0[i as int]);
                        lemma_announced_pass(gs0, gsb, gsa, i as u32, f);
                    } else if is_failed {
                        assert forall|g: int| 0 <= g < n && (#[trigger] gsb[g]).phase == Phase::Finished implies gsb[g]
                            == gs0[g] by {}
                        lemma_announced_fail(gs0, gsb, gsa, f);
                    }
                }
                assert forall|f: int| 0 <= f < n && gs0[f].phase != Phase::Waiting implies #[trigger] self@.groups[f]
                    == gs0[f] by {
                    assert(gsb[f] == gs0[f]);
                    if is_passed {
                        assert(pass_rel(gsb[f], gsa[f], i as u32));
                    } else if is_failed {
                        assert(fail_rel(gsb[f], gsa[f]));
                    }
                }
                if !(is_passed || is_failed) {
                    assert(deps_ok(gsa, rest2, Set::empty())) by {
                        assert forall|g: int, d: u32|
                            #![trigger gsa[g].waiting_deps.contains(d)]
                            0 <= g < n && gsa[g].phase == Phase::Waiting && gsa[g].waiting_deps.contains(d) implies {
                            &&& (d as int) < gsa.len()
                            &&& {
                                ||| gsa[d as int].phase == Phase::Waiting
                                ||| gsa[d as int].phase == Phase::Running
                                ||| (gsa[d as int].phase == Phase::Finished && rest2.contains(d as int))
                                ||| Set::<int>::empty().contains(d as int)
                            }
                        } by {
                            if gsa[d as int].phase == Phase::Finished {
                                assert(d as int != i as int);
                            }
                        }
                    }
                }
                assert forall|x: int, y: int| 0 <= x < y < new_active@.len() implies (#[trigger] new_active@[x]) < (
                #[trigger] new_active@[y]) by {
                    if y == na0.len() && !(is_passed || is_failed) {
                        assert(new_active@[y] == i);
                        assert(na0[x] == new_active@[x]);
                        assert(snap.subrange(0, idx as int).contains(na0[x]));
                        let t = choose|t: int| 0 <= t < idx && snap.subrange(0, idx as int)[t] == na0[x];
                        assert(snap[t] == na0[x]);
                        assert(snap[t] < snap[idx as int]);
                    } else {
                        assert(na0[x] == new_active@[x] && na0[y] == new_active@[y]);
                    }
                }
                assert(new_active@.no_duplicates()) by {
                    if !(is_passed || is_failed) {
                        assert forall|a: int, b: int| 0 <= a < b < new_active@.len() implies new_active@[a] != new_active@[b] by {
                            if b == new_active@.len() - 1 {
                                assert(new_active@[b] == i);
                                assert(na0[a] == new_active@[a]);
                                assert(snap.subrange(0, idx as int).contains(na0[a]));
                                let t = choose|t: int| 0 <= t < idx && snap.subrange(0, idx as int)[t] == na0[a];
                                assert(snap[t] == na0[a]);
                            } else {
                                assert(na0[a] == new_active@[a] && na0[b] == new_active@[b]);
                            }
                        }
                    }
                }
                assert forall|t: int| 0 <= t < new_active@.len() implies snap.subrange(0, idx + 1).contains(#[trigger] new_active@[t]) by {
                    if t < na0.len() {
                        assert(na0[t] == new_active@[t]);
                        let u = choose|u: int| 0 <= u < idx && snap.subrange(0, idx as int)[u] == na0[t];
                        assert(snap.subrange(0, idx + 1)[u] == na0[t]);
                    } else {
                        assert(snap.subrange(0, idx + 1)[idx as int] == i);
                    }
                }
                assert forall|t: int| 0 <= t < new_active@.len() implies self@.groups[(#[trigger] new_active@[t]) as int].phase
                    != Phase::Finished by {
                    if t < na0.len() {
                        assert(na0[t] == new_active@[t]);
                        assert(gsb[na0[t] as int].phase != Phase::Finished);
                    }
                }
                assert forall|t: int| 0 <= t < new_active@.len() implies (#[trigger] new_active@[t] as int) < n by {
                    if t < na0.len() {
                        assert(na0[t] == new_active@[t]);
                    }
                }
                assert forall|f: int|
                    0 <= f < n && (#[trigger] self@.groups[f]).phase != Phase::Finished implies new_active@.contains(
                        f as usize,
                    ) || snap.subrange(idx + 1, n_act as int).contains(f as usize) by {
                    assert(gsb[f].phase != Phase::Finished);
                    if na0.contains(f as usize) {
                        let t = choose|t: int| 0 <= t < na0.len() && na0[t] == f as usize;
                        assert(new_active@[t] == f as usize);
                    } else {
                        assert(snap.subrange(idx as int, n_act as int).contains(f as usize));
                        let t = choose|t: int| 0 <= t < n_act - idx && snap.subrange(idx as int, n_act as int)[t] == f as usize;
                        if t == 0 {
                            assert(f as usize == i);
                            assert(new_active@[new_active@.len() - 1] == i);
                        } else {
                            assert(snap.subrange(idx + 1, n_act as int)[t - 1] == f as usize);
                        }
                    }
                }
            }
            idx = idx + 1;
        }
        self.active_groups = new_active;
        proof {
            let gs = self@.groups;
            assert(snap.subrange(n_act as int, n_act as int).len() == 0);
            assert forall|f: int| 0 <= f < n && (#[trigger] gs[f]).phase != Phase::Finished implies self.active_groups@.contains(
                f as usize,
            ) by {
                if snap.subrange(n_act as int, n_act as int).contains(f as usize) {
                    let t = choose|t: int| 0 <= t < 0 && snap.subrange(n_act as int, n_act as int)[t] == f as usize;
                }
            }
            assert forall|g: int, d: u32|
                #![trigger gs[g].waiting_deps.contains(d)]
                0 <= g < n && gs[g].phase == Phase::Waiting && gs[g].waiting_deps.contains(d) implies {
                &&& (d as int) < gs.len()
                &&& {
                    ||| gs[d as int].phase == Phase::Waiting
                    ||| gs[d as int].phase == Phase::Running
                    ||| (gs[d as int].phase == Phase::Finished && Set::<int>::empty().contains(d as int))
                    ||| Set::<int>::empty().contains(d as int)
                }
            } by {
                let s_end = snap.subrange(n_act as int, n_act as int);
                let rest_end = s_end.to_set().map(|x: usize| x as int);
                if rest_end.contains(d as int) {
                    let y = choose|y: usize| s_end.to_set().contains(y) && d as int == y as int;
                    assert(s_end.contains(y));
                }
            }
            lemma_deps_ok_mono(gs, Set::empty(), self.active_groups@.to_set().map(|x: usize| x as int));
            lemma_same_config_sums(gs0, gs);
            assert forall|f: int| 0 <= f < n implies (#[trigger] gs[f]).tests.len() > 0 by {
                assert(same_config(gs0[f], gs[f]));
            }
            assert forall|f: int| 0 <= f < n implies #[trigger] same_config(gs0[f], gs[f]) by {}
            lemma_acyclic_same_config(gs0, gs);
            assert forall|f: int, d: int| 0 <= f < n && 0 <= d < gs[f].dep_groups.len() implies (#[trigger] gs[f].dep_groups[d] as int) < n by {
                assert(same_config(gs0[f], gs[f]));
                assert(gs0[f].dep_groups[d] == gs[f].dep_groups[d]);
            }
            assert forall|f: int, t: TestId| 0 <= f < n && #[trigger] gs[f].tests.contains(t) implies self@.visible_tests.contains(t) by {
                assert(same_config(gs0[f], gs[f]));
                assert(gs0[f].tests.contains(t));
            }
        }
    }
}

impl Fiber {
    /// Builds the judge log from the groups, which must all be done.
    fn emit_judgelog(&self) -> (r: JudgeLog)
        requires
            self.wf(),
            forall|f: int|
                0 <= f < self@.groups.len() ==> (#[trigger] self@.groups[f]).phase == Phase::Finished
                    || self@.groups[f].phase == Phase::Skipped,
        ensures
            is_judge_log_of(r, self@.kind, self@.groups),
    {
        proof {
            self.lemma_wf_groups();
            lemma_score_sum_le(self@.groups);
        }
        let ghost gs = self@.groups;
        let n = self.groups.len();
        let mut is_full = true;
        let mut k: usize = 0;
        while k < n
            invariant
                n == gs.len(),
                n == self.groups@.len(),
                gs == self@.groups,
                0 <= k <= n,
                forall|f: int| 0 <= f < n ==> #[trigger] self@.groups[f] == self.groups@[f]@,
                is_full == (forall|j: int| 0 <= j < k ==> #[trigger] gs[j].phase == Phase::Finished && gs[j].success),
            decreases n - k,
        {
            let p = self.groups[k].is_passed();
            proof {
                assert(gs[k as int] == self.groups@[k as int]@);
            }
            is_full = is_full && p;
            k = k + 1;
        }
        let mut log = JudgeLog {
            kind: self.kind,
            tests: Vec::new(),
            subtasks: Vec::new(),
            score: 0,
            is_full,
        };
        let mut i: usize = 0;
        proof {
            assert(gs.take(0) =~= Seq::<GroupView>::empty());
        }
        while i < n
            invariant
                n == gs.len(),
                n == self.groups@.len(),
                gs == self@.groups,
                0 <= i <= n,
                self.wf(),
                forall|f: int| 0 <= f < n ==> #[trigger] self@.groups[f] == self.groups@[f]@,
                forall|f: int| 0 <= f < n ==> (#[trigger] self.groups@[f]).wf(),
                forall|f: int|
                    0 <= f < n ==> (#[trigger] gs[f]).phase == Phase::Finished || gs[f].phase == Phase::Skipped,
                max_score_sum(gs) <= u32::MAX,
                forall|m: int| 0 <= m <= n ==> score_sum(#[trigger] gs.take(m)) <= max_score_sum(gs),
                log.kind == self@.kind,
                log.is_full == (forall|j: int| 0 <= j < n ==> #[trigger] gs[j].phase == Phase::Finished && gs[j].success),
                log.score == score_sum(gs.take(i as int)),
                log.subtasks@.len() == i,
                forall|j: int|
                    0 <= j < i ==> {
                        &&& (#[trigger] log.subtasks@[j]).subtask_id.value() == gs[j].id
                        &&& log.subtasks@[j].score == group_score(gs[j])
                        &&& log.subtasks@[j].components == gs[j].subtask_vis
                    },
                log.tests@ == test_rows(gs.take(i as int)),
            decreases n - i,
        {
            let ghost before = log;
            proof {
                assert(gs.take(i + 1).drop_last() =~= gs.take(i as int));
                assert(gs.take(i + 1).last() == gs[i as int]);
                assert(gs[i as int] == self.groups@[i as int]@);
            }
            self.groups[i].update_judge_log(&mut log);
            proof {
                assert forall|j: int| 0 <= j < i + 1 implies {
                    &&& (#[trigger] log.subtasks@[j]).subtask_id.value() == gs[j].id
                    &&& log.subtasks@[j].score == group_score(gs[j])
                    &&& log.subtasks@[j].components == gs[j].subtask_vis
                } by {
                    if j < i {
                        assert(log.subtasks@[j] == before.subtasks@[j]);
                    }
                }
            }
            i = i + 1;
        }
        proof {
            assert(gs.take(n as int) =~= gs);
        }
        log
    }

    /// Asks the active groups, in order, for a test to run.
    fn poll_groups_for_tests(&mut self) -> (r: Option<TestId>)
        requires
            old(self).wf(),
        ensures
            final(self).wf(),
            final(self)@.kind == old(self)@.kind,
            final(self)@.visible_tests == old(self)@.visible_tests,
            final(self)@.active_groups == old(self)@.active_groups,
            final(self)@.finished == old(self)@.finished,
            final(self)@.last_live_score == old(self)@.last_live_score,
            final(self)@.groups.len() == old(self)@.groups.len(),
            r is None ==> final(self)@ == old(self)@ && forall|t: int|
                0 <= t < old(self)@.active_groups.len() ==> !can_pop(
                    old(self)@.groups[#[trigger] old(self)@.active_groups[t] as int],
                ),
            r matches Some(x) ==> exists|t: int|
                #![trigger old(self)@.active_groups[t]]
                0 <= t < old(self)@.active_groups.len() && {
                    let a = old(self)@.active_groups[t] as int;
                    &&& can_pop(old(self)@.groups[a])
                    &&& x == old(self)@.groups[a].queued[0]
                    &&& final(self)@.groups == old(self)@.groups.update(a, popped(old(self)@.groups[a]))
                    &&& forall|u: int|
                        0 <= u < t ==> !can_pop(old(self)@.groups[#[trigger] old(self)@.active_groups[u] as int])
                },
    {
        proof {
            self.lemma_wf_groups();
        }
        let ghost gs0 = self@.groups;
        let ghost act = self@.active_groups;
        let n_act = self.active_groups.len();
        let mut idx: usize = 0;
        while idx < n_act
            invariant
                old(self).wf(),
                self.wf(),
                self@ == old(self)@,
                self.visible_tests == old(self).visible_tests,
                self.groups@.len() == old(self).groups@.len(),
                gs0 == old(self)@.groups,
                act == old(self)@.active_groups,
                n_act == act.len(),
                0 <= idx <= n_act,
                forall|u: int| 0 <= u < idx ==> !can_pop(gs0[#[trigger] act[u] as int]),
            decreases n_act - idx,
        {
            let i = self.active_groups[idx];
            proof {
                assert(act[idx as int] == i);
                self.lemma_wf_groups();
                assert(gs0[i as int] == self.groups@[i as int]@);
            }
            let ghost before = self.groups@;
            let mut g = self.groups.remove(i);
            let reply = g.pop_test();
            self.groups.insert(i, g);
            match reply {
                Some(t) => {
                    proof {
                        let gs1 = self@.groups;
                        assert(self.groups@ == before.update(i as int, g));
                        assert(gs1 =~= gs0.update(i as int, popped(gs0[i as int])));
                        lemma_pop_keeps_wf(old(self), self, i as int);
                    }
                    return Some(t);
                },
                None => {
                    proof {
                        assert forall|f: int| 0 <= f < self.groups@.len() implies #[trigger] self.groups@[f]@ == before[f]@ && self.groups@[f].wf() by {
                            if f != i {
                                assert(self.groups@[f] == before[f]);
                            }
                        }
                        assert(self@.groups =~= gs0);
                    }
                },
            }
            idx = idx + 1;
        }
        None
    }
}

/// One `poll` of a fiber in state `v` gives reply `r` and leaves state
/// `w`: a finished fiber says nothing; a changed score is reported first;
/// else the finished groups announce their results, and the first group
/// that can hand out a test does so, or, with no test running, the judge
/// log is emitted, or the fiber waits.
pub open spec fn poll_step(v: FiberView, w: FiberView, r: FiberReply) -> bool {
    &&& w.kind == v.kind
    &&& w.visible_tests == v.visible_tests
    &&& v.finished ==> r is Nothing && w == v
    &&& !v.finished && score_sum(v.groups) != v.last_live_score ==> {
        &&& r == FiberReply::LiveScore { score: score_sum(v.groups) as u32 }
        &&& w == (FiberView {
            last_live_score: score_sum(v.groups) as u32,
            ..v
        })
    }
    &&& !v.finished && score_sum(v.groups) == v.last_live_score ==> {
        &&& w.last_live_score == v.last_live_score
        &&& w.groups.len() == v.groups.len()
        &&& forall|f: int|
            0 <= f < w.groups.len() ==> #[trigger] same_config(
                v.groups[f],
                w.groups[f],
            )
        &&& match r {
            FiberReply::Test { test_id } => {
                &&& !w.finished
                &&& hands_out(v.groups, w.groups, test_id)
                &&& w.visible_tests.contains(test_id)
                &&& exists|f: int|
                    0 <= f < w.groups.len() && (#[trigger] w.groups[f]).phase
                        == Phase::Running && w.groups[f].running.contains(test_id)
            },
            FiberReply::Finish(log) => {
                &&& w.finished
                &&& running_sum(w.groups) == 0
                &&& forall|f: int|
                    0 <= f < w.groups.len() ==> (#[trigger] w.groups[f]).phase
                        == Phase::Finished || w.groups[f].phase == Phase::Skipped
                &&& is_judge_log_of(log, w.kind, w.groups)
            },
            FiberReply::Nothing => !w.finished && running_sum(w.groups) > 0 && idle(
                w.groups,
            ),
            FiberReply::LiveScore { .. } => false,
        }
        &&& exists|gs1: Seq<GroupView>|
            #![trigger after_announce(v.groups, gs1)]
            after_announce(v.groups, gs1) && match r {
                FiberReply::Test { test_id } => exists|a: int|
                    #![trigger first_poppable(gs1, a)]
                    first_poppable(gs1, a) && test_id == gs1[a].queued[0] && w.groups == gs1.update(
                        a,
                        popped(gs1[a]),
                    ),
                FiberReply::Finish(_) => w.groups == gs1 && running_sum(gs1) == 0 && forall|f: int|
                    0 <= f < gs1.len() ==> !can_pop(#[trigger] gs1[f]),
                FiberReply::Nothing => w.groups == gs1 && running_sum(gs1) > 0 && forall|f: int|
                    0 <= f < gs1.len() ==> !can_pop(#[trigger] gs1[f]),
                FiberReply::LiveScore { .. } => false,
            }
    }
}

impl Fiber {
    /// Advances the fiber: reports a changed live score first; otherwise
    /// announces the finished groups, then hands out a test, or emits the
    /// judge log once no test runs and none can start, or waits.
    pub fn poll(&mut self) -> (r: FiberReply)
        requires
            old(self).wf(),
        ensures
            final(self).wf(),
            poll_step(old(self)@, final(self)@, r),
    {
        if self.finished {
            return FiberReply::Nothing;
        }
        let cur_live_score = self.current_score();
        if cur_live_score != self.last_live_score {
            self.last_live_score = cur_live_score;
            return FiberReply::LiveScore { score: cur_live_score };
        }
        let ghost gs0 = self@.groups;
        self.process_active();
        let ghost gs1 = self@.groups;
        let ghost act1 = self@.active_groups;
        proof {
            assert(after_announce(gs0, gs1));
        }
        let polled = self.poll_groups_for_tests();
        match polled {
            Some(test_id) => {
                proof {
                    let gs2 = self@.groups;
                    let t = choose|t: int|
                        #![trigger act1[t]]
                        0 <= t < act1.len() && {
                            let a = act1[t] as int;
                            &&& can_pop(gs1[a])
                            &&& test_id == gs1[a].queued[0]
                            &&& gs2 == gs1.update(a, popped(gs1[a]))
                            &&& forall|u: int| 0 <= u < t ==> !can_pop(gs1[#[trigger] act1[u] as int])
                        };
                    let a = act1[t] as int;
                    self.lemma_wf_groups();
                    assert(group_wf(gs1[a])) by {
                        assert(gs1[a] == gs2.update(a, gs1[a])[a]);
                    }
                    assert(gs1[a].tests.contains(test_id)) by {
                        assert(gs1[a].queued.contains(test_id));
                    }
                    lemma_lower_bound(gs1[a].running, test_id.value());
                    let pos = lower_bound(gs1[a].running, test_id.value());
                    assert(gs2[a].running[pos] == test_id);
                    assert(gs2[a].running.contains(test_id));
                    assert(same_config(gs1[a], gs2[a]));
                    assert forall|f: int| 0 <= f < gs2.len() implies #[trigger] same_config(gs0[f], gs2[f]) by {
                        assert(same_config(gs0[f], gs1[f]));
                        if f != a {
                            assert(gs2[f] == gs1[f]);
                        }
                    }
                    assert(gs2[a].tests.contains(test_id));
                    assert(!gs1[a].running.contains(test_id)) by {
                        assert(gs1[a].queued.contains(test_id));
                    }
                    assert(!(gs0[a].phase == Phase::Running && gs0[a].running.contains(test_id))) by {
                        if gs0[a].phase != Phase::Waiting {
                            assert(gs1[a] == gs0[a]);
                        }
                    }
                    assert(hands_out(gs0, gs2, test_id));
                    assert forall|f: int| 0 <= f < a implies !can_pop(#[trigger] gs1[f]) by {
                        if can_pop(gs1[f]) {
                            assert(gs2[f] == gs1[f]);
                            assert(self@.active_groups.contains(f as usize));
                            let u = choose|u: int| 0 <= u < act1.len() && act1[u] == f as usize;
                            if u >= t {
                                if u > t {
                                    assert(act1[t] < act1[u]);
                                }
                            }
                            assert(!can_pop(gs1[act1[u] as int]));
                        }
                    }
                    assert(first_poppable(gs1, a));
                }
                FiberReply::Test { test_id }
            },
            None => {
                let ng = self.groups.len();
                if self.running_tests() == 0 {
                    proof {
                        self.lemma_wf_groups();
                        assert(self@.groups.len() == ng);
                        lemma_all_done(self@.groups, self@.active_groups);
                    }
                    proof {
                        assert forall|f: int| 0 <= f < gs1.len() implies !can_pop(#[trigger] gs1[f]) by {
                            if gs1[f].phase != Phase::Finished {
                                assert(self@.active_groups.contains(f as usize));
                                let u = choose|u: int| 0 <= u < act1.len() && act1[u] == f as usize;
                                assert(!can_pop(gs1[act1[u] as int]));
                            }
                        }
                    }
                    let log = self.emit_judgelog();
                    self.finished = true;
                    FiberReply::Finish(log)
                } else {
                    proof {
                        assert forall|f: int| 0 <= f < gs1.len() implies !can_pop(#[trigger] gs1[f]) by {
                            if gs1[f].phase != Phase::Finished {
                                assert(self@.active_groups.contains(f as usize));
                                let u = choose|u: int| 0 <= u < act1.len() && act1[u] == f as usize;
                                assert(!can_pop(gs1[act1[u] as int]));
                            }
                        }
                    }
                    FiberReply::Nothing
                }
            },
        }
    }
}

impl Fiber {
    /// The score gained so far fits in `u32`.
    pub proof fn lemma_score_fits(&self)
        requires
            self.wf(),
        ensures
            0 <= score_sum(self@.groups) <= u32::MAX,
    {
        lemma_score_sum_le(self@.groups);
        assert(self@.groups.take(self@.groups.len() as int) =~= self@.groups);
        lemma_score_sum_nonneg(self@.groups);
    }
}

proof fn lemma_score_sum_nonneg(gs: Seq<GroupView>)
    ensures
        score_sum(gs) >= 0,
    decreases gs.len(),
{
    if gs.len() > 0 {
        lemma_score_sum_nonneg(gs.drop_last());
    }
}

/// Dependencies of config group `c` as a fiber of audience `kind` sees them.
fn fiber_dep_ids(cfg: &Config, kind: JudgeLogKind, c: usize) -> (r: Vec<u32>)
    requires
        (c as int) < cfg.groups@.len() < u32::MAX,
    ensures
        r@ == fiber_deps(cfg.groups@, kind, c as int, cfg.groups@[c as int].deps@),
{
    let ghost cg = cfg.groups@;
    let ghost deps = cfg.groups@[c as int].deps@;
    let nd = cfg.groups[c].deps.len();
    let mut out: Vec<u32> = Vec::new();
    let mut k: usize = 0;
    while k < nd
        invariant
            cg == cfg.groups@,
            (c as int) < cg.len() < u32::MAX,
            deps == cg[c as int].deps@,
            nd == deps.len(),
            0 <= k <= nd,
            out@ == fiber_deps(cg, kind, c as int, deps.take(k as int)),
        decreases nd - k,
    {
        proof {
            assert(deps.take(k + 1).drop_last() =~= deps.take(k as int));
            assert(deps.take(k + 1).last() == deps[k as int]);
            crate::cfg::lemma_get_group_range(cg, deps[k as int]);
        }
        match cfg.get_group(&cfg.groups[c].deps[k]) {
            Some(g) => {
                let shown = GroupVisPreset::of(cfg.groups[g].feedback).is_visible_for(kind);
                if !(g < c && !shown) {
                    out.push(g as u32);
                }
            },
            None => {},
        }
        k = k + 1;
    }
    proof {
        assert(deps.take(nd as int) =~= deps);
    }
    out
}

/// Score sums of shown groups grow with the prefix.
proof fn lemma_visible_score_sum_mono(cfg: Seq<crate::cfg::Group>, k: JudgeLogKind, i: int, j: int)
    requires
        0 <= i <= j,
    ensures
        visible_score_sum(cfg, k, i) <= visible_score_sum(cfg, k, j),
    decreases j - i,
{
    if i < j {
        lemma_visible_score_sum_mono(cfg, k, i, j - 1);
    }
}

/// Test counts of shown groups grow with the prefix.
proof fn lemma_visible_test_sum_mono(cfg: Seq<crate::cfg::Group>, tags: Seq<String>, k: JudgeLogKind, i: int, j: int)
    requires
        0 <= i <= j,
    ensures
        visible_test_sum(cfg, tags, k, i) <= visible_test_sum(cfg, tags, k, j),
    decreases j - i,
{
    if i < j {
        lemma_visible_test_sum_mono(cfg, tags, k, i, j - 1);
    }
}

impl Fiber {
    /// Whether a fiber of audience `kind` can be built from `cfg` and run
    /// to its judge log: see [`fiber_config_ok`].
    pub fn config_ok(cfg: &Config, problem_info: &ProblemInfo, kind: JudgeLogKind) -> (r: bool)
        ensures
            r == fiber_config_ok(cfg.groups@, problem_info.tests@, kind),
    {
        let ghost cg = cfg.groups@;
        let ghost tags = problem_info.tests@;
        let n = cfg.groups.len();
        if n >= 4294967295usize || problem_info.tests.len() >= 4294967295usize {
            return false;
        }
        let mut c: usize = 0;
        while c < n
            invariant
                cg == cfg.groups@,
                n == cg.len(),
                0 <= c <= n,
                forall|c2: int, d: int|
                    0 <= c2 < c && cfg_visible(cg, kind, c2) && 0 <= d < cg[c2].deps@.len()
                        ==> #[trigger] spec_get_group(cg, cg[c2].deps@[d]) is Some,
            decreases n - c,
        {
            if GroupVisPreset::of(cfg.groups[c].feedback).is_visible_for(kind) {
                let nd = cfg.groups[c].deps.len();
                let mut d: usize = 0;
                while d < nd
                    invariant
                        cg == cfg.groups@,
                        n == cg.len(),
                        0 <= c < n,
                        nd == cg[c as int].deps@.len(),
                        0 <= d <= nd,
                        cfg_visible(cg, kind, c as int),
                        forall|d2: int| 0 <= d2 < d ==> #[trigger] spec_get_group(cg, cg[c as int].deps@[d2]) is Some,
                    decreases nd - d,
                {
                    if cfg.get_group(&cfg.groups[c].deps[d]).is_none() {
                        proof {
                            assert(cfg_visible(cg, kind, c as int));
                            assert(!(spec_get_group(cg, cg[c as int].deps@[d as int]) is Some));
                        }
                        return false;
                    }
                    d = d + 1;
                }
            }
            c = c + 1;
        }
        let mut score_acc: u64 = 0;
        let mut test_acc: u64 = 0;
        let mut f: usize = 0;
        let mut lists: Vec<Vec<u32>> = Vec::new();
        let ghost visn = visible_indices(cg, kind, n as int);
        c = 0;
        while c < n
            invariant
                cg == cfg.groups@,
                tags == problem_info.tests@,
                n == cg.len(),
                n < u32::MAX,
                tags.len() < u32::MAX,
                0 <= c <= n,
                forall|c2: int, d: int|
                    0 <= c2 < cg.len() && cfg_visible(cg, kind, c2) && 0 <= d < cg[c2].deps@.len()
                        ==> #[trigger] spec_get_group(cg, cg[c2].deps@[d]) is Some,
                f == visible_indices(cg, kind, c as int).len(),
                f <= c,
                score_acc == visible_score_sum(cg, kind, c as int),
                score_acc <= u32::MAX,
                test_acc == visible_test_sum(cg, tags, kind, c as int),
                test_acc <= u32::MAX,
                forall|f2: int|
                    0 <= f2 < f ==> matching_tests(
                        tags,
                        spec_tests_tag(cg[#[trigger] visible_indices(cg, kind, c as int)[f2]]),
                        tags.len() as int,
                    ).len() > 0,
                visn == visible_indices(cg, kind, n as int),
                lists@.len() == f,
                forall|f2: int|
                    0 <= f2 < f ==> (#[trigger] lists@[f2])@ == fiber_deps(cg, kind, visn[f2], cg[visn[f2]].deps@),
            decreases n - c,
        {
            let ghost vis0 = visible_indices(cg, kind, c as int);
            let ghost vis1 = visible_indices(cg, kind, c + 1);
            proof {
                lemma_visible_prefix(cg, kind, c + 1, n as int);
                lemma_visible_score_sum_mono(cg, kind, c + 1, n as int);
                lemma_visible_test_sum_mono(cg, tags, kind, c + 1, n as int);
            }
            if GroupVisPreset::of(cfg.groups[c].feedback).is_visible_for(kind) {
                proof {
                    assert(vis1 == vis0.push(c as int));
                    assert(vis1[f as int] == c as int);
                    assert(visn[f as int] == c as int);
                }
                score_acc = score_acc + cfg.groups[c].score as u64;
                if score_acc > 4294967295u64 {
                    return false;
                }
                let tests = matching_test_ids(&problem_info.tests, cfg.groups[c].tests_tag());
                if tests.len() as u64 > 4294967295u64 - test_acc {
                    return false;
                }
                test_acc = test_acc + tests.len() as u64;
                if tests.len() == 0 {
                    return false;
                }
                let deps = fiber_dep_ids(cfg, kind, c);
                proof {
                    assert(deps@ == fiber_deps(cg, kind, visn[f as int], cg[visn[f as int]].deps@));
                }
                lists.push(deps);
                proof {
                    assert forall|f2: int|
                        0 <= f2 < f + 1 implies matching_tests(
                        tags,
                        spec_tests_tag(cg[#[trigger] vis1[f2]]),
                        tags.len() as int,
                    ).len() > 0 by {
                        if f2 < f {
                            assert(vis1[f2] == vis0[f2]);
                        }
                    }
                }
                f = f + 1;
            } else {
                proof {
                    assert(vis1 == vis0);
                }
            }
            c = c + 1;
        }
        proof {
            let vis = visible_indices(cg, kind, n as int);
            assert forall|f2: int| 0 <= f2 < vis.len() implies matching_tests(
                tags,
                spec_tests_tag(cg[#[trigger] vis[f2]]),
                tags.len() as int,
            ).len() > 0 by {}
            assert(lists_view(lists@) =~= fiber_dep_lists(cg, kind));
        }
        graph_is_acyclic(&lists)
    }
}

/// All flags set, all counted.
proof fn lemma_count_all(s: Seq<bool>)
    requires
        forall|k: int| 0 <= k < s.len() ==> s[k],
    ensures
        crate::soft::count_true(s) == s.len(),
    decreases s.len(),
{
    if s.len() > 0 {
        lemma_count_all(s.drop_last());
    }
}

/// The successor lists of `g` as sequences.
pub open spec fn lists_view(g: Seq<Vec<u32>>) -> Seq<Seq<u32>> {
    g.map_values(|v: Vec<u32>| v@)
}

/// Every successor of a node that is not done is done: none is left.
pub open spec fn blocked(g: Seq<Seq<u32>>, done: Seq<bool>, f: int) -> bool {
    exists|d: int| 0 <= d < g[f].len() && !done[#[trigger] g[f][d] as int]
}

/// A rank leaves no node blocked by a node that is not done: following
/// blocking successors lowers the rank without end.
proof fn lemma_blocked_unranked(g: Seq<Seq<u32>>, rank: Seq<nat>, done: Seq<bool>, f: int)
    requires
        done.len() == g.len(),
        0 <= f < g.len(),
        !done[f],
        forall|x: int| 0 <= x < g.len() && !done[x] ==> #[trigger] blocked(g, done, x),
    ensures
        !graph_ranked(g, rank),
    decreases rank[f],
{
    if graph_ranked(g, rank) {
        assert(blocked(g, done, f));
        let d = choose|d: int| 0 <= d < g[f].len() && !done[#[trigger] g[f][d] as int];
        let x = g[f][d] as int;
        assert(x < g.len() && rank[x] < rank[f]);
        lemma_blocked_unranked(g, rank, done, x);
    }
}

/// Whether graph `g`, given by successor lists, names only its own nodes
/// and has no cycle: nodes whose successors are all done are done, pass
/// after pass, until a pass does nothing; the graph has no cycle exactly
/// when then every node is done.
pub fn graph_is_acyclic(g: &Vec<Vec<u32>>) -> (r: bool)
    ensures
        r == graph_acyclic(lists_view(g@)),
{
    let ghost gv = lists_view(g@);
    let n = g.len();
    let mut f: usize = 0;
    while f < n
        invariant
            n == g@.len(),
            gv == lists_view(g@),
            0 <= f <= n,
            forall|f2: int, d: int| 0 <= f2 < f && 0 <= d < gv[f2].len() ==> (#[trigger] gv[f2][d] as int) < n,
        decreases n - f,
    {
        let mut d: usize = 0;
        while d < g[f].len()
            invariant
                n == g@.len(),
                gv == lists_view(g@),
                0 <= f < n,
                0 <= d <= g@[f as int]@.len(),
                forall|f2: int, d2: int| 0 <= f2 < f && 0 <= d2 < gv[f2].len() ==> (#[trigger] gv[f2][d2] as int) < n,
                forall|d2: int| 0 <= d2 < d ==> (#[trigger] gv[f as int][d2] as int) < n,
            decreases g@[f as int]@.len() - d,
        {
            proof {
                assert(gv[f as int] == g@[f as int]@);
            }
            if g[f][d] as usize >= n {
                proof {
                    if graph_acyclic(gv) {
                        let rank = choose|rank: Seq<nat>| graph_ranked(gv, rank);
                        assert((gv[f as int][d as int] as int) < gv.len());
                    }
                }
                return false;
            }
            d = d + 1;
        }
        proof {
            assert(gv[f as int] == g@[f as int]@);
        }
        f = f + 1;
    }
    let mut done: Vec<bool> = Vec::new();
    let mut i: usize = 0;
    while i < n
        invariant
            0 <= i <= n,
            done@.len() == i,
            forall|k: int| 0 <= k < i ==> !done@[k],
        decreases n - i,
    {
        done.push(false);
        i = i + 1;
    }
    let ghost mut rank: Seq<nat> = Seq::new(n as nat, |k: int| 0nat);
    let ghost mut next: nat = 0;
    let mut ndone: usize = 0;
    proof {
        crate::soft::lemma_count_none(done@);
    }
    let mut progress = true;
    while progress
        invariant
            n == g@.len(),
            gv == lists_view(g@),
            gv.len() == n,
            forall|f2: int, d: int| 0 <= f2 < n && 0 <= d < gv[f2].len() ==> (#[trigger] gv[f2][d] as int) < n,
            done@.len() == n,
            rank.len() == n,
            ndone == crate::soft::count_true(done@),
            ndone <= n,
            forall|x: int, d: int|
                0 <= x < n && done@[x] && 0 <= d < gv[x].len() ==> done@[#[trigger] gv[x][d] as int] && rank[gv[x][d] as int]
                    < rank[x],
            forall|y: int| 0 <= y < n && done@[y] ==> rank[y] < next,
            !progress ==> forall|x: int| 0 <= x < n && !done@[x] ==> #[trigger] blocked(gv, done@, x),
        decreases n - ndone + (if progress {
            1int
        } else {
            0int
        }),
    {
        progress = false;
        let ghost nd0 = ndone;
        let mut x: usize = 0;
        while x < n
            invariant
                n == g@.len(),
                gv == lists_view(g@),
                gv.len() == n,
                forall|f2: int, d: int| 0 <= f2 < n && 0 <= d < gv[f2].len() ==> (#[trigger] gv[f2][d] as int) < n,
                0 <= x <= n,
                done@.len() == n,
                rank.len() == n,
                ndone == crate::soft::count_true(done@),
                ndone <= n,
                ndone >= nd0,
                progress ==> ndone > nd0,
                forall|y: int, d: int|
                    0 <= y < n && done@[y] && 0 <= d < gv[y].len() ==> done@[#[trigger] gv[y][d] as int]
                        && rank[gv[y][d] as int] < rank[y],
                forall|y: int| 0 <= y < n && done@[y] ==> rank[y] < next,
                !progress ==> forall|y: int| 0 <= y < x && !done@[y] ==> #[trigger] blocked(gv, done@, y),
            decreases n - x,
        {
            if !done[x] {
                let mut all: bool = true;
                let mut d: usize = 0;
                proof {
                    assert(gv[x as int] == g@[x as int]@);
                }
                while d < g[x].len()
                    invariant
                        n == g@.len(),
                        gv == lists_view(g@),
                        0 <= x < n,
                        gv[x as int] == g@[x as int]@,
                        0 <= d <= gv[x as int].len(),
                        done@.len() == n,
                        forall|f2: int, d2: int| 0 <= f2 < n && 0 <= d2 < gv[f2].len() ==> (#[trigger] gv[f2][d2] as int) < n,
                        all == forall|d2: int| 0 <= d2 < d ==> done@[#[trigger] gv[x as int][d2] as int],
                    decreases gv[x as int].len() - d,
                {
                    let s = g[x][d] as usize;
                    if !done[s] {
                        all = false;
                    }
                    d = d + 1;
                }
                if all {
                    proof {
                        crate::soft::lemma_count_true(done@, x as int);
                        rank = rank.update(x as int, next);
                        next = next + 1;
                    }
                    done.set(x, true);
                    ndone = ndone + 1;
                    progress = true;
                } else {
                    proof {
                        let d2 = choose|d2: int| 0 <= d2 < gv[x as int].len() && !done@[#[trigger] gv[x as int][d2] as int];
                        assert(blocked(gv, done@, x as int));
                    }
                }
            }
            x = x + 1;
        }
    }
    if ndone == n {
        proof {
            assert forall|k: int| 0 <= k < n implies done@[k] by {
                if !done@[k] {
                    crate::soft::lemma_count_true(done@, k);
                }
            }
            assert(graph_ranked(gv, rank));
        }
        true
    } else {
        proof {
            if forall|k: int| 0 <= k < n ==> done@[k] {
                lemma_count_all(done@);
            }
            let k = choose|k: int| 0 <= k < n && !done@[k];
            if graph_acyclic(gv) {
                let r = choose|r: Seq<nat>| graph_ranked(gv, r);
                lemma_blocked_unranked(gv, r, done@, k);
            }
        }
        false
    }
}

/// Sum of the scores of subtask rows.
pub open spec fn subtask_score_sum(rows: Seq<JudgeLogSubtaskRow>) -> int
    decreases rows.len(),
{
    if rows.len() == 0 {
        0
    } else {
        subtask_score_sum(rows.drop_last()) + rows.last().score
    }
}

/// The score of a judge log is the sum of the scores of its subtask rows.
pub proof fn lemma_judge_log_score(log: JudgeLog, kind: JudgeLogKind, groups: Seq<GroupView>)
    requires
        is_judge_log_of(log, kind, groups),
    ensures
        log.score == subtask_score_sum(log.subtasks@),
{
    lemma_score_sums_agree(groups, log.subtasks@);
}

proof fn lemma_score_sums_agree(groups: Seq<GroupView>, rows: Seq<JudgeLogSubtaskRow>)
    requires
        rows.len() == groups.len(),
        forall|k: int| 0 <= k < groups.len() ==> (#[trigger] rows[k]).score == group_score(groups[k]),
    ensures
        score_sum(groups) == subtask_score_sum(rows),
    decreases groups.len(),
{
    if groups.len() > 0 {
        let g0 = groups.drop_last();
        let r0 = rows.drop_last();
        assert forall|k: int| 0 <= k < g0.len() implies (#[trigger] r0[k]).score == group_score(g0[k]) by {
            assert(r0[k] == rows[k]);
            assert(g0[k] == groups[k]);
        }
        lemma_score_sums_agree(g0, r0);
        assert(rows[rows.len() - 1].score == group_score(groups[groups.len() - 1]));
    }
}

/// Handing out a test from group `a` keeps the fiber invariant.
proof fn lemma_pop_keeps_wf(old_f: &Fiber, new_f: &Fiber, a: int)
    requires
        old_f.wf(),
        0 <= a < old_f@.groups.len(),
        can_pop(old_f@.groups[a]),
        new_f@ == (FiberView { groups: old_f@.groups.update(a, popped(old_f@.groups[a])), ..old_f@ }),
        new_f.visible_tests == old_f.visible_tests,
        new_f.groups@.len() == old_f.groups@.len(),
        forall|f: int| 0 <= f < new_f.groups@.len() ==> (#[trigger] new_f.groups@[f]).wf(),
    ensures
        new_f.wf(),
{
    let g0 = old_f@.groups;
    let g1 = new_f@.groups;
    let n = g1.len();
    assert forall|f: int| 0 <= f < n implies #[trigger] same_config(g0[f], g1[f]) && g1[f].phase == g0[f].phase
        && g1[f].waiting_deps == g0[f].waiting_deps by {
        if f != a {
            assert(g1[f] == g0[f]);
        }
    }
    lemma_same_config_sums(g0, g1);
    let rest = old_f@.active_groups.to_set().map(|x: usize| x as int);
    assert forall|g: int, d: u32|
        #![trigger g1[g].waiting_deps.contains(d)]
        0 <= g < n && g1[g].phase == Phase::Waiting && g1[g].waiting_deps.contains(d) implies {
        &&& (d as int) < g1.len()
        &&& {
            ||| g1[d as int].phase == Phase::Waiting
            ||| g1[d as int].phase == Phase::Running
            ||| (g1[d as int].phase == Phase::Finished && rest.contains(d as int))
            ||| Set::<int>::empty().contains(d as int)
        }
    } by {
        assert(same_config(g0[g], g1[g]) && g1[g].phase == g0[g].phase && g1[g].waiting_deps == g0[g].waiting_deps);
        assert(g0[g].waiting_deps.contains(d));
        assert(same_config(g0[d as int], g1[d as int]) && g1[d as int].phase == g0[d as int].phase);
    }
    assert forall|f: int| 0 <= f < n && (#[trigger] g1[f]).phase != Phase::Finished implies new_f@.active_groups.contains(
        f as usize,
    ) by {
        assert(same_config(g0[f], g1[f]) && g1[f].phase == g0[f].phase);
    }
    assert forall|f: int| 0 <= f < n implies (#[trigger] g1[f]).phase != Phase::Building by {
        assert(same_config(g0[f], g1[f]) && g1[f].phase == g0[f].phase);
    }
    assert forall|f: int, t: TestId| 0 <= f < n && #[trigger] g1[f].tests.contains(t) implies new_f@.visible_tests.contains(t) by {
        assert(same_config(g0[f], g1[f]));
        assert(g0[f].tests.contains(t));
    }
    lemma_acyclic_same_config(g0, g1);
    assert forall|f: int, d: int| 0 <= f < n && 0 <= d < g1[f].dep_groups.len() implies (#[trigger] g1[f].dep_groups[d] as int) < n by {
        assert(same_config(g0[f], g1[f]));
        assert(g0[f].dep_groups[d] == g1[f].dep_groups[d]);
    }
    assert forall|f: int| 0 <= f < n implies (#[trigger] g1[f]).tests.len() > 0 by {
        assert(same_config(g0[f], g1[f]));
    }
}

/// With no running test, a running group has no running tests.
proof fn lemma_running_sum_zero(gs: Seq<GroupView>)
    requires
        running_sum(gs) == 0,
    ensures
        forall|f: int| 0 <= f < gs.len() && (#[trigger] gs[f]).phase == Phase::Running ==> gs[f].running.len() == 0,
    decreases gs.len(),
{
    if gs.len() > 0 {
        lemma_running_sum_nonneg(gs.drop_last());
        lemma_running_sum_zero(gs.drop_last());
        assert forall|f: int| 0 <= f < gs.len() && (#[trigger] gs[f]).phase == Phase::Running implies gs[f].running.len() == 0 by {
            if f < gs.len() - 1 {
                assert(gs.drop_last()[f] == gs[f]);
            }
        }
    }
}

proof fn lemma_running_sum_nonneg(gs: Seq<GroupView>)
    ensures
        running_sum(gs) >= 0,
    decreases gs.len(),
{
    if gs.len() > 0 {
        lemma_running_sum_nonneg(gs.drop_last());
    }
}

/// With nothing running, group `g` does not wait: what it waits for has a
/// smaller rank and would have to wait too.
proof fn lemma_not_waiting(gs: Seq<GroupView>, g: int)
    requires
        0 <= g < gs.len(),
        groups_ok(gs),
        deps_ok(gs, Set::empty(), Set::empty()),
        forall|f: int| 0 <= f < gs.len() ==> (#[trigger] gs[f]).phase != Phase::Running,
    ensures
        gs[g].phase != Phase::Waiting,
{
    let rank = choose|rank: Seq<nat>| ranked(gs, rank);
    lemma_not_waiting_ranked(gs, rank, g);
}

/// With no group running, no group waits: the one it would wait for would
/// wait in turn, for a group of ever smaller rank.
proof fn lemma_not_waiting_ranked(gs: Seq<GroupView>, rank: Seq<nat>, g: int)
    requires
        0 <= g < gs.len(),
        groups_ok(gs),
        ranked(gs, rank),
        deps_ok(gs, Set::empty(), Set::empty()),
        forall|f: int| 0 <= f < gs.len() ==> (#[trigger] gs[f]).phase != Phase::Running,
    ensures
        gs[g].phase != Phase::Waiting,
    decreases rank[g],
{
    if gs[g].phase == Phase::Waiting {
        assert(group_wf(gs[g]));
        let d = gs[g].waiting_deps.choose();
        assert(gs[g].waiting_deps.contains(d));
        assert(gs[g].dep_groups.to_set().contains(d));
        let k = choose|k: int| 0 <= k < gs[g].dep_groups.len() && gs[g].dep_groups[k] == d;
        assert(rank[gs[g].dep_groups[k] as int] < rank[g]);
        lemma_not_waiting_ranked(gs, rank, d as int);
        assert(gs[d as int].phase != Phase::Running);
    }
}

/// A running group that runs nothing and cannot hand out a test has no tests.
proof fn lemma_running_can_pop(v: GroupView)
    requires
        group_wf(v),
        v.phase == Phase::Running,
        v.running.len() == 0,
        !can_pop(v),
    ensures
        v.tests.len() == 0,
{
}

/// When no group can hand out a test and none runs one, every group is done.
proof fn lemma_all_done(gs: Seq<GroupView>, act: Seq<usize>)
    requires
        gs.len() <= usize::MAX,
        groups_ok(gs),
        deps_ok(gs, Set::empty(), Set::empty()),
        running_sum(gs) == 0,
        forall|t: int| 0 <= t < act.len() ==> !can_pop(gs[#[trigger] act[t] as int]),
        forall|f: int| 0 <= f < gs.len() && (#[trigger] gs[f]).phase != Phase::Finished ==> act.contains(f as usize),
    ensures
        forall|f: int|
            0 <= f < gs.len() ==> (#[trigger] gs[f]).phase == Phase::Finished || gs[f].phase == Phase::Skipped,
{
    lemma_running_sum_zero(gs);
    assert forall|f: int| 0 <= f < gs.len() implies (#[trigger] gs[f]).phase != Phase::Running by {
        if gs[f].phase == Phase::Running {
            assert(act.contains(f as usize));
            let t = choose|t: int| 0 <= t < act.len() && act[t] == f as usize;
            assert(!can_pop(gs[act[t] as int]));
            assert(group_wf(gs[f]));
            lemma_running_can_pop(gs[f]);
        }
    }
    assert forall|f: int| 0 <= f < gs.len() implies (#[trigger] gs[f]).phase == Phase::Finished || gs[f].phase
        == Phase::Skipped by {
        lemma_not_waiting(gs, f);
    }
}

/// Groups that each have a test are no more than their tests.
proof fn lemma_len_le_tests_sum(gs: Seq<GroupView>)
    requires
        forall|f: int| 0 <= f < gs.len() ==> (#[trigger] gs[f]).tests.len() > 0,
    ensures
        gs.len() <= tests_sum(gs),
    decreases gs.len(),
{
    if gs.len() > 0 {
        let g0 = gs.drop_last();
        assert forall|f: int| 0 <= f < g0.len() implies (#[trigger] g0[f]).tests.len() > 0 by {
            assert(g0[f] == gs[f]);
        }
        lemma_len_le_tests_sum(g0);
        assert(gs[gs.len() - 1].tests.len() > 0);
    }
}

/// `deps_ok` holds for a larger set of not-yet-announced groups.
proof fn lemma_deps_ok_mono(gs: Seq<GroupView>, r1: Set<int>, r2: Set<int>)
    requires
        deps_ok(gs, r1, Set::empty()),
        r1.subset_of(r2),
    ensures
        deps_ok(gs, r2, Set::empty()),
{
    assert forall|g: int, d: u32|
        #![trigger gs[g].waiting_deps.contains(d)]
        0 <= g < gs.len() && gs[g].phase == Phase::Waiting && gs[g].waiting_deps.contains(d) implies {
        &&& (d as int) < gs.len()
        &&& {
            ||| gs[d as int].phase == Phase::Waiting
            ||| gs[d as int].phase == Phase::Running
            ||| (gs[d as int].phase == Phase::Finished && r2.contains(d as int))
            ||| Set::<int>::empty().contains(d as int)
        }
    } by {
        if gs[d as int].phase == Phase::Finished && r1.contains(d as int) {
            assert(r2.contains(d as int));
        }
    }
}

/// One group processed while a failure of `k` propagates keeps `deps_ok`.
proof fn lemma_fail_step_deps(
    gb: Seq<GroupView>,
    ga: Seq<GroupView>,
    rest: Set<int>,
    qb: Seq<u32>,
    qa: Seq<u32>,
    k: u32,
    j: int,
    i: int,
    n: int,
)
    requires
        gb.len() == n,
        0 <= j < n,
        (k as int) < n,
        ga == gb.update(j, ga[j]),
        gb[j].phase == Phase::Waiting,
        gb[j].waiting_deps.contains(k) ==> ga[j] == (GroupView {
            phase: Phase::Skipped,
            failed_dep: k,
            ..crate::group::cleared(gb[j])
        }),
        !gb[j].waiting_deps.contains(k) ==> ga[j] == gb[j],
        qa == (if ga[j].phase == Phase::Skipped { qb.push(j as u32) } else { qb }),
        deps_ok(gb, rest, idx_set(qb).insert(k as int)),
        forall|g: int|
            0 <= g < j && gb[g].phase == Phase::Waiting ==> !(#[trigger] gb[g].waiting_deps).contains(k),
        forall|g: int|
            0 <= g < n && gb[g].phase == Phase::Waiting ==> (#[trigger] gb[g].waiting_deps).subset_of(gb[g].dep_groups.to_set()),
    ensures
        deps_ok(ga, rest, idx_set(qa).insert(k as int)),
        forall|g: int|
            0 <= g < j + 1 && ga[g].phase == Phase::Waiting ==> !(#[trigger] ga[g].waiting_deps).contains(k),
{
    let pa = idx_set(qa).insert(k as int);
    assert forall|g: int, d: u32|
        #![trigger ga[g].waiting_deps.contains(d)]
        0 <= g < n && ga[g].phase == Phase::Waiting && ga[g].waiting_deps.contains(d) implies {
        &&& (d as int) < ga.len()
        &&& {
            ||| ga[d as int].phase == Phase::Waiting
            ||| ga[d as int].phase == Phase::Running
            ||| (ga[d as int].phase == Phase::Finished && rest.contains(d as int))
            ||| pa.contains(d as int)
        }
    } by {
        assert(gb[g].phase == Phase::Waiting);
        assert(gb[g].waiting_deps.contains(d));
        if idx_set(qb).insert(k as int).contains(d as int) {
            if d as int != k as int {
                let y = choose|y: u32| qb.to_set().contains(y) && d as int == y as int;
                assert(qb.contains(y));
                if ga[j].phase == Phase::Skipped {
                    lemma_push_contains(qb, j as u32, y);
                }
                assert(qa.to_set().contains(y));
            }
        } else if d as int == j {
            if ga[j].phase == Phase::Skipped {
                lemma_push_contains(qb, j as u32, j as u32);
                assert(qa.to_set().contains(j as u32));
            }
        }
    }
}

/// The scores gained never exceed the configured ones, on every prefix.
proof fn lemma_score_sum_le(gs: Seq<GroupView>)
    ensures
        forall|m: int| 0 <= m <= gs.len() ==> score_sum(#[trigger] gs.take(m)) <= max_score_sum(gs),
    decreases gs.len(),
{
    if gs.len() > 0 {
        lemma_score_sum_le(gs.drop_last());
        assert forall|m: int| 0 <= m <= gs.len() implies score_sum(#[trigger] gs.take(m)) <= max_score_sum(gs) by {
            if m == gs.len() {
                assert(gs.take(m) =~= gs);
                assert(gs.take(m).drop_last() =~= gs.drop_last().take(m - 1));
                assert(gs.drop_last().take(m - 1) =~= gs.drop_last());
            } else {
                assert(gs.take(m) =~= gs.drop_last().take(m));
            }
        }
    }
}

/// Running tests of a running group are among its tests.
proof fn lemma_running_le_tests(v: GroupView)
    requires
        group_wf(v),
        v.phase == Phase::Running,
    ensures
        v.running.len() <= v.tests.len(),
{
    assert(v.running.no_duplicates()) by {
        assert forall|i: int, j: int| 0 <= i < v.running.len() && 0 <= j < v.running.len() && i != j implies v.running[i]
            != v.running[j] by {
            if i < j {
                assert(v.running[i].value() < v.running[j].value());
            } else {
                assert(v.running[j].value() < v.running[i].value());
            }
        }
    }
    v.running.unique_seq_to_set();
    assert(v.running.to_set().subset_of(v.tests.to_set())) by {
        assert forall|t: TestId| v.running.to_set().contains(t) implies v.tests.to_set().contains(t) by {
            assert(v.running.contains(t));
        }
    }
    vstd::seq_lib::seq_to_set_is_finite(v.tests);
    vstd::set_lib::lemma_len_subset(v.running.to_set(), v.tests.to_set());
    v.tests.lemma_cardinality_of_set();
}

/// The running tests of all groups fit in `u32`, on every prefix.
proof fn lemma_running_sum_le(fb: &Fiber)
    requires
        fb.wf(),
    ensures
        forall|m: int|
            0 <= m <= fb@.groups.len() ==> running_sum(#[trigger] fb@.groups.take(m)) <= u32::MAX,
        forall|f: int|
            0 <= f < fb@.groups.len() && fb@.groups[f].phase == Phase::Running ==> (
            #[trigger] fb@.groups[f].running.len()) <= u32::MAX,
{
    let gs = fb@.groups;
    assert forall|f: int| 0 <= f < gs.len() && gs[f].phase == Phase::Running implies gs[f].running.len()
        <= gs[f].tests.len() by {
        assert(gs[f] == fb.groups@[f]@);
        assert(fb.groups@[f].wf());
        lemma_running_le_tests(gs[f]);
    }
    lemma_running_sum_le_tests(gs);
    assert forall|f: int| 0 <= f < gs.len() && gs[f].phase == Phase::Running implies (
    #[trigger] gs[f].running.len()) <= u32::MAX by {
        lemma_term_le_tests_sum(gs, f);
    }
}

proof fn lemma_running_sum_le_tests(gs: Seq<GroupView>)
    requires
        forall|f: int|
            0 <= f < gs.len() && gs[f].phase == Phase::Running ==> gs[f].running.len() <= gs[f].tests.len(),
    ensures
        forall|m: int| 0 <= m <= gs.len() ==> running_sum(#[trigger] gs.take(m)) <= tests_sum(gs),
    decreases gs.len(),
{
    if gs.len() > 0 {
        let g0 = gs.drop_last();
        assert forall|f: int|
            0 <= f < g0.len() && g0[f].phase == Phase::Running implies g0[f].running.len() <= g0[f].tests.len() by {
            assert(g0[f] == gs[f]);
        }
        lemma_running_sum_le_tests(g0);
        assert forall|m: int| 0 <= m <= gs.len() implies running_sum(#[trigger] gs.take(m)) <= tests_sum(gs) by {
            if m == gs.len() {
                assert(gs.take(m) =~= gs);
                assert(gs.drop_last().take(m - 1) =~= gs.drop_last());
                assert(gs.take(m).drop_last() =~= g0.take(m - 1));
            } else {
                assert(gs.take(m) =~= g0.take(m));
            }
        }
    }
}

proof fn lemma_term_le_tests_sum(gs: Seq<GroupView>, f: int)
    requires
        0 <= f < gs.len(),
    ensures
        gs[f].tests.len() <= tests_sum(gs),
    decreases gs.len(),
{
    lemma_tests_sum_nonneg(gs.drop_last());
    if f < gs.len() - 1 {
        lemma_term_le_tests_sum(gs.drop_last(), f);
        assert(gs.drop_last()[f] == gs[f]);
    }
}

proof fn lemma_tests_sum_nonneg(gs: Seq<GroupView>)
    ensures
        tests_sum(gs) >= 0,
    decreases gs.len(),
{
    if gs.len() > 0 {
        lemma_tests_sum_nonneg(gs.drop_last());
    }
}

/// A test result keeps the fiber invariant.
proof fn lemma_test_done_keeps_wf(old_f: &Fiber, new_f: &Fiber, test: TestId, status: Status)
    requires
        old_f.wf(),
        new_f@ == (FiberView {
            groups: old_f@.groups.map_values(|g: GroupView| spec_test_done(g, test, status)),
            ..old_f@
        }),
        new_f.visible_tests == old_f.visible_tests,
        new_f.groups@.len() == old_f.groups@.len(),
        forall|f: int| 0 <= f < new_f.groups@.len() ==> (#[trigger] new_f.groups@[f]).wf(),
    ensures
        new_f.wf(),
{
    let g0 = old_f@.groups;
    let g1 = new_f@.groups;
    let n = g1.len();
    assert forall|f: int| 0 <= f < n implies #[trigger] same_config(g0[f], g1[f]) by {
        assert(g1[f] == spec_test_done(g0[f], test, status));
    }
    assert forall|f: int| 0 <= f < n implies (#[trigger] g1[f]).phase != Phase::Building by {
        assert(g1[f] == spec_test_done(g0[f], test, status));
    }
    assert forall|f: int| 0 <= f < n && (#[trigger] g1[f]).phase != Phase::Finished implies new_f@.active_groups.contains(
        f as usize,
    ) by {
        assert(g1[f] == spec_test_done(g0[f], test, status));
    }
    lemma_same_config_sums(g0, g1);
    let rest = old_f@.active_groups.to_set().map(|x: usize| x as int);
    assert forall|g: int, d: u32|
        #![trigger g1[g].waiting_deps.contains(d)]
        0 <= g < n && g1[g].phase == Phase::Waiting && g1[g].waiting_deps.contains(d) implies {
        &&& (d as int) < g1.len()
        &&& {
            ||| g1[d as int].phase == Phase::Waiting
            ||| g1[d as int].phase == Phase::Running
            ||| (g1[d as int].phase == Phase::Finished && rest.contains(d as int))
            ||| Set::<int>::empty().contains(d as int)
        }
    } by {
        assert(g1[g] == spec_test_done(g0[g], test, status));
        assert(g0[g].waiting_deps.contains(d));
        assert(g1[d as int] == spec_test_done(g0[d as int], test, status));
        if g0[d as int].phase == Phase::Running {
            assert(old_f@.active_groups.contains(d as usize));
            let t = choose|t: int| 0 <= t < old_f@.active_groups.len() && old_f@.active_groups[t] == d as usize;
            assert(old_f@.active_groups.to_set().contains(d as usize));
        }
    }
    assert forall|f: int, t: TestId| 0 <= f < n && #[trigger] g1[f].tests.contains(t) implies new_f@.visible_tests.contains(t) by {
        assert(g1[f] == spec_test_done(g0[f], test, status));
        assert(g0[f].tests.contains(t));
    }
    lemma_acyclic_same_config(g0, g1);
    assert forall|f: int, d: int| 0 <= f < n && 0 <= d < g1[f].dep_groups.len() implies (#[trigger] g1[f].dep_groups[d] as int) < n by {
        assert(g1[f] == spec_test_done(g0[f], test, status));
        assert(g0[f].dep_groups[d] == g1[f].dep_groups[d]);
    }
    assert forall|f: int| 0 <= f < n implies (#[trigger] g1[f]).tests.len() > 0 by {
        assert(g1[f] == spec_test_done(g0[f], test, status));
    }
}

/// The configured part of a group: what building set and running never changes.
pub open spec fn same_config(a: GroupView, b: GroupView) -> bool {
    &&& a.id == b.id
    &&& a.dep_groups == b.dep_groups
    &&& a.test_vis == b.test_vis
    &&& a.subtask_vis == b.subtask_vis
    &&& a.run_all_tests == b.run_all_tests
    &&& a.tests == b.tests
    &&& a.score == b.score
}

/// Groups with the same configuration have the same configured totals.
proof fn lemma_same_config_sums(a: Seq<GroupView>, b: Seq<GroupView>)
    requires
        a.len() == b.len(),
        forall|f: int| 0 <= f < a.len() ==> #[trigger] same_config(a[f], b[f]),
    ensures
        max_score_sum(a) == max_score_sum(b),
        tests_sum(a) == tests_sum(b),
    decreases a.len(),
{
    if a.len() > 0 {
        assert(same_config(a[a.len() - 1], b[b.len() - 1]));
        assert forall|f: int| 0 <= f < a.drop_last().len() implies #[trigger] same_config(a.drop_last()[f], b.drop_last()[f]) by {
            assert(same_config(a[f], b[f]));
        }
        lemma_same_config_sums(a.drop_last(), b.drop_last());
    }
}

/// `visible_indices` of a shorter prefix is a prefix of that of a longer one.
proof fn lemma_visible_prefix(cfg: Seq<crate::cfg::Group>, k: JudgeLogKind, i: int, j: int)
    requires
        0 <= i <= j,
    ensures
        visible_indices(cfg, k, i).len() <= visible_indices(cfg, k, j).len(),
        forall|f: int|
            0 <= f < visible_indices(cfg, k, i).len() ==> visible_indices(cfg, k, j)[f]
                == #[trigger] visible_indices(cfg, k, i)[f],
    decreases j - i,
{
    if i < j {
        lemma_visible_prefix(cfg, k, i, j - 1);
    }
}

/// Membership after a push.
pub proof fn lemma_push_contains<A>(s: Seq<A>, x: A, y: A)
    ensures
        s.push(x).contains(y) <==> (s.contains(y) || y == x),
{
    if s.push(x).contains(y) {
        let k = choose|k: int| 0 <= k < s.push(x).len() && s.push(x)[k] == y;
        if k < s.len() {
            assert(s[k] == y);
        }
    }
    if s.contains(y) {
        let k = choose|k: int| 0 <= k < s.len() && s[k] == y;
        assert(s.push(x)[k] == y);
    }
    if y == x {
        assert(s.push(x)[s.len() as int] == y);
    }
}

/// The fiber built by `new` satisfies the state invariant.
proof fn lemma_new_wf(r: &Fiber, cg: Seq<crate::cfg::Group>, tags: Seq<String>, kind: JudgeLogKind)
    requires
        fiber_config_ok(cg, tags, kind),
        r.groups@.len() == visible_indices(cg, kind, cg.len() as int).len(),
        forall|f: int|
            0 <= f < r.groups@.len() ==> built_group(
                cg,
                tags,
                kind,
                visible_indices(cg, kind, cg.len() as int)[f],
                #[trigger] r.groups@[f]@,
            ),
        forall|f: int| 0 <= f < r.groups@.len() ==> (#[trigger] r.groups@[f]).wf(),
        r.active_groups@ == Seq::new(r.groups@.len(), |f: int| f as usize),
        r.active_groups@.no_duplicates(),
        forall|x: int, y: int|
            0 <= x < y < r.active_groups@.len() ==> (#[trigger] r.active_groups@[x]) < (#[trigger] r.active_groups@[y]),
        ids_sorted(r.visible_tests@),
        forall|t: TestId|
            r.visible_tests@.contains(t) <==> exists|f: int|
                0 <= f < r.groups@.len() && #[trigger] r.groups@[f]@.tests.contains(t),
        max_score_sum(r.groups@.map_values(|g: Group| g@)) == visible_score_sum(cg, kind, cg.len() as int),
        tests_sum(r.groups@.map_values(|g: Group| g@)) == visible_test_sum(cg, tags, kind, cg.len() as int),
    ensures
        r.wf(),
{
    let v = r@;
    let gs = v.groups;
    let n = gs.len();
    let vis = visible_indices(cg, kind, cg.len() as int);
    assert forall|f: int| 0 <= f < n implies (#[trigger] r.groups@[f]).wf() by {}
    assert forall|f: int| 0 <= f < n implies (#[trigger] gs[f]).phase != Phase::Building by {
        assert(gs[f] == r.groups@[f]@);
        assert(built_group(cg, tags, kind, vis[f], r.groups@[f]@));
    }
    assert forall|f: int| 0 <= f < n implies (#[trigger] gs[f]).tests.len() > 0 by {
        assert(gs[f] == r.groups@[f]@);
        assert(built_group(cg, tags, kind, vis[f], r.groups@[f]@));
        assert(matching_tests(tags, spec_tests_tag(cg[vis[f]]), tags.len() as int).len() > 0);
    }
    let dl = fiber_dep_lists(cg, kind);
    let rank = choose|rank: Seq<nat>| graph_ranked(dl, rank);
    assert forall|f: int, d: int| 0 <= f < n && 0 <= d < gs[f].dep_groups.len() implies (
    #[trigger] gs[f].dep_groups[d] as int) < n && rank[gs[f].dep_groups[d] as int] < rank[f] by {
        assert(gs[f] == r.groups@[f]@);
        assert(built_group(cg, tags, kind, vis[f], r.groups@[f]@));
        assert(dl[f] == fiber_deps(cg, kind, vis[f], cg[vis[f]].deps@));
        assert(dl[f][d] == gs[f].dep_groups[d]);
    }
    assert(ranked(gs, rank));
    assert(v.active_groups.no_duplicates());
    assert forall|f: int| 0 <= f < n && (#[trigger] gs[f]).phase != Phase::Finished implies v.active_groups.contains(
        f as usize,
    ) by {
        assert(v.active_groups[f] == f as usize);
    }
    assert forall|g: int, d: u32|
        #![trigger gs[g].waiting_deps.contains(d)]
        0 <= g < n && gs[g].phase == Phase::Waiting && gs[g].waiting_deps.contains(d) implies {
        &&& (d as int) < gs.len()
        &&& {
            ||| gs[d as int].phase == Phase::Waiting
            ||| gs[d as int].phase == Phase::Running
            ||| (gs[d as int].phase == Phase::Finished && v.active_groups.to_set().map(|x: usize| x as int).contains(d as int))
            ||| Set::<int>::empty().contains(d as int)
        }
    } by {
        assert(gs[g] == r.groups@[g]@);
        assert(built_group(cg, tags, kind, vis[g], r.groups@[g]@));
        assert(gs[g].dep_groups.to_set().contains(d));
        let k = choose|k: int| 0 <= k < gs[g].dep_groups.len() && gs[g].dep_groups[k] == d;
        assert((gs[g].dep_groups[k] as int) < n);
        assert(gs[d as int] == r.groups@[d as int]@);
        assert(built_group(cg, tags, kind, vis[d as int], r.groups@[d as int]@));
    }
}

/// Whether `v` holds `x`.
fn contains_usize(v: &Vec<usize>, x: usize) -> (r: bool)
    ensures
        r == v@.contains(x),
{
    let n = v.len();
    let mut i: usize = 0;
    while i < n
        invariant
            n == v@.len(),
            0 <= i <= n,
            forall|k: int| 0 <= k < i ==> v@[k] != x,
        decreases n - i,
    {
        if v[i] == x {
            proof {
                assert(v@[i as int] == x);
            }
            return true;
        }
        i = i + 1;
    }
    false
}

/// Test `i` is among the first `n` tests tagged `tag` exactly when it is one
/// of the first `n` tests and is tagged `tag`.
proof fn lemma_matching_tests_member(tags: Seq<String>, tag: Seq<char>, n: int, i: int)
    requires
        0 <= n <= tags.len(),
        tags.len() < u32::MAX,
    ensures
        matching_tests(tags, tag, n).contains(i as u32) && 0 <= i <= u32::MAX <==> (1 <= i <= n && tags[i - 1]@
            == tag),
    decreases n,
{
    if n > 0 {
        lemma_matching_tests_member(tags, tag, n - 1, i);
        let prev = matching_tests(tags, tag, n - 1);
        let m = matching_tests(tags, tag, n);
        if m.contains(i as u32) && 0 <= i <= u32::MAX {
            let j = choose|j: int| 0 <= j < m.len() && m[j] == i as u32;
            if tags[n - 1]@ == tag {
                if j < prev.len() {
                    assert(prev[j] == m[j]);
                    assert(prev.contains(i as u32));
                } else {
                    assert(m[j] == n as u32);
                }
            } else {
                assert(prev[j] == m[j]);
            }
        }
        if 1 <= i <= n && tags[i - 1]@ == tag {
            if i == n {
                assert(m[m.len() - 1] == n as u32);
            } else {
                let j = choose|j: int| 0 <= j < prev.len() && prev[j] == i as u32;
                if tags[n - 1]@ == tag {
                    assert(m[j] == prev[j]);
                }
            }
        }
    }
}

/// The group a fiber builds from config group `c` holds exactly the tests
/// tagged with the group's tests tag when it has one, and with its name
/// when it has none: test `i` is in the group exactly when the problem's
/// test `i` carries that tag.
pub proof fn lemma_group_tests_by_tag(
    cfg: Seq<crate::cfg::Group>,
    tags: Seq<String>,
    k: JudgeLogKind,
    c: int,
    gv: GroupView,
    i: int,
)
    requires
        0 <= c < cfg.len(),
        tags.len() < u32::MAX,
        built_group(cfg, tags, k, c, gv),
        1 <= i <= tags.len(),
    ensures
        cfg[c].tests_tag matches Some(t) ==> ((exists|j: int|
            0 <= j < gv.tests.len() && (#[trigger] gv.tests[j]).value() == i) <==> tags[i - 1]@ == t@),
        cfg[c].tests_tag is None ==> ((exists|j: int|
            0 <= j < gv.tests.len() && (#[trigger] gv.tests[j]).value() == i) <==> tags[i - 1]@ == cfg[c].name@),
{
    let tag = spec_tests_tag(cfg[c]);
    let m = matching_tests(tags, tag, tags.len() as int);
    lemma_matching_tests_member(tags, tag, tags.len() as int, i);
    if exists|j: int| 0 <= j < gv.tests.len() && (#[trigger] gv.tests[j]).value() == i {
        let j = choose|j: int| 0 <= j < gv.tests.len() && (#[trigger] gv.tests[j]).value() == i;
        assert(m[j] == i as u32);
        assert(m.contains(i as u32));
    }
    if m.contains(i as u32) {
        let j = choose|j: int| 0 <= j < m.len() && m[j] == i as u32;
        assert(gv.tests[j].value() == m[j]);
    }
}

/// Whether a fiber can be built for audience `k` needs each shown group to
/// have a test tagged with its tests tag, or with its name when it has no
/// tests tag.
pub proof fn lemma_config_needs_tagged_tests(cfg: Seq<crate::cfg::Group>, tags: Seq<String>, k: JudgeLogKind, f: int)
    requires
        fiber_config_ok(cfg, tags, k),
        0 <= f < visible_indices(cfg, k, cfg.len() as int).len(),
    ensures
        ({
            let c = visible_indices(cfg, k, cfg.len() as int)[f];
            let want = match cfg[c].tests_tag {
                Some(t) => t@,
                None => cfg[c].name@,
            };
            exists|i: int| 0 <= i < tags.len() && #[trigger] tags[i]@ == want
        }),
{
    let vis = visible_indices(cfg, k, cfg.len() as int);
    let c = vis[f];
    let tag = spec_tests_tag(cfg[c]);
    let m = matching_tests(tags, tag, tags.len() as int);
    assert(m.len() > 0);
    let i = m[0] as int;
    assert(m.contains(m[0]));
    lemma_matching_tests_member(tags, tag, tags.len() as int, i);
    assert(tags[i - 1]@ == tag);
}

} // verus!
