//! Ranker builds the contest monitor: a cell per party and problem, the
//! statistics of each problem, and each party's total score and color.
use vstd::prelude::*;

verus! {

/// Subtask of a run.
#[derive(Debug, Clone, Copy, PartialEq, Eq, Structural, Hash, PartialOrd, Ord)]
pub struct SubtaskId(pub u32);

/// Run (submission).
#[derive(Debug, Clone, Copy, PartialEq, Eq, Structural, Hash, PartialOrd, Ord)]
pub struct RunId(pub u32);

/// Problem of the contest.
#[derive(Debug, Clone, Copy, PartialEq, Eq, Structural, Hash, PartialOrd, Ord)]
pub struct ProblemId(pub u32);

/// Contestant or team.
#[derive(Debug, Clone, Copy, PartialEq, Eq, Structural, Hash, PartialOrd, Ord)]
pub struct PartyId(pub u32);

/// Points.
pub type Score = i32;

/// One judged run: its score on each subtask, in subtask order.
#[derive(Debug, Clone)]
pub struct Run {
    pub subtasks: Vec<(SubtaskId, Score)>,
    pub party: PartyId,
    pub problem: ProblemId,
}

/// Represents one cell in monitor
#[derive(Debug, Clone, Copy, PartialEq, Eq, Structural)]
pub struct Cell {
    /// True if party haven't attempted to solve problem
    pub empty: bool,
    /// True if problem is solved
    pub ok: bool,
    /// Score gained
    pub score: Score,
    /// True if cell should be highlighted
    /// For example, in ICPC contest run will be `marked` probably if it is first full solution for problem
    pub marked: bool,
    /// Count of non-ignored attempts which should be displayed
    ///
    /// E.g. not accounts for runs after full solution
    pub attempts: u32,
}

/// Represents some properties of row, describing party
#[derive(Debug, Clone, Copy, PartialEq, Eq, Structural)]
pub struct PartyStats {
    /// This is used to distinguish groups of parties
    ///
    /// E.g.: participants who solved 8 problems, get `color == 0`; participants who solved 7
    /// problems get `color == 1`, and so on.
    ///
    /// Probably, you will want to use not color, but `color % 2`.
    pub color: u32,
    /// Total score gained by party in contest
    pub score: Score,
}

/// Row of a party: its stats and its cell on each problem, in problem order.
#[derive(Debug, Clone)]
pub struct PartyRow {
    pub stats: PartyStats,
    pub problems: Vec<(ProblemId, Cell)>,
}

/// Represents some statistics of problem
#[derive(Debug, Clone, Copy, PartialEq, Eq, Structural)]
pub struct ProblemStats {
    pub total_runs: u32,
    /// How many runs are accepted. If one party made two accepted runs, both are counted.
    pub accepted_runs: u32,
    /// Max party score gained on this problem.
    ///
    /// Note: if `merge_subtasks` mode is enabled, it is possible that e.g. max_score is 100
    /// but every particular run got <=90 points.
    pub max_score: Score,
}

/// Statistics of each problem, in problem order.
#[derive(Debug, Clone)]
pub struct StatsRow {
    pub problems: Vec<(ProblemId, ProblemStats)>,
}

/// Determines which runs will be used to calculate total score for problem.
///
/// Note that exact way of calculating score depends on [`RunScoreAggregation`](RunScoreAggregation)
#[derive(Debug, Clone, Copy, PartialEq, Eq, Structural)]
pub enum RunScoreAggregationTarget {
    /// All runs will be used
    All,
    /// `k` latest (later = id is greater) will be used
    Latest(u32),
    /// Run with max score will be used
    /// If there are several runs with max score, run with greatest id will be used
    Best,
}

/// Determines how total score for problem is calculated
#[derive(Debug, Clone, Copy, PartialEq, Eq, Structural)]
pub enum RunScoreAggregation {
    /// Score for problem maximum run score on this problem
    Max,
    /// Score for problem is sum of subtask score for all subtasks
    /// Subtask score is maximum run score on this subtask
    MergeSubtasks,
}

/// How a problem is scored.
#[derive(Debug, Clone)]
pub struct ProblemConfig {
    pub name: String,
    pub accepted_score: Score,
    pub score_runs: RunScoreAggregationTarget,
    pub aggregation: RunScoreAggregation,
}

/// How penalties of problems add up.
#[derive(Debug, Clone, Copy, PartialEq, Eq, Structural)]
pub enum PenaltyAggregation {
    Sum,
    Max,
}

/// Which problems count towards the total score.
#[derive(Debug, Clone, Copy, PartialEq, Eq, Structural)]
pub enum ProblemScoreAggregationTarget {
    All,
    Best(u32),
}

/// Contest-wide ranking settings.
#[derive(Debug, Clone, Copy)]
pub struct Config {
    pub penalty_aggregation: PenaltyAggregation,
    pub score_problems: ProblemScoreAggregationTarget,
}

/// The monitor: a row per party, in the order the parties were given, and
/// the problem statistics.
#[derive(Debug, Clone)]
pub struct Monitor {
    pub parties: Vec<(PartyId, PartyRow)>,
    pub stats: StatsRow,
}

/// Sum of the scores of subtask entries.
pub open spec fn entries_sum(sub: Seq<(SubtaskId, Score)>) -> int
    decreases sub.len(),
{
    if sub.len() == 0 {
        0
    } else {
        entries_sum(sub.drop_last()) + sub.last().1
    }
}

/// Score of a run: the sum of its subtask scores.
pub open spec fn run_score(r: Run) -> int {
    entries_sum(r.subtasks@)
}

/// Adding up the subtask scores of `r` in order never leaves `i32`.
pub open spec fn run_sum_fits(r: Run) -> bool {
    forall|k: int| 0 <= k <= r.subtasks@.len() ==> i32::MIN <= #[trigger] entries_sum(r.subtasks@.take(k)) <= i32::MAX
}

/// Some run of `rs` reaches `acc`.
pub open spec fn any_accepted(rs: Seq<Run>, acc: int) -> bool {
    exists|k: int| 0 <= k < rs.len() && run_score(#[trigger] rs[k]) == acc
}

/// Number of runs of `rs` that reach `acc`.
pub open spec fn count_accepted(rs: Seq<Run>, acc: int) -> int
    decreases rs.len(),
{
    if rs.len() == 0 {
        0
    } else {
        count_accepted(rs.drop_last(), acc) + if run_score(rs.last()) == acc {
            1int
        } else {
            0int
        }
    }
}

/// Attempts shown: every run up to and including the first full solution.
pub open spec fn attempts_of(rs: Seq<Run>, acc: int) -> int
    decreases rs.len(),
{
    if rs.len() == 0 {
        0
    } else if any_accepted(rs.drop_last(), acc) {
        attempts_of(rs.drop_last(), acc)
    } else {
        attempts_of(rs.drop_last(), acc) + 1
    }
}

/// Best run score of `rs`, and 0 if that is higher.
pub open spec fn best_run_score(rs: Seq<Run>) -> int
    decreases rs.len(),
{
    if rs.len() == 0 {
        0
    } else {
        let b = best_run_score(rs.drop_last());
        let s = run_score(rs.last());
        if s > b {
            s
        } else {
            b
        }
    }
}

/// `a`, raised to every score the entries give subtask `s`.
pub open spec fn sub_best(sub: Seq<(SubtaskId, Score)>, s: u32, a: int) -> int
    decreases sub.len(),
{
    if sub.len() == 0 {
        a
    } else {
        let b = sub_best(sub.drop_last(), s, a);
        if sub.last().0.0 == s && sub.last().1 > b {
            sub.last().1 as int
        } else {
            b
        }
    }
}

/// Best score of subtask `s` over the runs, and 0 if that is higher.
pub open spec fn st_best(rs: Seq<Run>, s: u32) -> int
    decreases rs.len(),
{
    if rs.len() == 0 {
        0
    } else {
        sub_best(rs.last().subtasks@, s, st_best(rs.drop_last(), s))
    }
}

/// `acc` extended by the subtask ids of the entries it lacks, in order.
pub open spec fn new_ids(acc: Seq<u32>, sub: Seq<(SubtaskId, Score)>) -> Seq<u32>
    decreases sub.len(),
{
    if sub.len() == 0 {
        acc
    } else {
        let a = new_ids(acc, sub.drop_last());
        if a.contains(sub.last().0.0) {
            a
        } else {
            a.push(sub.last().0.0)
        }
    }
}

/// The subtask ids that occur in the runs, in order of first occurrence.
pub open spec fn st_ids(rs: Seq<Run>) -> Seq<u32>
    decreases rs.len(),
{
    if rs.len() == 0 {
        Seq::empty()
    } else {
        new_ids(st_ids(rs.drop_last()), rs.last().subtasks@)
    }
}

/// Sum of the best scores of subtasks `ids` over the runs.
pub open spec fn best_sum(ids: Seq<u32>, rs: Seq<Run>) -> int
    decreases ids.len(),
{
    if ids.len() == 0 {
        0
    } else {
        best_sum(ids.drop_last(), rs) + st_best(rs, ids.last())
    }
}

/// Score of a cell made of runs `rs`.
pub open spec fn cell_score(rs: Seq<Run>, aggregation: RunScoreAggregation) -> int {
    match aggregation {
        RunScoreAggregation::Max => best_run_score(rs),
        RunScoreAggregation::MergeSubtasks => best_sum(st_ids(rs), rs),
    }
}

/// Whether building the cell of runs `rs` stays within the number types:
/// every run's score adds up within `i32`, and so do the merged subtask
/// scores.
pub open spec fn cell_fits(rs: Seq<Run>) -> bool {
    &&& forall|k: int| 0 <= k < rs.len() ==> run_sum_fits(#[trigger] rs[k])
    &&& forall|m: int|
        0 <= m <= st_ids(rs).len() ==> i32::MIN <= #[trigger] best_sum(st_ids(rs).take(m), rs) <= i32::MAX
}

/// The cell made of runs `rs` of a problem that is accepted at `acc`.
pub open spec fn spec_cell(rs: Seq<Run>, acc: int, aggregation: RunScoreAggregation) -> Cell {
    Cell {
        empty: rs.len() == 0,
        ok: any_accepted(rs, acc),
        score: cell_score(rs, aggregation) as i32,
        marked: false,
        attempts: attempts_of(rs, acc) as u32,
    }
}

/// Subtask ids of merged entries.
pub open spec fn merged_ids(m: Seq<(u32, Score)>) -> Seq<u32> {
    m.map_values(|e: (u32, Score)| e.0)
}

/// `s` is not among the ids `new_ids` gives: it was not in `acc` and no
/// entry has it.
proof fn lemma_not_in_new_ids(acc: Seq<u32>, sub: Seq<(SubtaskId, Score)>, s: u32)
    requires
        !new_ids(acc, sub).contains(s),
    ensures
        !acc.contains(s),
        forall|k: int| 0 <= k < sub.len() ==> (#[trigger] sub[k]).0.0 != s,
    decreases sub.len(),
{
    if sub.len() > 0 {
        let a = new_ids(acc, sub.drop_last());
        if a.contains(sub.last().0.0) {
        } else {
            assert(a.push(sub.last().0.0)[a.len() as int] == sub.last().0.0);
        }
        assert forall|x: u32| a.contains(x) implies new_ids(acc, sub).contains(x) by {
            let k = choose|k: int| 0 <= k < a.len() && a[k] == x;
            if !a.contains(sub.last().0.0) {
                assert(a.push(sub.last().0.0)[k] == x);
            }
        }
        lemma_not_in_new_ids(acc, sub.drop_last(), s);
        assert forall|k: int| 0 <= k < sub.len() implies (#[trigger] sub[k]).0.0 != s by {
            if k < sub.len() - 1 {
                assert(sub.drop_last()[k] == sub[k]);
            }
        }
    }
}

/// Entries without subtask `s` leave `a` as it is.
proof fn lemma_sub_best_absent(sub: Seq<(SubtaskId, Score)>, s: u32, a: int)
    requires
        forall|k: int| 0 <= k < sub.len() ==> (#[trigger] sub[k]).0.0 != s,
    ensures
        sub_best(sub, s, a) == a,
    decreases sub.len(),
{
    if sub.len() > 0 {
        assert forall|k: int| 0 <= k < sub.drop_last().len() implies (#[trigger] sub.drop_last()[k]).0.0 != s by {
            assert(sub.drop_last()[k] == sub[k]);
        }
        lemma_sub_best_absent(sub.drop_last(), s, a);
    }
}

/// A subtask that no run has scores 0.
proof fn lemma_st_best_absent(rs: Seq<Run>, s: u32)
    requires
        !st_ids(rs).contains(s),
    ensures
        st_best(rs, s) == 0,
    decreases rs.len(),
{
    if rs.len() > 0 {
        lemma_not_in_new_ids(st_ids(rs.drop_last()), rs.last().subtasks@, s);
        lemma_st_best_absent(rs.drop_last(), s);
        lemma_sub_best_absent(rs.last().subtasks@, s, 0);
    }
}

/// `new_ids` keeps ids distinct.
proof fn lemma_new_ids_distinct(acc: Seq<u32>, sub: Seq<(SubtaskId, Score)>)
    requires
        acc.no_duplicates(),
    ensures
        new_ids(acc, sub).no_duplicates(),
        new_ids(acc, sub).len() >= acc.len(),
        forall|j: int| 0 <= j < acc.len() ==> #[trigger] new_ids(acc, sub)[j] == acc[j],
    decreases sub.len(),
{
    if sub.len() > 0 {
        lemma_new_ids_distinct(acc, sub.drop_last());
    }
}

/// Position of the first entry of `m` with id `id`, or `m.len()`.
fn find_merged(m: &Vec<(u32, Score)>, id: u32) -> (r: usize)
    ensures
        r <= m@.len(),
        r < m@.len() ==> m@[r as int].0 == id,
        forall|j: int| 0 <= j < r ==> (#[trigger] m@[j]).0 != id,
{
    let n = m.len();
    let mut i: usize = 0;
    while i < n
        invariant
            n == m@.len(),
            0 <= i <= n,
            forall|j: int| 0 <= j < i ==> (#[trigger] m@[j]).0 != id,
        decreases n - i,
    {
        if m[i].0 == id {
            return i;
        }
        i = i + 1;
    }
    n
}

/// Raises the merged subtask scores by the scores of one run.
fn merge_run(merged: &mut Vec<(u32, Score)>, sub: &Vec<(SubtaskId, Score)>)
    requires
        merged_ids(old(merged)@).no_duplicates(),
    ensures
        merged_ids(final(merged)@) == new_ids(merged_ids(old(merged)@), sub@),
        merged_ids(final(merged)@).no_duplicates(),
        final(merged)@.len() >= old(merged)@.len(),
        forall|j: int|
            0 <= j < final(merged)@.len() ==> (#[trigger] final(merged)@[j]).1 == sub_best(
                sub@,
                final(merged)@[j].0,
                if j < old(merged)@.len() {
                    old(merged)@[j].1 as int
                } else {
                    0
                },
            ),
{
    let ghost m0 = merged@;
    let ghost ids0 = merged_ids(m0);
    let n = sub.len();
    let mut t: usize = 0;
    while t < n
        invariant
            n == sub@.len(),
            0 <= t <= n,
            m0 == old(merged)@,
            ids0 == merged_ids(m0),
            ids0.no_duplicates(),
            merged_ids(merged@) == new_ids(ids0, sub@.take(t as int)),
            merged_ids(merged@).no_duplicates(),
            merged@.len() >= m0.len(),
            forall|j: int|
                0 <= j < merged@.len() ==> (#[trigger] merged@[j]).1 == sub_best(
                    sub@.take(t as int),
                    merged@[j].0,
                    if j < m0.len() {
                        m0[j].1 as int
                    } else {
                        0
                    },
                ),
        decreases n - t,
    {
        let (sid, score) = sub[t];
        let id = sid.0;
        let ghost mb = merged@;
        let ghost sb = sub@.take(t as int);
        let ghost sa = sub@.take(t + 1);
        proof {
            assert(sa.drop_last() =~= sb);
            assert(sa.last() == (sid, score));
            lemma_new_ids_distinct(ids0, sb);
        }
        let p = find_merged(merged, id);
        if p < merged.len() {
            let cur = merged[p].1;
            if score > cur {
                merged.set(p, (id, score));
            }
            proof {
                assert(merged_ids(mb)[p as int] == id);
                assert(merged_ids(mb).contains(id));
                assert(merged_ids(merged@) =~= merged_ids(mb));
                assert forall|j: int| 0 <= j < merged@.len() implies (#[trigger] merged@[j]).1 == sub_best(
                    sa,
                    merged@[j].0,
                    if j < m0.len() {
                        m0[j].1 as int
                    } else {
                        0
                    },
                ) by {
                    if j != p {
                        assert(merged@[j] == mb[j]);
                        assert(merged_ids(mb)[j] != merged_ids(mb)[p as int]);
                    }
                }
            }
        } else {
            let v: Score = if score > 0 { score } else { 0 };
            merged.push((id, v));
            proof {
                assert(!merged_ids(mb).contains(id)) by {
                    if merged_ids(mb).contains(id) {
                        let j = choose|j: int| 0 <= j < merged_ids(mb).len() && merged_ids(mb)[j] == id;
                        assert(mb[j].0 == id);
                    }
                }
                assert(merged_ids(merged@) =~= merged_ids(mb).push(id));
                lemma_not_in_new_ids(ids0, sb, id);
                lemma_sub_best_absent(sb, id, 0);
                assert forall|j: int| 0 <= j < merged@.len() implies (#[trigger] merged@[j]).1 == sub_best(
                    sa,
                    merged@[j].0,
                    if j < m0.len() {
                        m0[j].1 as int
                    } else {
                        0
                    },
                ) by {
                    if j < mb.len() {
                        assert(merged@[j] == mb[j]);
                        assert(merged_ids(mb)[j] != id);
                    }
                }
                assert(merged_ids(merged@).no_duplicates()) by {
                    assert forall|a: int, b: int|
                        0 <= a < b < merged_ids(merged@).len() implies merged_ids(merged@)[a] != merged_ids(merged@)[b] by {
                        if b == mb.len() {
                            assert(merged_ids(mb)[a] == merged_ids(merged@)[a]);
                        } else {
                            assert(merged_ids(mb)[a] == merged_ids(merged@)[a]);
                            assert(merged_ids(mb)[b] == merged_ids(merged@)[b]);
                        }
                    }
                }
            }
        }
        t = t + 1;
    }
    proof {
        assert(sub@.take(n as int) =~= sub@);
    }
}

/// The runs at positions `sel` of `runs`, in that order.
pub open spec fn picked(runs: Seq<Run>, sel: Seq<usize>) -> Seq<Run> {
    sel.map_values(|i: usize| runs[i as int])
}

/// Score of a run: the sum of its subtask scores.
fn run_total(r: &Run) -> (s: Score)
    requires
        run_sum_fits(*r),
    ensures
        s == run_score(*r),
{
    let n = r.subtasks.len();
    let mut acc: Score = 0;
    let mut k: usize = 0;
    while k < n
        invariant
            n == r.subtasks@.len(),
            0 <= k <= n,
            run_sum_fits(*r),
            acc == entries_sum(r.subtasks@.take(k as int)),
        decreases n - k,
    {
        proof {
            assert(r.subtasks@.take(k + 1).drop_last() =~= r.subtasks@.take(k as int));
            assert(i32::MIN <= entries_sum(r.subtasks@.take(k + 1)) <= i32::MAX);
        }
        acc = acc + r.subtasks[k].1;
        k = k + 1;
    }
    proof {
        assert(r.subtasks@.take(n as int) =~= r.subtasks@);
    }
    acc
}

/// The cell of a party on a problem, made of the runs at positions `sel`
/// of `runs`, in order; the runs are counted into the problem statistics.
fn build_cell(runs: &Vec<Run>, sel: &Vec<usize>, problem: &ProblemConfig, stats: &mut ProblemStats) -> (cell: Cell)
    requires
        forall|k: int| 0 <= k < sel@.len() ==> (#[trigger] sel@[k] as int) < runs@.len(),
        cell_fits(picked(runs@, sel@)),
        forall|k: int| 0 <= k < sel@.len() ==> run_score(#[trigger] picked(runs@, sel@)[k]) <= problem.accepted_score,
        old(stats).total_runs + sel@.len() <= u32::MAX,
        old(stats).accepted_runs + sel@.len() <= u32::MAX,
    ensures
        cell == spec_cell(picked(runs@, sel@), problem.accepted_score as int, problem.aggregation),
        final(stats).total_runs == old(stats).total_runs + sel@.len(),
        final(stats).accepted_runs == old(stats).accepted_runs + count_accepted(
            picked(runs@, sel@),
            problem.accepted_score as int,
        ),
        final(stats).max_score == (if cell.score > old(stats).max_score {
            cell.score
        } else {
            old(stats).max_score
        }),
{
    let ghost rs = picked(runs@, sel@);
    let ghost acc_i = problem.accepted_score as int;
    let acc = problem.accepted_score;
    let mut cell = Cell { empty: true, ok: false, score: 0, marked: false, attempts: 0 };
    let mut max_based: Score = 0;
    let mut merged: Vec<(u32, Score)> = Vec::new();
    let n = sel.len();
    let mut k: usize = 0;
    proof {
        assert(rs.take(0) =~= Seq::<Run>::empty());
        assert(merged_ids(merged@) =~= Seq::<u32>::empty());
    }
    while k < n
        invariant
            n == sel@.len(),
            rs == picked(runs@, sel@),
            acc_i == acc as int,
            acc == problem.accepted_score,
            0 <= k <= n,
            forall|j: int| 0 <= j < sel@.len() ==> (#[trigger] sel@[j] as int) < runs@.len(),
            cell_fits(rs),
            forall|j: int| 0 <= j < sel@.len() ==> run_score(#[trigger] rs[j]) <= acc,
            old(stats).total_runs + n <= u32::MAX,
            old(stats).accepted_runs + n <= u32::MAX,
            cell.empty == (k == 0),
            cell.ok == any_accepted(rs.take(k as int), acc_i),
            cell.attempts == attempts_of(rs.take(k as int), acc_i),
            cell.attempts <= k,
            cell.score == 0,
            !cell.marked,
            max_based == best_run_score(rs.take(k as int)),
            merged_ids(merged@) == st_ids(rs.take(k as int)),
            merged_ids(merged@).no_duplicates(),
            forall|j: int| 0 <= j < merged@.len() ==> (#[trigger] merged@[j]).1 == st_best(rs.take(k as int), merged@[j].0),
            stats.total_runs == old(stats).total_runs + k,
            stats.accepted_runs == old(stats).accepted_runs + count_accepted(rs.take(k as int), acc_i),
            count_accepted(rs.take(k as int), acc_i) <= k,
            stats.max_score == old(stats).max_score,
        decreases n - k,
    {
        let ghost rk = rs.take(k as int);
        let ghost rk1 = rs.take(k + 1);
        let ghost m0 = merged@;
        proof {
            assert(rk1.drop_last() =~= rk);
            assert(rk1.last() == rs[k as int]);
            assert(rs[k as int] == runs@[sel@[k as int] as int]);
        }
        let run = &runs[sel[k]];
        cell.empty = false;
        stats.total_runs = stats.total_runs + 1;
        proof {
            assert(run_sum_fits(rs[k as int]));
        }
        let rscore = run_total(run);
        merge_run(&mut merged, &run.subtasks);
        if rscore > max_based {
            max_based = rscore;
        }
        if !cell.ok {
            cell.attempts = cell.attempts + 1;
        }
        if rscore == acc {
            cell.ok = true;
            stats.accepted_runs = stats.accepted_runs + 1;
        }
        proof {
            assert(any_accepted(rk1, acc_i) == (any_accepted(rk, acc_i) || run_score(rs[k as int]) == acc_i)) by {
                if any_accepted(rk, acc_i) {
                    let w = choose|w: int| 0 <= w < rk.len() && run_score(#[trigger] rk[w]) == acc_i;
                    assert(rk1[w] == rk[w]);
                }
                if run_score(rs[k as int]) == acc_i {
                    assert(rk1[k as int] == rs[k as int]);
                }
                if any_accepted(rk1, acc_i) {
                    let w = choose|w: int| 0 <= w < rk1.len() && run_score(#[trigger] rk1[w]) == acc_i;
                    if w < k {
                        assert(rk[w] == rk1[w]);
                    }
                }
            }
            assert(st_ids(rk1) == new_ids(st_ids(rk), rs[k as int].subtasks@));
            assert forall|j: int| 0 <= j < merged@.len() implies (#[trigger] merged@[j]).1 == st_best(rk1, merged@[j].0) by {
                if j < m0.len() {
                    assert(merged_ids(m0)[j] == m0[j].0);
                    assert(merged_ids(merged@)[j] == merged@[j].0);
                    lemma_new_ids_distinct(merged_ids(m0), rs[k as int].subtasks@);
                    assert(merged@[j].0 == m0[j].0);
                } else {
                    assert(merged_ids(merged@)[j] == merged@[j].0);
                    let id = merged@[j].0;
                    assert(!st_ids(rk).contains(id)) by {
                        lemma_new_ids_distinct(merged_ids(m0), rs[k as int].subtasks@);
                        if st_ids(rk).contains(id) {
                            let t = choose|t: int| 0 <= t < st_ids(rk).len() && st_ids(rk)[t] == id;
                            assert(merged_ids(merged@)[t] == id);
                        }
                    }
                    lemma_st_best_absent(rk, id);
                }
            }
        }
        k = k + 1;
    }
    proof {
        assert(rs.take(n as int) =~= rs);
    }
    let score = match problem.aggregation {
        RunScoreAggregation::Max => max_based,
        RunScoreAggregation::MergeSubtasks => {
            let ghost ids = merged_ids(merged@);
            let nm = merged.len();
            let mut total: Score = 0;
            let mut j: usize = 0;
            while j < nm
                invariant
                    nm == merged@.len(),
                    0 <= j <= nm,
                    ids == merged_ids(merged@),
                    ids == st_ids(rs),
                    cell_fits(rs),
                    forall|t: int| 0 <= t < merged@.len() ==> (#[trigger] merged@[t]).1 == st_best(rs, merged@[t].0),
                    total == best_sum(ids.take(j as int), rs),
                decreases nm - j,
            {
                proof {
                    assert(ids.take(j + 1).drop_last() =~= ids.take(j as int));
                    assert(ids.take(j + 1).last() == merged@[j as int].0);
                    assert(i32::MIN <= best_sum(st_ids(rs).take(j + 1), rs) <= i32::MAX);
                }
                total = total + merged[j].1;
                j = j + 1;
            }
            proof {
                assert(ids.take(nm as int) =~= ids);
            }
            total
        },
    };
    cell.score = score;
    if cell.score > stats.max_score {
        stats.max_score = cell.score;
    }
    cell
}

/// The runs of party `p` on problem `q`, in order.
pub open spec fn runs_of(runs: Seq<Run>, p: PartyId, q: ProblemId) -> Seq<Run>
    decreases runs.len(),
{
    if runs.len() == 0 {
        Seq::empty()
    } else {
        let prev = runs_of(runs.drop_last(), p, q);
        if runs.last().party == p && runs.last().problem == q {
            prev.push(runs.last())
        } else {
            prev
        }
    }
}

/// The cell of party `p` on the `j`-th problem.
pub open spec fn cell_of(runs: Seq<Run>, problems: Seq<(ProblemId, ProblemConfig)>, p: PartyId, j: int) -> Cell {
    spec_cell(
        runs_of(runs, p, problems[j].0),
        problems[j].1.accepted_score as int,
        problems[j].1.aggregation,
    )
}

/// Score of party `p` on the first `m` problems.
pub open spec fn row_score(runs: Seq<Run>, problems: Seq<(ProblemId, ProblemConfig)>, p: PartyId, m: int) -> int
    decreases m,
{
    if m <= 0 {
        0
    } else {
        row_score(runs, problems, p, m - 1) + cell_of(runs, problems, p, m - 1).score
    }
}

/// Runs of the first `m` parties on problem `q`.
pub open spec fn total_runs_of(runs: Seq<Run>, parties: Seq<PartyId>, q: ProblemId, m: int) -> int
    decreases m,
{
    if m <= 0 {
        0
    } else {
        total_runs_of(runs, parties, q, m - 1) + runs_of(runs, parties[m - 1], q).len()
    }
}

/// Accepted runs of the first `m` parties on problem `q`.
pub open spec fn accepted_runs_of(runs: Seq<Run>, parties: Seq<PartyId>, q: ProblemId, acc: int, m: int) -> int
    decreases m,
{
    if m <= 0 {
        0
    } else {
        accepted_runs_of(runs, parties, q, acc, m - 1) + count_accepted(runs_of(runs, parties[m - 1], q), acc)
    }
}

/// Best cell score of the first `m` parties on the `j`-th problem, and 0 if that is higher.
pub open spec fn max_cell_score(
    runs: Seq<Run>,
    problems: Seq<(ProblemId, ProblemConfig)>,
    parties: Seq<PartyId>,
    j: int,
    m: int,
) -> int
    decreases m,
{
    if m <= 0 {
        0
    } else {
        let b = max_cell_score(runs, problems, parties, j, m - 1);
        let c = cell_of(runs, problems, parties[m - 1], j).score as int;
        if c > b {
            c
        } else {
            b
        }
    }
}

/// Statistics of the `j`-th problem over the parties.
pub open spec fn spec_problem_stats(
    runs: Seq<Run>,
    problems: Seq<(ProblemId, ProblemConfig)>,
    parties: Seq<PartyId>,
    j: int,
) -> ProblemStats {
    ProblemStats {
        total_runs: total_runs_of(runs, parties, problems[j].0, parties.len() as int) as u32,
        accepted_runs: accepted_runs_of(
            runs,
            parties,
            problems[j].0,
            problems[j].1.accepted_score as int,
            parties.len() as int,
        ) as u32,
        max_score: max_cell_score(runs, problems, parties, j, parties.len() as int) as i32,
    }
}

/// `x / 100`, rounded towards zero.
pub open spec fn color_key(x: int) -> int {
    if x >= 0 {
        x / 100
    } else {
        -((-x) / 100)
    }
}

/// The distinct values of `s`, in order of first occurrence.
pub open spec fn distinct_of(s: Seq<int>) -> Seq<int>
    decreases s.len(),
{
    if s.len() == 0 {
        Seq::empty()
    } else {
        let d = distinct_of(s.drop_last());
        if d.contains(s.last()) {
            d
        } else {
            d.push(s.last())
        }
    }
}

/// How many values of `d` exceed `k`.
pub open spec fn count_greater(d: Seq<int>, k: int) -> int
    decreases d.len(),
{
    if d.len() == 0 {
        0
    } else {
        count_greater(d.drop_last(), k) + if d.last() > k {
            1int
        } else {
            0int
        }
    }
}

/// Color of a party whose coloring key is `k`, among parties with `keys`:
/// the number of distinct keys above `k`.
pub open spec fn spec_color(keys: Seq<int>, k: int) -> int {
    count_greater(distinct_of(keys), k)
}

/// The coloring keys of the parties' scores.
pub open spec fn score_keys(scores: Seq<i32>) -> Seq<int> {
    scores.map_values(|x: i32| color_key(x as int))
}

/// Whether building the monitor stays within the number types.
pub open spec fn monitor_fits(runs: Seq<Run>, problems: Seq<(ProblemId, ProblemConfig)>, parties: Seq<PartyId>) -> bool {
    &&& forall|i: int, j: int|
        0 <= i < parties.len() && 0 <= j < problems.len() ==> cell_fits(
            #[trigger] runs_of(runs, parties[i], #[trigger] problems[j].0),
        )
    &&& forall|i: int, m: int|
        0 <= i < parties.len() && 0 <= m <= problems.len() ==> i32::MIN <= #[trigger] row_score(
            runs,
            problems,
            parties[i],
            m,
        ) <= i32::MAX
    &&& forall|j: int|
        0 <= j < problems.len() ==> #[trigger] total_runs_of(runs, parties, problems[j].0, parties.len() as int)
            <= u32::MAX
}

/// Whether no run of a listed party on a listed problem scores above the
/// problem's full score.
pub open spec fn runs_within_full_score(
    runs: Seq<Run>,
    problems: Seq<(ProblemId, ProblemConfig)>,
    parties: Seq<PartyId>,
) -> bool {
    forall|i: int, j: int, k: int|
        0 <= i < parties.len() && 0 <= j < problems.len() && 0 <= k < runs_of(runs, parties[i], problems[j].0).len()
            ==> run_score(#[trigger] runs_of(runs, parties[i], problems[j].0)[k]) <= problems[j].1.accepted_score
}

/// The positions of the runs of party `p` on problem `q`, in order.
fn select_runs(runs: &Vec<Run>, p: PartyId, q: ProblemId) -> (r: Vec<usize>)
    ensures
        picked(runs@, r@) == runs_of(runs@, p, q),
        forall|k: int| 0 <= k < r@.len() ==> (#[trigger] r@[k] as int) < runs@.len(),
        r@.len() <= runs@.len(),
{
    let n = runs.len();
    let mut r: Vec<usize> = Vec::new();
    let mut i: usize = 0;
    while i < n
        invariant
            n == runs@.len(),
            0 <= i <= n,
            picked(runs@, r@) == runs_of(runs@.take(i as int), p, q),
            forall|k: int| 0 <= k < r@.len() ==> (#[trigger] r@[k] as int) < i,
            r@.len() <= i,
        decreases n - i,
    {
        proof {
            assert(runs@.take(i + 1).drop_last() =~= runs@.take(i as int));
            assert(runs@.take(i + 1).last() == runs@[i as int]);
        }
        let ghost r0 = r@;
        if runs[i].party == p && runs[i].problem == q {
            r.push(i);
            proof {
                assert(picked(runs@, r@) =~= picked(runs@, r0).push(runs@[i as int]));
            }
        }
        i = i + 1;
    }
    proof {
        assert(runs@.take(n as int) =~= runs@);
    }
    r
}

proof fn lemma_count_accepted_le(rs: Seq<Run>, acc: int)
    ensures
        0 <= count_accepted(rs, acc) <= rs.len(),
    decreases rs.len(),
{
    if rs.len() > 0 {
        lemma_count_accepted_le(rs.drop_last(), acc);
    }
}

/// Run totals of more parties are larger, and accepted runs are among them.
proof fn lemma_totals(runs: Seq<Run>, parties: Seq<PartyId>, q: ProblemId, acc: int, a: int, b: int)
    requires
        0 <= a <= b,
    ensures
        total_runs_of(runs, parties, q, a) <= total_runs_of(runs, parties, q, b),
        0 <= accepted_runs_of(runs, parties, q, acc, a) <= total_runs_of(runs, parties, q, a),
    decreases b,
{
    if a < b {
        lemma_totals(runs, parties, q, acc, a, b - 1);
    } else if a > 0 {
        lemma_totals(runs, parties, q, acc, a - 1, a - 1);
        lemma_count_accepted_le(runs_of(runs, parties[a - 1], q), acc);
    }
}

/// The row of party `i` after its cells are built: cells in problem order,
/// score and color not computed yet.
pub open spec fn row_built(
    runs: Seq<Run>,
    problems: Seq<(ProblemId, ProblemConfig)>,
    p: PartyId,
    row: PartyRow,
) -> bool {
    &&& row.problems@.len() == problems.len()
    &&& forall|j: int|
        0 <= j < problems.len() ==> #[trigger] row.problems@[j] == (problems[j].0, cell_of(runs, problems, p, j))
}

/// Builds the monitor from all the runs: a row per party, in the given
/// order, with a cell per problem, in the given order; the problem
/// statistics; and each party's score and color.
pub fn build_monitor(
    runs: &Vec<Run>,
    problems: &Vec<(ProblemId, ProblemConfig)>,
    parties: &Vec<PartyId>,
    _config: &Config,
) -> (mon: Monitor)
    requires
        parties@.no_duplicates(),
        forall|a: int, b: int| 0 <= a < b < problems@.len() ==> problems@[a].0 != problems@[b].0,
        monitor_fits(runs@, problems@, parties@),
        runs_within_full_score(runs@, problems@, parties@),
    ensures
        mon.parties@.len() == parties@.len(),
        forall|i: int|
            0 <= i < parties@.len() ==> {
                &&& (#[trigger] mon.parties@[i]).0 == parties@[i]
                &&& row_built(runs@, problems@, parties@[i], mon.parties@[i].1)
                &&& mon.parties@[i].1.stats.score == row_score(
                    runs@,
                    problems@,
                    parties@[i],
                    problems@.len() as int,
                )
                &&& mon.parties@[i].1.stats.color == spec_color(
                    score_keys(party_scores(mon.parties@)),
                    color_key(mon.parties@[i].1.stats.score as int),
                ) as u32
            },
        mon.stats.problems@.len() == problems@.len(),
        forall|j: int|
            0 <= j < problems@.len() ==> #[trigger] mon.stats.problems@[j] == (
                problems@[j].0,
                spec_problem_stats(runs@, problems@, parties@, j),
            ),
{
    let ghost rs = runs@;
    let ghost qs = problems@;
    let ghost ps = parties@;
    let nq = problems.len();
    let np = parties.len();
    let mut stats: Vec<(ProblemId, ProblemStats)> = Vec::new();
    let mut j: usize = 0;
    while j < nq
        invariant
            nq == qs.len(),
            qs == problems@,
            0 <= j <= nq,
            stats@.len() == j,
            forall|t: int|
                0 <= t < j ==> #[trigger] stats@[t] == (
                    qs[t].0,
                    ProblemStats { total_runs: 0, accepted_runs: 0, max_score: 0 },
                ),
        decreases nq - j,
    {
        stats.push((problems[j].0, ProblemStats { total_runs: 0, accepted_runs: 0, max_score: 0 }));
        j = j + 1;
    }
    let mut rows: Vec<(PartyId, PartyRow)> = Vec::new();
    let mut i: usize = 0;
    while i < np
        invariant
            rs == runs@,
            qs == problems@,
            ps == parties@,
            nq == qs.len(),
            np == ps.len(),
            0 <= i <= np,
            monitor_fits(rs, qs, ps),
            runs_within_full_score(rs, qs, ps),
            rows@.len() == i,
            forall|t: int|
                0 <= t < i ==> {
                    &&& (#[trigger] rows@[t]).0 == ps[t]
                    &&& row_built(rs, qs, ps[t], rows@[t].1)
                    &&& rows@[t].1.stats == PartyStats { color: 0, score: 0 }
                },
            stats@.len() == nq,
            forall|t: int|
                0 <= t < nq ==> {
                    &&& (#[trigger] stats@[t]).0 == qs[t].0
                    &&& stats@[t].1.total_runs == total_runs_of(rs, ps, qs[t].0, i as int)
                    &&& stats@[t].1.accepted_runs == accepted_runs_of(rs, ps, qs[t].0, qs[t].1.accepted_score as int, i as int)
                    &&& stats@[t].1.max_score == max_cell_score(rs, qs, ps, t, i as int)
                },
        decreases np - i,
    {
        let party = parties[i];
        let mut cells: Vec<(ProblemId, Cell)> = Vec::new();
        let mut j: usize = 0;
        while j < nq
            invariant
                rs == runs@,
                qs == problems@,
                ps == parties@,
                nq == qs.len(),
                np == ps.len(),
                0 <= i < np,
                party == ps[i as int],
                0 <= j <= nq,
                monitor_fits(rs, qs, ps),
                runs_within_full_score(rs, qs, ps),
                cells@.len() == j,
                forall|t: int| 0 <= t < j ==> #[trigger] cells@[t] == (qs[t].0, cell_of(rs, qs, party, t)),
                stats@.len() == nq,
                forall|t: int|
                    0 <= t < nq ==> {
                        let m = if t < j { i + 1 } else { i as int };
                        &&& (#[trigger] stats@[t]).0 == qs[t].0
                        &&& stats@[t].1.total_runs == total_runs_of(rs, ps, qs[t].0, m)
                        &&& stats@[t].1.accepted_runs == accepted_runs_of(rs, ps, qs[t].0, qs[t].1.accepted_score as int, m)
                        &&& stats@[t].1.max_score == max_cell_score(rs, qs, ps, t, m)
                    },
            decreases nq - j,
        {
            let q = problems[j].0;
            let sel = select_runs(runs, party, q);
            let mut ps_j = stats[j].1;
            proof {
                let acc = qs[j as int].1.accepted_score as int;
                lemma_totals(rs, ps, q, acc, i + 1, np as int);
                lemma_totals(rs, ps, q, acc, i as int, i as int);
                assert(total_runs_of(rs, ps, q, np as int) <= u32::MAX);
                assert(cell_fits(runs_of(rs, ps[i as int], qs[j as int].0)));
                assert forall|k: int| 0 <= k < sel@.len() implies run_score(#[trigger] picked(runs@, sel@)[k]) <= problems[j as int].1.accepted_score by {
                    assert(run_score(runs_of(rs, ps[i as int], qs[j as int].0)[k]) <= qs[j as int].1.accepted_score);
                }
            }
            let cell = build_cell(runs, &sel, &problems[j].1, &mut ps_j);
            stats.set(j, (q, ps_j));
            cells.push((q, cell));
            proof {
                assert forall|t: int| 0 <= t < nq implies {
                    let m = if t < j + 1 { i + 1 } else { i as int };
                    &&& (#[trigger] stats@[t]).0 == qs[t].0
                    &&& stats@[t].1.total_runs == total_runs_of(rs, ps, qs[t].0, m)
                    &&& stats@[t].1.accepted_runs == accepted_runs_of(rs, ps, qs[t].0, qs[t].1.accepted_score as int, m)
                    &&& stats@[t].1.max_score == max_cell_score(rs, qs, ps, t, m)
                } by {
                    if t == j {
                        assert(total_runs_of(rs, ps, qs[t].0, i + 1) == total_runs_of(rs, ps, qs[t].0, i as int) + runs_of(rs, ps[i as int], qs[t].0).len());
                    }
                }
            }
            j = j + 1;
        }
        rows.push((party, PartyRow { stats: PartyStats { color: 0, score: 0 }, problems: cells }));
        i = i + 1;
    }
    let mut mon = Monitor { parties: rows, stats: StatsRow { problems: stats } };
    proof {
        assert forall|j: int| 0 <= j < nq implies #[trigger] mon.stats.problems@[j] == (
            qs[j].0,
            spec_problem_stats(rs, qs, ps, j),
        ) by {
            lemma_totals(rs, ps, qs[j].0, qs[j].1.accepted_score as int, np as int, np as int);
        }
    }
    build_party_stats(&mut mon, parties, Ghost(rs), Ghost(qs));
    mon
}

/// The party scores of monitor rows, in order.
pub open spec fn party_scores(rows: Seq<(PartyId, PartyRow)>) -> Seq<i32> {
    rows.map_values(|r: (PartyId, PartyRow)| r.1.stats.score)
}

/// The coloring key of a score: the score divided by 100, rounded
/// towards zero.
fn coloring_key(score: Score) -> (r: i64)
    ensures
        r == color_key(score as int),
{
    let x = score as i64;
    if x >= 0 {
        x / 100
    } else {
        -((-x) / 100)
    }
}

/// Whether `v` holds `x`.
fn contains_i64(v: &Vec<i64>, x: i64) -> (r: bool)
    ensures
        r == v@.map_values(|e: i64| e as int).contains(x as int),
{
    let n = v.len();
    let mut i: usize = 0;
    while i < n
        invariant
            n == v@.len(),
            0 <= i <= n,
            forall|k: int| 0 <= k < i ==> v@[k] != x,
        decreases n - i,
    {
        if v[i] == x {
            proof {
                assert(v@.map_values(|e: i64| e as int)[i as int] == x as int);
            }
            return true;
        }
        i = i + 1;
    }
    proof {
        let w = v@.map_values(|e: i64| e as int);
        if w.contains(x as int) {
            let k = choose|k: int| 0 <= k < w.len() && #[trigger] w[k] == x as int;
            assert(v@[k] == x);
        }
    }
    false
}

/// Computes each party's total score, then its color: the number of
/// distinct coloring keys above its own.
fn build_party_stats(
    mon: &mut Monitor,
    parties: &Vec<PartyId>,
    Ghost(rs): Ghost<Seq<Run>>,
    Ghost(qs): Ghost<Seq<(ProblemId, ProblemConfig)>>,
)
    requires
        old(mon).parties@.len() == parties@.len(),
        monitor_fits(rs, qs, parties@),
        forall|i: int|
            0 <= i < parties@.len() ==> (#[trigger] old(mon).parties@[i]).0 == parties@[i] && row_built(
                rs,
                qs,
                parties@[i],
                old(mon).parties@[i].1,
            ),
    ensures
        final(mon).stats == old(mon).stats,
        final(mon).parties@.len() == parties@.len(),
        forall|i: int|
            0 <= i < parties@.len() ==> {
                &&& (#[trigger] final(mon).parties@[i]).0 == parties@[i]
                &&& row_built(rs, qs, parties@[i], final(mon).parties@[i].1)
                &&& final(mon).parties@[i].1.stats.score == row_score(rs, qs, parties@[i], qs.len() as int)
                &&& final(mon).parties@[i].1.stats.color == spec_color(
                    score_keys(party_scores(final(mon).parties@)),
                    color_key(final(mon).parties@[i].1.stats.score as int),
                ) as u32
            },
{
    let np = parties.len();
    let mut i: usize = 0;
    while i < np
        invariant
            np == parties@.len(),
            mon.parties@.len() == np,
            mon.stats == old(mon).stats,
            0 <= i <= np,
            monitor_fits(rs, qs, parties@),
            forall|t: int|
                0 <= t < np ==> (#[trigger] mon.parties@[t]).0 == parties@[t] && row_built(
                    rs,
                    qs,
                    parties@[t],
                    mon.parties@[t].1,
                ),
            forall|t: int|
                0 <= t < i ==> (#[trigger] mon.parties@[t]).1.stats.score == row_score(
                    rs,
                    qs,
                    parties@[t],
                    qs.len() as int,
                ),
        decreases np - i,
    {
        let ghost before = mon.parties@;
        let (pid, mut row) = mon.parties.remove(i);
        let nq = row.problems.len();
        let mut score: Score = 0;
        let mut j: usize = 0;
        while j < nq
            invariant
                nq == row.problems@.len(),
                nq == qs.len(),
                0 <= j <= nq,
                (i as int) < np,
                np == parties@.len(),
                monitor_fits(rs, qs, parties@),
                row_built(rs, qs, parties@[i as int], row),
                score == row_score(rs, qs, parties@[i as int], j as int),
            decreases nq - j,
        {
            proof {
                assert(row.problems@[j as int] == (qs[j as int].0, cell_of(rs, qs, parties@[i as int], j as int)));
                assert(i32::MIN <= row_score(rs, qs, parties@[i as int], j + 1) <= i32::MAX);
            }
            score = score + row.problems[j].1.score;
            j = j + 1;
        }
        row.stats.score = score;
        mon.parties.insert(i, (pid, row));
        proof {
            assert forall|t: int| 0 <= t < np implies (#[trigger] mon.parties@[t]).0 == parties@[t] && row_built(
                rs,
                qs,
                parties@[t],
                mon.parties@[t].1,
            ) by {
                if t != i {
                    assert(mon.parties@[t] == before[t]);
                }
            }
            assert forall|t: int| 0 <= t < i + 1 implies (#[trigger] mon.parties@[t]).1.stats.score == row_score(
                rs,
                qs,
                parties@[t],
                qs.len() as int,
            ) by {
                if t != i {
                    assert(mon.parties@[t] == before[t]);
                }
            }
        }
        i = i + 1;
    }
    let ghost scores = party_scores(mon.parties@);
    let ghost ks = score_keys(scores);
    let mut keys: Vec<i64> = Vec::new();
    let mut distinct: Vec<i64> = Vec::new();
    let mut i: usize = 0;
    while i < np
        invariant
            np == mon.parties@.len(),
            scores == party_scores(mon.parties@),
            ks == score_keys(scores),
            0 <= i <= np,
            keys@.len() == i,
            forall|t: int| 0 <= t < i ==> (#[trigger] keys@[t]) as int == ks[t],
            distinct@.map_values(|e: i64| e as int) == distinct_of(ks.take(i as int)),
        decreases np - i,
    {
        let k = coloring_key(mon.parties[i].1.stats.score);
        keys.push(k);
        proof {
            assert(ks.take(i + 1).drop_last() =~= ks.take(i as int));
            assert(ks.take(i + 1).last() == ks[i as int]);
            assert(ks[i as int] == color_key(scores[i as int] as int));
        }
        let ghost d0 = distinct@;
        if !contains_i64(&distinct, k) {
            distinct.push(k);
            proof {
                assert(distinct@.map_values(|e: i64| e as int) =~= d0.map_values(|e: i64| e as int).push(k as int));
            }
        }
        i = i + 1;
    }
    proof {
        assert(ks.take(np as int) =~= ks);
    }
    let ghost dk = distinct_of(ks);
    let nd = distinct.len();
    let mut i: usize = 0;
    while i < np
        invariant
            np == mon.parties@.len(),
            np == parties@.len(),
            nd == distinct@.len(),
            distinct@.map_values(|e: i64| e as int) == dk,
            dk == distinct_of(ks),
            scores == party_scores(mon.parties@),
            ks == score_keys(scores),
            keys@.len() == np,
            forall|t: int| 0 <= t < np ==> (#[trigger] keys@[t]) as int == ks[t],
            mon.stats == old(mon).stats,
            0 <= i <= np,
            forall|t: int|
                0 <= t < np ==> (#[trigger] mon.parties@[t]).0 == parties@[t] && row_built(
                    rs,
                    qs,
                    parties@[t],
                    mon.parties@[t].1,
                ) && mon.parties@[t].1.stats.score == row_score(rs, qs, parties@[t], qs.len() as int),
            forall|t: int|
                0 <= t < i ==> (#[trigger] mon.parties@[t]).1.stats.color == spec_color(ks, ks[t]) as u32,
        decreases np - i,
    {
        let k = keys[i];
        let mut count: usize = 0;
        let mut d: usize = 0;
        while d < nd
            invariant
                nd == distinct@.len(),
                distinct@.map_values(|e: i64| e as int) == dk,
                0 <= d <= nd,
                count <= d,
                count == count_greater(dk.take(d as int), k as int),
            decreases nd - d,
        {
            proof {
                assert(dk.take(d + 1).drop_last() =~= dk.take(d as int));
                assert(dk.take(d + 1).last() == distinct@[d as int] as int);
            }
            if distinct[d] > k {
                count = count + 1;
            }
            d = d + 1;
        }
        proof {
            assert(dk.take(nd as int) =~= dk);
        }
        let ghost before = mon.parties@;
        let (pid, mut row) = mon.parties.remove(i);
        row.stats.color = count as u32;
        mon.parties.insert(i, (pid, row));
        proof {
            assert(party_scores(mon.parties@) =~= scores) by {
                assert forall|t: int| 0 <= t < np implies party_scores(mon.parties@)[t] == scores[t] by {
                    if t != i {
                        assert(mon.parties@[t] == before[t]);
                    }
                }
            }
            assert forall|t: int|
                0 <= t < np implies (#[trigger] mon.parties@[t]).0 == parties@[t] && row_built(
                    rs,
                    qs,
                    parties@[t],
                    mon.parties@[t].1,
                ) && mon.parties@[t].1.stats.score == row_score(rs, qs, parties@[t], qs.len() as int) by {
                if t != i {
                    assert(mon.parties@[t] == before[t]);
                }
            }
            assert forall|t: int| 0 <= t < i + 1 implies (#[trigger] mon.parties@[t]).1.stats.color == spec_color(ks, ks[t]) as u32 by {
                if t != i {
                    assert(mon.parties@[t] == before[t]);
                }
            }
        }
        i = i + 1;
    }
    proof {
        assert forall|t: int| 0 <= t < np implies (#[trigger] mon.parties@[t]).1.stats.color == spec_color(
            score_keys(party_scores(mon.parties@)),
            color_key(mon.parties@[t].1.stats.score as int),
        ) as u32 by {
            assert(ks[t] == color_key(scores[t] as int));
        }
    }
}

proof fn lemma_count_greater_mono(d: Seq<int>, a: int, b: int)
    requires
        a >= b,
    ensures
        0 <= count_greater(d, a) <= count_greater(d, b),
        d.contains(a) && a > b ==> count_greater(d, a) < count_greater(d, b),
    decreases d.len(),
{
    if d.len() > 0 {
        lemma_count_greater_mono(d.drop_last(), a, b);
        if d.contains(a) && a > b && d.last() != a {
            let k = choose|k: int| 0 <= k < d.len() && d[k] == a;
            assert(d.drop_last()[k] == a);
        }
    }
}

proof fn lemma_count_greater_top(d: Seq<int>, a: int)
    requires
        forall|k: int| 0 <= k < d.len() ==> d[k] <= a,
    ensures
        count_greater(d, a) == 0,
    decreases d.len(),
{
    if d.len() > 0 {
        lemma_count_greater_top(d.drop_last(), a);
    }
}

proof fn lemma_distinct_of(s: Seq<int>)
    ensures
        forall|x: int| #[trigger] distinct_of(s).contains(x) <==> s.contains(x),
    decreases s.len(),
{
    if s.len() > 0 {
        lemma_distinct_of(s.drop_last());
        let d = distinct_of(s.drop_last());
        assert forall|x: int| #[trigger] distinct_of(s).contains(x) <==> s.contains(x) by {
            if s.contains(x) && x != s.last() {
                let k = choose|k: int| 0 <= k < s.len() && s[k] == x;
                assert(s.drop_last()[k] == x);
            }
            if s.drop_last().contains(x) {
                let k = choose|k: int| 0 <= k < s.drop_last().len() && s.drop_last()[k] == x;
                assert(s[k] == x);
            }
            if x == s.last() {
                assert(s[s.len() - 1] == x);
            }
            if !d.contains(s.last()) {
                if d.push(s.last()).contains(x) && x != s.last() {
                    let k = choose|k: int| 0 <= k < d.push(s.last()).len() && d.push(s.last())[k] == x;
                    assert(d[k] == x);
                }
                if d.contains(x) {
                    let k = choose|k: int| 0 <= k < d.len() && d[k] == x;
                    assert(d.push(s.last())[k] == x);
                }
                if x == s.last() {
                    assert(d.push(s.last())[d.len() as int] == x);
                }
            }
        }
    }
}

/// Colors follow the coloring keys: a party with a higher key gets a
/// smaller color, parties with equal keys get the same color, and the
/// parties with the highest key get color 0.
pub proof fn lemma_color_order(keys: Seq<int>, a: int, b: int)
    requires
        keys.contains(a),
        keys.contains(b),
    ensures
        a > b ==> spec_color(keys, a) < spec_color(keys, b),
        a == b ==> spec_color(keys, a) == spec_color(keys, b),
        (forall|k: int| 0 <= k < keys.len() ==> keys[k] <= a) ==> spec_color(keys, a) == 0,
{
    lemma_distinct_of(keys);
    let d = distinct_of(keys);
    if a > b {
        lemma_count_greater_mono(d, a, b);
    }
    if forall|k: int| 0 <= k < keys.len() ==> keys[k] <= a {
        assert forall|k: int| 0 <= k < d.len() implies d[k] <= a by {
            assert(d.contains(d[k]));
            assert(keys.contains(d[k]));
            let t = choose|t: int| 0 <= t < keys.len() && keys[t] == d[k];
        }
        lemma_count_greater_top(d, a);
    }
}

proof fn lemma_best_run_score(rs: Seq<Run>, acc: int)
    requires
        acc > 0,
        forall|k: int| 0 <= k < rs.len() ==> run_score(#[trigger] rs[k]) <= acc,
    ensures
        best_run_score(rs) <= acc,
        (best_run_score(rs) == acc) == any_accepted(rs, acc),
    decreases rs.len(),
{
    if rs.len() > 0 {
        let p = rs.drop_last();
        assert forall|k: int| 0 <= k < p.len() implies run_score(#[trigger] p[k]) <= acc by {
            assert(p[k] == rs[k]);
        }
        lemma_best_run_score(p, acc);
        assert(run_score(rs[rs.len() - 1]) <= acc);
        if any_accepted(p, acc) {
            let w = choose|w: int| 0 <= w < p.len() && run_score(#[trigger] p[w]) == acc;
            assert(rs[w] == p[w]);
        }
        if any_accepted(rs, acc) {
            let w = choose|w: int| 0 <= w < rs.len() && run_score(#[trigger] rs[w]) == acc;
            if w < rs.len() - 1 {
                assert(p[w] == rs[w]);
            }
        }
        if run_score(rs.last()) == acc {
            assert(run_score(rs[rs.len() - 1]) == acc);
        }
    }
}

/// With the maximum-run aggregation and a positive full score, a cell is
/// solved exactly when its score is the full score, and its score never
/// exceeds the full score.
pub proof fn lemma_max_cell_solved(rs: Seq<Run>, acc: int)
    requires
        acc > 0,
        forall|k: int| 0 <= k < rs.len() ==> run_score(#[trigger] rs[k]) <= acc,
    ensures
        cell_score(rs, RunScoreAggregation::Max) <= acc,
        any_accepted(rs, acc) <==> cell_score(rs, RunScoreAggregation::Max) == acc,
{
    lemma_best_run_score(rs, acc);
}

/// The best score of a problem is at least every listed party's cell score
/// on it, and at least 0.
pub proof fn lemma_max_cell_score_bounds(
    runs: Seq<Run>,
    problems: Seq<(ProblemId, ProblemConfig)>,
    parties: Seq<PartyId>,
    j: int,
    m: int,
)
    requires
        0 <= m <= parties.len(),
    ensures
        max_cell_score(runs, problems, parties, j, m) >= 0,
        forall|i: int| 0 <= i < m ==> cell_of(runs, problems, #[trigger] parties[i], j).score <= max_cell_score(runs, problems, parties, j, m),
    decreases m,
{
    if m > 0 {
        lemma_max_cell_score_bounds(runs, problems, parties, j, m - 1);
    }
}

proof fn lemma_count_accepted_pos(rs: Seq<Run>, acc: int)
    ensures
        count_accepted(rs, acc) >= 0,
        count_accepted(rs, acc) > 0 <==> exists|k: int| 0 <= k < rs.len() && run_score(#[trigger] rs[k]) == acc,
    decreases rs.len(),
{
    if rs.len() > 0 {
        let init = rs.drop_last();
        lemma_count_accepted_pos(init, acc);
        if exists|k: int| 0 <= k < init.len() && run_score(#[trigger] init[k]) == acc {
            let k = choose|k: int| 0 <= k < init.len() && run_score(#[trigger] init[k]) == acc;
            assert(rs[k] == init[k]);
        }
        if exists|k: int| 0 <= k < rs.len() && run_score(#[trigger] rs[k]) == acc {
            let k = choose|k: int| 0 <= k < rs.len() && run_score(#[trigger] rs[k]) == acc;
            if k < init.len() {
                assert(init[k] == rs[k]);
            }
        }
    }
}

/// A cell is solved exactly when some run of the party on the problem
/// scores the problem's accepted score, whatever that score is; that is,
/// exactly when the party counts an accepted run in the problem's
/// statistics.
pub proof fn lemma_cell_ok_iff_accepted_run(rs: Seq<Run>, acc: int, aggregation: RunScoreAggregation)
    ensures
        spec_cell(rs, acc, aggregation).ok <==> exists|k: int| 0 <= k < rs.len() && run_score(#[trigger] rs[k]) == acc,
        spec_cell(rs, acc, aggregation).ok <==> count_accepted(rs, acc) > 0,
{
    lemma_count_accepted_pos(rs, acc);
}

} // verus!
