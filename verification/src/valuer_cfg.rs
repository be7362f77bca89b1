//! Importing a Polygon valuer configuration (`valuer.cfg`): its group
//! definitions become groups of the simple valuer's configuration, and
//! what cannot be imported is warned about.
use vstd::prelude::*;
use crate::cfg::{Config, FeedbackKind, Group, GroupRef};
use crate::text::{decimal, decimal_string};

verus! {

/// An option of a group definition.
#[derive(Debug, Clone)]
pub enum GroupOption {
    /// `tests a-b`: the group's tests, `a` to `b` inclusive.
    Tests(u32, u32),
    /// `score s`: the group's score.
    Score(u32),
    /// `require ...`: groups that must pass first, by number.
    Requires(Vec<u32>),
}

/// A definition of the configuration.
#[derive(Debug, Clone)]
pub enum Definition {
    /// Global options, which are not supported.
    Global,
    /// A group, by number, with its options.
    Group { num: u32, options: Vec<GroupOption> },
}

/// The name a group gets: `g` and its number.
pub open spec fn group_name(num: u32) -> Seq<char> {
    "g"@ + decimal(num as nat)
}

/// The score that the options set last, or zero.
pub open spec fn score_of(opts: Seq<GroupOption>) -> u32
    decreases opts.len(),
{
    if opts.len() == 0 {
        0
    } else {
        match opts.last() {
            GroupOption::Score(s) => s,
            _ => score_of(opts.drop_last()),
        }
    }
}

/// The names of the groups that the options require, in order.
pub open spec fn deps_of(opts: Seq<GroupOption>) -> Seq<Seq<char>>
    decreases opts.len(),
{
    if opts.len() == 0 {
        seq![]
    } else {
        deps_of(opts.drop_last()) + match opts.last() {
            GroupOption::Requires(ids) => ids@.map_values(|id: u32| group_name(id)),
            _ => seq![],
        }
    }
}

/// `g` is the group that definition `num` with options `opts` becomes:
/// named after its number, brief feedback, no tests tag, run to the end,
/// with its score and the groups it requires, by name.
pub open spec fn imported_group(g: Group, num: u32, opts: Seq<GroupOption>) -> bool {
    &&& g.name@ == group_name(num)
    &&& g.feedback == FeedbackKind::Brief
    &&& g.tests_tag is None
    &&& !g.run_to_first_failure
    &&& g.score == score_of(opts)
    &&& g.deps@.len() == deps_of(opts).len()
    &&& forall|k: int|
        0 <= k < g.deps@.len() ==> (#[trigger] g.deps@[k] matches GroupRef::ByName(n) && n@ == deps_of(opts)[k])
}

/// The group definitions among `defs`, in order: number and options.
pub open spec fn group_defs(defs: Seq<Definition>) -> Seq<(u32, Seq<GroupOption>)>
    decreases defs.len(),
{
    if defs.len() == 0 {
        seq![]
    } else {
        group_defs(defs.drop_last()) + match defs.last() {
            Definition::Group { num, options } => seq![(num, options@)],
            Definition::Global => seq![],
        }
    }
}

/// The warning for a test that more than one group names.
pub open spec fn duplicate_warning(tid: u32) -> Seq<char> {
    "test "@ + decimal(tid as nat) + " is mentioned more than once"@
}

/// The warning for global definitions.
pub open spec fn global_warning() -> Seq<char> {
    "not supported feature: GlobalDefinitions"@
}

/// Naming tests `a` to `b` when the tests in `seen` are named already:
/// the tests named then, and a warning for each one named twice.
pub open spec fn range_warnings(seen: Set<u32>, a: int, b: int) -> (Set<u32>, Seq<Seq<char>>)
    decreases b - a + 1,
{
    if b < a {
        (seen, seq![])
    } else {
        let (s, w) = range_warnings(seen, a, b - 1);
        (s.insert(b as u32), if s.contains(b as u32) {
            w.push(duplicate_warning(b as u32))
        } else {
            w
        })
    }
}

/// The tests named and the warnings after options `opts`.
pub open spec fn options_warnings(seen: Set<u32>, opts: Seq<GroupOption>) -> (Set<u32>, Seq<Seq<char>>)
    decreases opts.len(),
{
    if opts.len() == 0 {
        (seen, seq![])
    } else {
        let (s, w) = options_warnings(seen, opts.drop_last());
        match opts.last() {
            GroupOption::Tests(a, b) => {
                let (s2, w2) = range_warnings(s, a as int, b as int);
                (s2, w + w2)
            },
            _ => (s, w),
        }
    }
}

/// The tests named and the warnings after definitions `defs`.
pub open spec fn config_warnings(defs: Seq<Definition>) -> (Set<u32>, Seq<Seq<char>>)
    decreases defs.len(),
{
    if defs.len() == 0 {
        (Set::empty(), seq![])
    } else {
        let (s, w) = config_warnings(defs.drop_last());
        match defs.last() {
            Definition::Global => (s, w.push(global_warning())),
            Definition::Group { options, .. } => {
                let (s2, w2) = options_warnings(s, options@);
                (s2, w + w2)
            },
        }
    }
}

/// Every `tests` option runs from a test to one at or after it.
pub open spec fn ranges_ordered(defs: Seq<Definition>) -> bool {
    forall|i: int|
        0 <= i < defs.len() ==> match #[trigger] defs[i] {
            Definition::Group { options, .. } => forall|k: int|
                0 <= k < options@.len() ==> match #[trigger] options@[k] {
                    GroupOption::Tests(a, b) => a <= b,
                    _ => true,
                },
            Definition::Global => true,
        }
}

/// Texts of a list of strings.
pub open spec fn texts(v: Seq<String>) -> Seq<Seq<char>> {
    v.map_values(|s: String| s@)
}

fn concat(a: &str, b: &str) -> (r: String)
    ensures
        r@ == a@ + b@,
{
    let mut s = String::from_str(a);
    s.append(b);
    s
}

fn push_text(v: &mut Vec<String>, s: String)
    ensures
        texts(final(v)@) == texts(old(v)@).push(s@),
{
    let ghost v0 = v@;
    v.push(s);
    proof {
        assert(texts(v@) =~= texts(v0).push(s@));
    }
}

/// Records that test `tid` is named; tells whether it was named before.
fn mention(seen: &mut Vec<u32>, tid: u32) -> (before: bool)
    ensures
        final(seen)@.to_set() == old(seen)@.to_set().insert(tid),
        before == old(seen)@.to_set().contains(tid),
{
    let mut i: usize = 0;
    while i < seen.len()
        invariant
            0 <= i <= seen@.len(),
            forall|k: int| 0 <= k < i ==> seen@[k] != tid,
        decreases seen@.len() - i,
    {
        if seen[i] == tid {
            proof {
                assert(seen@.to_set().contains(tid));
                assert(seen@.to_set().insert(tid) =~= seen@.to_set());
            }
            return true;
        }
        i = i + 1;
    }
    let ghost s0 = seen@;
    proof {
        assert(!s0.to_set().contains(tid)) by {
            if s0.contains(tid) {
                let k = choose|k: int| 0 <= k < s0.len() && s0[k] == tid;
                assert(s0[k] != tid);
            }
        }
    }
    seen.push(tid);
    proof {
        assert forall|x: u32| seen@.contains(x) <==> (s0.contains(x) || x == tid) by {
            if s0.contains(x) {
                let k = choose|k: int| 0 <= k < s0.len() && s0[k] == x;
                assert(seen@[k] == x);
            }
            if x == tid {
                assert(seen@[s0.len() as int] == x);
            }
            if seen@.contains(x) {
                let k = choose|k: int| 0 <= k < seen@.len() && seen@[k] == x;
                if k < s0.len() {
                    assert(s0[k] == x);
                }
            }
        }
        assert(seen@.to_set() =~= s0.to_set().insert(tid));
    }
    false
}

/// Names tests `a` to `b`, warning about each one named before.
fn visit_range(seen: &mut Vec<u32>, warnings: &mut Vec<String>, a: u32, b: u32)
    requires
        a <= b,
    ensures
        ({
            let (s, w) = range_warnings(old(seen)@.to_set(), a as int, b as int);
            &&& final(seen)@.to_set() == s
            &&& texts(final(warnings)@) == texts(old(warnings)@) + w
        }),
{
    let ghost s0 = seen@.to_set();
    let ghost w0 = texts(warnings@);
    let mut tid: u32 = a;
    proof {
        assert(w0 + Seq::<Seq<char>>::empty() =~= w0);
    }
    loop
        invariant_except_break
            range_warnings(s0, a as int, tid - 1) == (seen@.to_set(), texts(warnings@).subrange(
                w0.len() as int,
                texts(warnings@).len() as int,
            )),
        invariant
            a <= tid <= b,
            texts(warnings@).len() >= w0.len(),
            texts(warnings@).subrange(0, w0.len() as int) == w0,
        ensures
            range_warnings(s0, a as int, b as int) == (seen@.to_set(), texts(warnings@).subrange(
                w0.len() as int,
                texts(warnings@).len() as int,
            )),
        decreases b - tid,
    {
        let ghost st = seen@.to_set();
        let ghost wv = texts(warnings@);
        let before = mention(seen, tid);
        if before {
            let m1 = concat("test ", decimal_string(tid as u64).as_str());
            let m = concat(m1.as_str(), " is mentioned more than once");
            push_text(warnings, m);
        }
        proof {
            let wn = texts(warnings@);
            assert(wn.subrange(0, w0.len() as int) =~= w0);
            if before {
                assert(wn.subrange(w0.len() as int, wn.len() as int) =~= wv.subrange(w0.len() as int, wv.len() as int).push(
                    duplicate_warning(tid),
                ));
            } else {
                assert(wn.subrange(w0.len() as int, wn.len() as int) =~= wv.subrange(w0.len() as int, wv.len() as int));
            }
            assert(range_warnings(s0, a as int, tid as int) == (seen@.to_set(), wn.subrange(
                w0.len() as int,
                wn.len() as int,
            )));
        }
        if tid == b {
            break;
        }
        tid = tid + 1;
    }
    proof {
        let wn = texts(warnings@);
        assert(wn =~= w0 + wn.subrange(w0.len() as int, wn.len() as int));
    }
}

/// Imports one group definition: its group, and the warnings of its
/// options.
fn visit_group_def(
    num: u32,
    opts: &Vec<GroupOption>,
    seen: &mut Vec<u32>,
    warnings: &mut Vec<String>,
) -> (g: Group)
    requires
        forall|k: int|
            0 <= k < opts@.len() ==> match #[trigger] opts@[k] {
                GroupOption::Tests(a, b) => a <= b,
                _ => true,
            },
    ensures
        imported_group(g, num, opts@),
        ({
            let (s, w) = options_warnings(old(seen)@.to_set(), opts@);
            &&& final(seen)@.to_set() == s
            &&& texts(final(warnings)@) == texts(old(warnings)@) + w
        }),
{
    let ghost s0 = seen@.to_set();
    let ghost w0 = texts(warnings@);
    let name = concat("g", decimal_string(num as u64).as_str());
    let mut score: u32 = 0;
    let mut deps: Vec<GroupRef> = Vec::new();
    let mut i: usize = 0;
    proof {
        assert(opts@.take(0) =~= Seq::<GroupOption>::empty());
        assert(w0 + Seq::<Seq<char>>::empty() =~= w0);
    }
    while i < opts.len()
        invariant
            0 <= i <= opts@.len(),
            forall|k: int|
                0 <= k < opts@.len() ==> match #[trigger] opts@[k] {
                    GroupOption::Tests(a, b) => a <= b,
                    _ => true,
                },
            score == score_of(opts@.take(i as int)),
            deps@.len() == deps_of(opts@.take(i as int)).len(),
            forall|k: int|
                0 <= k < deps@.len() ==> (#[trigger] deps@[k] matches GroupRef::ByName(n) && n@ == deps_of(
                    opts@.take(i as int),
                )[k]),
            ({
                let (s, w) = options_warnings(s0, opts@.take(i as int));
                &&& seen@.to_set() == s
                &&& texts(warnings@) == w0 + w
            }),
        decreases opts@.len() - i,
    {
        proof {
            assert(opts@.take(i + 1).drop_last() =~= opts@.take(i as int));
            assert(opts@.take(i + 1).last() == opts@[i as int]);
        }
        let ghost d0 = deps@;
        let ghost ws = texts(warnings@);
        match &opts[i] {
            GroupOption::Tests(a, b) => {
                proof {
                    assert(match opts@[i as int] {
                        GroupOption::Tests(a, b) => a <= b,
                        _ => true,
                    });
                }
                visit_range(seen, warnings, *a, *b);
                proof {
                    let (s, w) = options_warnings(s0, opts@.take(i as int));
                    let (s2, w2) = range_warnings(s, *a as int, *b as int);
                    assert(texts(warnings@) =~= w0 + (w + w2));
                    assert(deps_of(opts@.take(i + 1)) =~= deps_of(opts@.take(i as int)));
                }
            },
            GroupOption::Score(s) => {
                score = *s;
                proof {
                    assert(deps_of(opts@.take(i + 1)) =~= deps_of(opts@.take(i as int)));
                }
            },
            GroupOption::Requires(ids) => {
                let mut j: usize = 0;
                let ghost base = deps_of(opts@.take(i as int));
                while j < ids.len()
                    invariant
                        0 <= j <= ids@.len(),
                        deps@.len() == base.len() + j,
                        forall|k: int|
                            0 <= k < deps@.len() ==> (#[trigger] deps@[k] matches GroupRef::ByName(n) && n@ == (base
                                + ids@.map_values(|id: u32| group_name(id)))[k]),
                    decreases ids@.len() - j,
                {
                    let dep = concat("g", decimal_string(ids[j] as u64).as_str());
                    let ghost dd = deps@;
                    deps.push(GroupRef::ByName(dep));
                    proof {
                        assert forall|k: int| 0 <= k < deps@.len() implies (#[trigger] deps@[k] matches GroupRef::ByName(
                            n,
                        ) && n@ == (base + ids@.map_values(|id: u32| group_name(id)))[k]) by {
                            if k < dd.len() {
                                assert(deps@[k] == dd[k]);
                            }
                        }
                    }
                    j = j + 1;
                }
                proof {
                    assert(deps_of(opts@.take(i + 1)) =~= base + ids@.map_values(|id: u32| group_name(id)));
                }
            },
        }
        i = i + 1;
    }
    proof {
        assert(opts@.take(opts@.len() as int) =~= opts@);
    }
    Group { name, feedback: FeedbackKind::Brief, tests_tag: None, run_to_first_failure: false, score, deps }
}

/// Imports a valuer configuration: each group definition becomes a group,
/// in order; global definitions and tests that several groups name are
/// warned about.
pub fn import(defs: &Vec<Definition>) -> (r: (Config, Vec<String>))
    requires
        ranges_ordered(defs@),
    ensures
        r.0.groups@.len() == group_defs(defs@).len(),
        forall|k: int|
            0 <= k < r.0.groups@.len() ==> imported_group(
                #[trigger] r.0.groups@[k],
                group_defs(defs@)[k].0,
                group_defs(defs@)[k].1,
            ),
        texts(r.1@) == config_warnings(defs@).1,
{
    let mut groups: Vec<Group> = Vec::new();
    let mut warnings: Vec<String> = Vec::new();
    let mut seen: Vec<u32> = Vec::new();
    let mut i: usize = 0;
    proof {
        assert(defs@.take(0) =~= Seq::<Definition>::empty());
        assert(seen@.to_set() =~= Set::<u32>::empty());
        assert(texts(warnings@) =~= Seq::<Seq<char>>::empty());
    }
    while i < defs.len()
        invariant
            0 <= i <= defs@.len(),
            ranges_ordered(defs@),
            groups@.len() == group_defs(defs@.take(i as int)).len(),
            forall|k: int|
                0 <= k < groups@.len() ==> imported_group(
                    #[trigger] groups@[k],
                    group_defs(defs@.take(i as int))[k].0,
                    group_defs(defs@.take(i as int))[k].1,
                ),
            config_warnings(defs@.take(i as int)) == (seen@.to_set(), texts(warnings@)),
        decreases defs@.len() - i,
    {
        proof {
            assert(defs@.take(i + 1).drop_last() =~= defs@.take(i as int));
            assert(defs@.take(i + 1).last() == defs@[i as int]);
        }
        let ghost g0 = groups@;
        let ghost w0 = texts(warnings@);
        match &defs[i] {
            Definition::Global => {
                push_text(&mut warnings, String::from_str("not supported feature: GlobalDefinitions"));
                proof {
                    assert(group_defs(defs@.take(i + 1)) =~= group_defs(defs@.take(i as int)));
                }
            },
            Definition::Group { num, options } => {
                proof {
                    assert(match defs@[i as int] {
                        Definition::Group { options, .. } => forall|k: int|
                            0 <= k < options@.len() ==> match #[trigger] options@[k] {
                                GroupOption::Tests(a, b) => a <= b,
                                _ => true,
                            },
                        Definition::Global => true,
                    });
                }
                let g = visit_group_def(*num, options, &mut seen, &mut warnings);
                groups.push(g);
                proof {
                    let gd = group_defs(defs@.take(i as int));
                    assert(group_defs(defs@.take(i + 1)) =~= gd.push((*num, options@)));
                    assert forall|k: int| 0 <= k < groups@.len() implies imported_group(
                        #[trigger] groups@[k],
                        group_defs(defs@.take(i + 1))[k].0,
                        group_defs(defs@.take(i + 1))[k].1,
                    ) by {
                        if k < g0.len() {
                            assert(groups@[k] == g0[k]);
                        }
                    }
                }
            },
        }
        i = i + 1;
    }
    proof {
        assert(defs@.take(defs@.len() as int) =~= defs@);
    }
    (Config { groups }, warnings)
}

/// The group numbers that option `o` requires: those of a `require`
/// option, none for the others.
pub open spec fn required_ids(o: GroupOption) -> Seq<u32> {
    match o {
        GroupOption::Requires(ids) => ids@,
        _ => seq![],
    }
}

/// How many group numbers the options `opts` require in all.
pub open spec fn required_count(opts: Seq<GroupOption>) -> nat
    decreases opts.len(),
{
    if opts.len() == 0 {
        0
    } else {
        required_count(opts.drop_last()) + required_ids(opts.last()).len()
    }
}

/// `r` names the group called `name`.
pub open spec fn dep_named(r: GroupRef, name: Seq<char>) -> bool {
    match r {
        GroupRef::ByName(n) => n@ == name,
        _ => false,
    }
}

proof fn lemma_required_count_take(opts: Seq<GroupOption>, i: int)
    requires
        0 <= i <= opts.len(),
    ensures
        required_count(opts.take(i)) + required_ids(opts[i]).len() <= required_count(opts) || i == opts.len(),
        i < opts.len() ==> required_count(opts.take(i + 1)) == required_count(opts.take(i)) + required_ids(
            opts[i],
        ).len(),
    decreases opts.len() - i,
{
    if i < opts.len() {
        assert(opts.take(i + 1).drop_last() =~= opts.take(i));
        assert(opts.take(i + 1).last() == opts[i]);
        lemma_required_count_mono(opts, i + 1);
    }
}

proof fn lemma_required_count_mono(opts: Seq<GroupOption>, i: int)
    requires
        0 <= i <= opts.len(),
    ensures
        required_count(opts.take(i)) <= required_count(opts),
    decreases opts.len() - i,
{
    if i < opts.len() {
        lemma_required_count_mono(opts, i + 1);
        assert(opts.take(i + 1).drop_last() =~= opts.take(i));
    } else {
        assert(opts.take(i) =~= opts);
    }
}

/// Where the names of required groups stand among the dependencies of the
/// options: those of option `i` right after those of the options before
/// it, in their order.
proof fn lemma_deps_layout(opts: Seq<GroupOption>)
    ensures
        deps_of(opts).len() == required_count(opts),
        forall|i: int, j: int|
            0 <= i < opts.len() && 0 <= j < required_ids(opts[i]).len() ==> #[trigger] deps_of(opts)[required_count(
                opts.take(i),
            ) + j] == "g"@ + decimal(required_ids(opts[i])[j] as nat),
    decreases opts.len(),
{
    if opts.len() > 0 {
        let init = opts.drop_last();
        lemma_deps_layout(init);
        let last = opts.last();
        let tail = match last {
            GroupOption::Requires(ids) => ids@.map_values(|id: u32| group_name(id)),
            _ => seq![],
        };
        assert(deps_of(opts) == deps_of(init) + tail);
        assert(tail.len() == required_ids(last).len());
        assert forall|i: int, j: int|
            0 <= i < opts.len() && 0 <= j < required_ids(opts[i]).len() implies #[trigger] deps_of(
            opts,
        )[required_count(opts.take(i)) + j] == "g"@ + decimal(required_ids(opts[i])[j] as nat) by {
            if i < opts.len() - 1 {
                assert(opts.take(i) =~= init.take(i));
                assert(init[i] == opts[i]);
                lemma_required_count_take(init, i);
                lemma_required_count_mono(init, i + 1);
                assert(deps_of(opts)[required_count(opts.take(i)) + j] == deps_of(init)[required_count(init.take(i)) + j]);
            } else {
                assert(opts.take(i) =~= init);
                assert(opts[i] == last);
                assert(deps_of(opts)[required_count(init) + j] == tail[j]);
            }
        }
    }
}

/// Every group number that a `require` option of a definition lists
/// becomes a dependency of the group it is imported as, by name `g` and
/// the number: the dependencies are, in order, the required numbers of
/// each `require` option in turn, and nothing else.
pub proof fn lemma_imported_requires(g: Group, num: u32, opts: Seq<GroupOption>)
    requires
        imported_group(g, num, opts),
    ensures
        g.deps@.len() == required_count(opts),
        forall|i: int, j: int|
            0 <= i < opts.len() && 0 <= j < required_ids(opts[i]).len() ==> dep_named(
                #[trigger] g.deps@[required_count(opts.take(i)) + j],
                "g"@ + decimal(required_ids(opts[i])[j] as nat),
            ),
{
    lemma_deps_layout(opts);
    assert forall|i: int, j: int|
        0 <= i < opts.len() && 0 <= j < required_ids(opts[i]).len() implies dep_named(
        #[trigger] g.deps@[required_count(opts.take(i)) + j],
        "g"@ + decimal(required_ids(opts[i])[j] as nat),
    ) by {
        lemma_required_count_take(opts, i);
        let k = required_count(opts.take(i)) + j;
        assert(deps_of(opts)[k] == "g"@ + decimal(required_ids(opts[i])[j] as nat));
        assert(g.deps@[k] matches GroupRef::ByName(n) && n@ == deps_of(opts)[k]);
    }
}

} // verus!
