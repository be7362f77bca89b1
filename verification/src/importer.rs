//! Importing a problem package in the Polygon format. Each section of the
//! package's `problem.xml` contributes to the problem manifest and asks for
//! directories to be made, files to be copied and progress updates to be
//! reported; this module decides all of that, as a list of actions that the
//! caller performs in order.
use vstd::prelude::*;
use crate::manifest::{
    RawProblem, RawTestsSpec, BuiltinCheck, CheckOptions, IntErrorKind, ChunkError, is_digit, digit_value,
    spec_mapping, lemma_mapping_of_decimal,
};
use crate::pom::Limits;
use crate::ppc::fill_random;
use crate::pps_api::import_problem::{PropertyName, Update, UpdateView};
use crate::pps_server::{FileCategory, spec_category};
use crate::text::{
    chars_of, str_eq, starts_with, string_of_range, decimal, decimal_string, pad2, pad2_string,
    words, split_whitespace, trim_start_all, trim_start_all_chars, first_occurrence, find_from,
    lemma_first_occurrence, occurs_at, hex_of, hex_string, digit_char, lemma_decimal_digits,
};

verus! {

/// One step of an import, performed by the caller.
#[derive(Debug)]
pub enum Action {
    /// Report an update to the client.
    Send(Update),
    /// Make a directory below the destination.
    CreateDir(Vec<String>),
    /// Make a directory below the destination, with its missing parents.
    CreateDirAll(Vec<String>),
    /// Copy the file at `from` below the source to `to` below the destination.
    Copy { from: String, to: Vec<String> },
    /// Write the CMake file that builds a checker (generators use it too).
    WriteCheckerCmake(Vec<String>),
    /// Write the CMake file that builds a solution.
    WriteSolutionCmake(Vec<String>),
}

/// A path below the source or destination directory: the pieces that are
/// joined onto that directory one after another.
pub open spec fn path_view(p: Seq<String>) -> Seq<Seq<char>> {
    p.map_values(|s: String| s@)
}

/// An action with its texts taken as characters.
pub enum ActionView {
    Send(UpdateView),
    CreateDir(Seq<Seq<char>>),
    CreateDirAll(Seq<Seq<char>>),
    Copy(Seq<char>, Seq<Seq<char>>),
    WriteCheckerCmake(Seq<Seq<char>>),
    WriteSolutionCmake(Seq<Seq<char>>),
}

impl View for Action {
    type V = ActionView;

    open spec fn view(&self) -> ActionView {
        match self {
            Action::Send(u) => ActionView::Send(u@),
            Action::CreateDir(p) => ActionView::CreateDir(path_view(p@)),
            Action::CreateDirAll(p) => ActionView::CreateDirAll(path_view(p@)),
            Action::Copy { from, to } => ActionView::Copy(from@, path_view(to@)),
            Action::WriteCheckerCmake(p) => ActionView::WriteCheckerCmake(path_view(p@)),
            Action::WriteSolutionCmake(p) => ActionView::WriteSolutionCmake(path_view(p@)),
        }
    }
}

/// A list of actions, taken by their views.
pub open spec fn actions_view(a: Seq<Action>) -> Seq<ActionView> {
    a.map_values(|x: Action| x@)
}

/// Why an import stops.
#[derive(Debug, Clone)]
pub enum ImportError {
    /// <judging> element does not have a <testset> child
    NoTestset,
    /// <time-limit> does not contain value
    TimeLimitMissing,
    /// parsing <time-limit> failed
    TimeLimitInvalid(IntErrorKind),
    /// <memory-limit> does not contain value
    MemoryLimitMissing,
    /// parsing <memory-limit> failed
    MemoryLimitInvalid(IntErrorKind),
    /// <name> does not have value attribute
    NameMissing,
    /// <source> does not have path attribute
    SourcePathMissing,
    /// <source> does not have type attribute
    SourceTypeMissing,
    /// unknown file type
    UnknownFileType(String),
    /// solution does not have <tag> attribute
    SolutionTagMissing,
    /// the system's source of random bytes failed
    Entropy,
}

/// An import error with its text taken as characters.
pub enum ImportErrorView {
    NoTestset,
    TimeLimitMissing,
    TimeLimitInvalid(IntErrorKind),
    MemoryLimitMissing,
    MemoryLimitInvalid(IntErrorKind),
    NameMissing,
    SourcePathMissing,
    SourceTypeMissing,
    UnknownFileType(Seq<char>),
    SolutionTagMissing,
    Entropy,
}

impl View for ImportError {
    type V = ImportErrorView;

    open spec fn view(&self) -> ImportErrorView {
        match self {
            ImportError::NoTestset => ImportErrorView::NoTestset,
            ImportError::TimeLimitMissing => ImportErrorView::TimeLimitMissing,
            ImportError::TimeLimitInvalid(k) => ImportErrorView::TimeLimitInvalid(*k),
            ImportError::MemoryLimitMissing => ImportErrorView::MemoryLimitMissing,
            ImportError::MemoryLimitInvalid(k) => ImportErrorView::MemoryLimitInvalid(*k),
            ImportError::NameMissing => ImportErrorView::NameMissing,
            ImportError::SourcePathMissing => ImportErrorView::SourcePathMissing,
            ImportError::SourceTypeMissing => ImportErrorView::SourceTypeMissing,
            ImportError::UnknownFileType(t) => ImportErrorView::UnknownFileType(t@),
            ImportError::SolutionTagMissing => ImportErrorView::SolutionTagMissing,
            ImportError::Entropy => ImportErrorView::Entropy,
        }
    }
}

/// What a part of the import asks for: the actions to perform, in order,
/// and then whether the import goes on (`Ok`) or stops with an error.
#[derive(Debug)]
pub struct Plan {
    pub actions: Vec<Action>,
    pub outcome: Result<(), ImportError>,
}

impl View for Plan {
    type V = (Seq<ActionView>, Result<(), ImportErrorView>);

    open spec fn view(&self) -> (Seq<ActionView>, Result<(), ImportErrorView>) {
        (
            actions_view(self.actions@),
            match self.outcome {
                Ok(()) => Ok(()),
                Err(e) => Err(e@),
            },
        )
    }
}

/// State of an import: the manifest being filled in, the generators that
/// tests named so far, and the limits that tests get.
#[derive(Debug)]
pub struct Importer {
    pub problem_cfg: RawProblem,
    pub known_generators: Vec<String>,
    pub limits: Limits,
}

/// Texts of a list of strings.
pub open spec fn texts(v: Seq<String>) -> Seq<Seq<char>> {
    v.map_values(|s: String| s@)
}

fn owned(s: &str) -> (r: String)
    ensures
        r@ == s@,
{
    String::from_str(s)
}

fn concat(a: &str, b: &str) -> (r: String)
    ensures
        r@ == a@ + b@,
{
    let mut s = String::from_str(a);
    s.append(b);
    s
}

fn path1(a: &str) -> (r: Vec<String>)
    ensures
        path_view(r@) == seq![a@],
{
    let mut v: Vec<String> = Vec::new();
    v.push(owned(a));
    proof {
        assert(path_view(v@) =~= seq![a@]);
    }
    v
}

fn path2(a: &str, b: &str) -> (r: Vec<String>)
    ensures
        path_view(r@) == seq![a@, b@],
{
    let mut v: Vec<String> = Vec::new();
    v.push(owned(a));
    v.push(owned(b));
    proof {
        assert(path_view(v@) =~= seq![a@, b@]);
    }
    v
}

fn path3(a: &str, b: &str, c: &str) -> (r: Vec<String>)
    ensures
        path_view(r@) == seq![a@, b@, c@],
{
    let mut v: Vec<String> = Vec::new();
    v.push(owned(a));
    v.push(owned(b));
    v.push(owned(c));
    proof {
        assert(path_view(v@) =~= seq![a@, b@, c@]);
    }
    v
}

/// Appends `a` to `acts`.
fn push_action(acts: &mut Vec<Action>, a: Action)
    ensures
        actions_view(final(acts)@) == actions_view(old(acts)@).push(a@),
{
    let ghost a0 = acts@;
    acts.push(a);
    proof {
        assert(actions_view(acts@) =~= actions_view(a0).push(a@));
    }
}

/// A plan that does nothing and lets the import go on.
fn nothing() -> (r: Plan)
    ensures
        r@ == (Seq::<ActionView>::empty(), Ok::<(), ImportErrorView>(())),
{
    let r = Plan { actions: Vec::new(), outcome: Ok(()) };
    proof {
        assert(actions_view(r.actions@) =~= Seq::<ActionView>::empty());
    }
    r
}

/// A plan that stops the import with `e` and does nothing else.
fn failure(e: ImportError) -> (r: Plan)
    ensures
        r@ == (Seq::<ActionView>::empty(), Err::<(), ImportErrorView>(e@)),
{
    let r = Plan { actions: Vec::new(), outcome: Err(e) };
    proof {
        assert(actions_view(r.actions@) =~= Seq::<ActionView>::empty());
    }
    r
}

/// A plan that only reports `u`.
fn report(u: Update) -> (r: Plan)
    ensures
        r@ == (seq![ActionView::Send(u@)], Ok::<(), ImportErrorView>(())),
{
    let mut acts: Vec<Action> = Vec::new();
    let ghost uv = u@;
    push_action(&mut acts, Action::Send(u));
    proof {
        assert(actions_view(acts@) =~= seq![ActionView::Send(uv)]);
    }
    Plan { actions: acts, outcome: Ok(()) }
}

/// The directories that an import starts with, and the testlib header
/// copied into the destination.
pub open spec fn init_plan() -> Seq<ActionView> {
    seq![
        ActionView::CreateDir(seq!["solutions"@]),
        ActionView::CreateDir(seq!["generators"@]),
        ActionView::CreateDir(seq!["tests"@]),
        ActionView::CreateDir(seq!["modules"@]),
        ActionView::CreateDir(seq!["modules/checker"@]),
        ActionView::Copy("files/testlib.h"@, seq!["testlib.h"@]),
    ]
}

/// The fields of the manifest that every imported problem gets, whatever
/// its package says; the others are as in `old`.
pub open spec fn fixed_fields_set(old: RawProblem, new: RawProblem) -> bool {
    &&& new.valuer@ == "icpc"@
    &&& new.check_type@ == "builtin"@
    &&& new.builtin_check matches Some(b) && b.name@ == "polygon-compat"@
    &&& new.check_options matches Some(o) && texts(o.args@) == seq!["assets/module-checker/bin"@]
    &&& new.valuer_cfg matches Some(v) && v@ == "valuer.yaml"@
    &&& new.title == old.title
    &&& new.name == old.name
    &&& new.primary_solution == old.primary_solution
    &&& new.custom_check == old.custom_check
    &&& new.tests == old.tests
    &&& new.limits == old.limits
}

/// A lower-case hexadecimal digit.
pub open spec fn is_lower_hex(c: char) -> bool {
    ('0' <= c && c <= '9') || ('a' <= c && c <= 'f')
}

/// What became of a child of `<testset>`.
#[derive(Debug)]
pub enum TestsetStep {
    /// It was dealt with as the plan says.
    Done(Plan),
    /// It is the `<tests>` element, whose tests are to be imported next.
    Tests,
}

/// The plan for a limit whose element holds `text`: its value is reported
/// as the property `name`; a missing or unreadable value stops the import.
pub open spec fn limit_plan(
    name: PropertyName,
    text: Option<&str>,
    missing: ImportErrorView,
    invalid: ImportErrorView,
) -> (Seq<ActionView>, Result<(), ImportErrorView>) {
    match text {
        None => (seq![], Err(missing)),
        Some(t) => match spec_parse_u64(t@) {
            Err(e) => (seq![], Err(invalid)),
            Ok(v) => (seq![ActionView::Send(UpdateView::Property(name, decimal(v as nat)))], Ok(())),
        },
    }
}

/// The plan for a child of `<testset>` with tag `tag` and text `text`;
/// `None` for `<tests>`, whose tests are imported on their own.
pub open spec fn testset_plan(tag: Seq<char>, text: Option<&str>) -> Option<
    (Seq<ActionView>, Result<(), ImportErrorView>),
> {
    if tag == "time-limit"@ {
        Some(
            limit_plan(
                PropertyName::TimeLimit,
                text,
                ImportErrorView::TimeLimitMissing,
                match text {
                    Some(t) => match spec_parse_u64(t@) {
                        Err(e) => ImportErrorView::TimeLimitInvalid(e),
                        Ok(_) => ImportErrorView::TimeLimitMissing,
                    },
                    None => ImportErrorView::TimeLimitMissing,
                },
            ),
        )
    } else if tag == "memory-limit"@ {
        Some(
            limit_plan(
                PropertyName::MemoryLimit,
                text,
                ImportErrorView::MemoryLimitMissing,
                match text {
                    Some(t) => match spec_parse_u64(t@) {
                        Err(e) => ImportErrorView::MemoryLimitInvalid(e),
                        Ok(_) => ImportErrorView::MemoryLimitMissing,
                    },
                    None => ImportErrorView::MemoryLimitMissing,
                },
            ),
        )
    } else if tag == "input-path-pattern"@ {
        Some(
            (
                seq![ActionView::Send(UpdateView::Property(PropertyName::InputPathPattern, text->0@))],
                Ok(()),
            ),
        )
    } else if tag == "answer-path-pattern"@ {
        Some(
            (
                seq![ActionView::Send(UpdateView::Property(PropertyName::OutputPathPattern, text->0@))],
                Ok(()),
            ),
        )
    } else if tag == "test-count"@ {
        Some((seq![], Ok(())))
    } else if tag == "tests"@ {
        None
    } else {
        Some(
            (
                seq![ActionView::Send(UpdateView::Warning("unexpected tag in <problem><judging><testset>: "@ + tag))],
                Ok(()),
            ),
        )
    }
}

/// The limits after a child of `<testset>`: a readable time or memory
/// limit replaces the old one.
pub open spec fn testset_limits(tag: Seq<char>, text: Option<&str>, old: Limits) -> Limits {
    match text {
        Some(t) => match spec_parse_u64(t@) {
            Ok(v) => if tag == "time-limit"@ {
                Limits { time: Some(v), ..old }
            } else if tag == "memory-limit"@ {
                Limits { memory: Some(v), ..old }
            } else {
                old
            },
            Err(_) => old,
        },
        None => old,
    }
}

/// A `<test>` element: its `group`, `method` and `cmd` attributes.
#[derive(Debug, Clone)]
pub struct TestNode {
    pub group: Option<String>,
    pub method: String,
    pub cmd: Option<String>,
}

/// The test is produced by a generator.
pub open spec fn is_generated(t: TestNode) -> bool {
    t.method@ == "generated"@
}

/// The generator command of a generated test, as words.
pub open spec fn test_command(t: TestNode) -> Seq<Seq<char>> {
    words(t.cmd->0@)
}

/// The test is generated by the program named `x`.
pub open spec fn names_generator(t: TestNode, x: Seq<char>) -> bool {
    is_generated(t) && test_command(t)[0] == x
}

/// The group a test is put in: `g` and its `group` attribute, or
/// `gdefault` without one.
pub open spec fn group_of(t: TestNode) -> Seq<char> {
    "g"@ + match t.group {
        Some(g) => g@,
        None => "default"@,
    }
}

/// Where the package keeps the data of test `id`.
pub open spec fn test_source(id: nat) -> Seq<char> {
    "tests/"@ + pad2(decimal(id))
}

/// Where the imported problem keeps the data of test `id`.
pub open spec fn test_dest(id: nat) -> Seq<char> {
    "tests/"@ + pad2(decimal(id)) + ".txt"@
}

/// `b` is the manifest block of test `t`, the `id`-th of its `<tests>`,
/// under `limits`.
pub open spec fn test_block(b: RawTestsSpec, t: TestNode, id: nat, limits: Limits) -> bool {
    &&& b.map@ == decimal(id)
    &&& b.limits == limits
    &&& b.group@ == group_of(t)
    &&& if is_generated(t) {
        &&& b.testgen matches Some(v) && texts(v@) == test_command(t)
        &&& b.files is None
    } else {
        &&& b.testgen is None
        &&& b.files matches Some(f) && f@ == "%02d.txt"@
    }
}

/// The copies that the first `n` tests of `ts` ask for: the data of each
/// test that is not generated.
pub open spec fn tests_actions(ts: Seq<TestNode>, n: int) -> Seq<ActionView>
    decreases n,
{
    if n <= 0 {
        seq![]
    } else {
        tests_actions(ts, n - 1) + if is_generated(ts[n - 1]) {
            seq![]
        } else {
            seq![ActionView::Copy(test_source(n as nat), seq![test_dest(n as nat)])]
        }
    }
}

/// Every field of the manifest but its tests is the same in `a` and `b`.
pub open spec fn same_but_tests(a: RawProblem, b: RawProblem) -> bool {
    &&& a.title == b.title
    &&& a.name == b.name
    &&& a.random_seed == b.random_seed
    &&& a.primary_solution == b.primary_solution
    &&& a.check_type == b.check_type
    &&& a.valuer == b.valuer
    &&& a.custom_check == b.custom_check
    &&& a.builtin_check == b.builtin_check
    &&& a.check_options == b.check_options
    &&& a.valuer_cfg == b.valuer_cfg
    &&& a.limits == b.limits
}

/// Whether `v` holds a string with the characters of `s`.
fn contains_text(v: &Vec<String>, s: &str) -> (r: bool)
    ensures
        r == texts(v@).contains(s@),
{
    let mut i: usize = 0;
    while i < v.len()
        invariant
            0 <= i <= v@.len(),
            forall|k: int| 0 <= k < i ==> v@[k]@ != s@,
        decreases v@.len() - i,
    {
        if str_eq(v[i].as_str(), s) {
            proof {
                assert(texts(v@)[i as int] == s@);
            }
            return true;
        }
        i = i + 1;
    }
    proof {
        if texts(v@).contains(s@) {
            let k = choose|k: int| 0 <= k < texts(v@).len() && texts(v@)[k] == s@;
            assert(v@[k]@ == s@);
        }
    }
    false
}

/// The stem of a package file: the part of its name before the first
/// `.`, once the leading `files/` (repeated or not) is gone. Files outside
/// `files/` and names without a `.` have none.
pub open spec fn file_stem(fp: Seq<char>) -> Option<Seq<char>> {
    if !("files/"@.len() <= fp.len() && fp.subrange(0, "files/"@.len() as int) == "files/"@) {
        None
    } else {
        let name = trim_start_all(fp, "files/"@);
        match first_occurrence(name, seq!['.'], 0) {
            None => None,
            Some(p) => Some(name.take(p)),
        }
    }
}

/// What a package file with stem `stem` is: by its name, or else a
/// generator when a test named it.
pub open spec fn file_category(known: Seq<Seq<char>>, stem: Seq<char>) -> Option<FileCategory> {
    match spec_category(stem) {
        Some(c) => Some(c),
        None => if known.contains(stem) {
            Some(FileCategory::Generator)
        } else {
            None
        },
    }
}

/// The extension a generator's source gets, by its file type: `cpp` for
/// any `cpp.g++` type, `py` for `python.3`.
pub open spec fn generator_extension(ft: Seq<char>) -> Option<Seq<char>> {
    if "cpp.g++"@.len() <= ft.len() && ft.subrange(0, "cpp.g++"@.len() as int) == "cpp.g++"@ {
        Some("cpp"@)
    } else if ft == "python.3"@ {
        Some("py"@)
    } else {
        None
    }
}

/// The plan for a package file at `fp` of type `ft`, when the generators
/// in `known` are known: a generator's directory is made and its source
/// copied (a C++ one also gets a CMake file); a validator is warned about;
/// a checker is left for `<checker>`; a file of no known kind is warned
/// about.
pub open spec fn file_plan(known: Seq<Seq<char>>, fp: Seq<char>, ft: Seq<char>) -> (
    Seq<ActionView>,
    Result<(), ImportErrorView>,
) {
    match file_stem(fp) {
        None => (seq![], Ok(())),
        Some(stem) => match file_category(known, stem) {
            None => (
                seq![
                    ActionView::Send(
                        UpdateView::Warning("couldn't derive file category (stripped name: "@ + stem + ")"@),
                    ),
                ],
                Ok(()),
            ),
            Some(FileCategory::Validator) => (
                seq![ActionView::Send(UpdateView::Warning("ignoring validators: not yet implemented"@))],
                Ok(()),
            ),
            Some(FileCategory::Checker) => (seq![], Ok(())),
            Some(FileCategory::Generator) => {
                let dir = seq!["generators"@, stem];
                match generator_extension(ft) {
                    None => (seq![ActionView::CreateDir(dir)], Err(ImportErrorView::UnknownFileType(ft))),
                    Some(ext) => (
                        seq![ActionView::CreateDir(dir), ActionView::Copy(fp, dir.push("main."@ + ext))] + if ext
                            == "cpp"@ {
                            seq![ActionView::WriteCheckerCmake(dir.push("CMakeLists.txt"@))]
                        } else {
                            seq![]
                        },
                        Ok(()),
                    ),
                }
            },
        },
    }
}

/// The plan for the checker's sources at `paths`: each is copied as the
/// checker's source, with its CMake file.
pub open spec fn checker_actions(paths: Seq<Seq<char>>) -> Seq<ActionView>
    decreases paths.len(),
{
    if paths.len() == 0 {
        seq![]
    } else {
        checker_actions(paths.drop_last()) + seq![
            ActionView::Copy(paths.last(), seq!["modules/checker/main.cpp"@]),
            ActionView::WriteCheckerCmake(seq!["modules/checker/CMakeLists.txt"@]),
        ]
    }
}

/// A `<solution>` element: its `tag` attribute and the `path` of its last
/// `<source>` child.
#[derive(Debug, Clone)]
pub struct SolutionNode {
    pub tag: Option<String>,
    pub source: Option<String>,
}

/// The solution is the main one.
pub open spec fn is_main(s: SolutionNode) -> bool {
    s.tag matches Some(t) && t@ == "main"@
}

/// The plan for one tagged solution: the main one is copied with its CMake
/// file, any other is skipped with a warning.
pub open spec fn solution_actions(s: SolutionNode) -> Seq<ActionView> {
    if is_main(s) {
        seq![
            ActionView::Send(UpdateView::ImportSolution("main"@)),
            ActionView::CreateDirAll(seq!["solutions/main"@]),
            ActionView::Copy(s.source->0@, seq!["solutions/main/main.cpp"@]),
            ActionView::WriteSolutionCmake(seq!["solutions/main"@, "CMakeLists.txt"@]),
        ]
    } else {
        seq![
            ActionView::Send(
                UpdateView::Warning(
                    "skipping solution with tag "@ + s.tag->0@ + ": importing non-main solutions not yet implemented"@,
                ),
            ),
        ]
    }
}

/// The plans of the first `n` solutions, one after another.
pub open spec fn solutions_actions(sols: Seq<SolutionNode>, n: int) -> Seq<ActionView>
    decreases n,
{
    if n <= 0 {
        seq![]
    } else {
        solutions_actions(sols, n - 1) + solution_actions(sols[n - 1])
    }
}

/// How many solutions come before the first one without a tag (all of
/// them when every one has a tag).
pub open spec fn tagged_prefix(sols: Seq<SolutionNode>) -> int {
    if exists|k: int| 0 <= k < sols.len() && (#[trigger] sols[k]).tag is None {
        choose|k: int|
            0 <= k < sols.len() && (#[trigger] sols[k]).tag is None && forall|j: int|
                0 <= j < k ==> (#[trigger] sols[j]).tag is Some
    } else {
        sols.len() as int
    }
}

/// Which part of an import `problem.xml`'s element with tag `tag` is.
#[derive(Debug, Clone, Copy, PartialEq, Eq, Structural)]
pub enum Section {
    Names,
    Solutions,
    Judging,
    Executable,
    Checker,
    Problem,
    /// Any other element, whose children are looked at in turn.
    Other,
}

/// The section an element with tag `tag` starts.
pub open spec fn spec_section(tag: Seq<char>) -> Section {
    if tag == "names"@ {
        Section::Names
    } else if tag == "solutions"@ {
        Section::Solutions
    } else if tag == "judging"@ {
        Section::Judging
    } else if tag == "executable"@ {
        Section::Executable
    } else if tag == "checker"@ {
        Section::Checker
    } else if tag == "problem"@ {
        Section::Problem
    } else {
        Section::Other
    }
}

impl Importer {
    /// The state an import starts in: a blank manifest, no generators
    /// known, and the default limits.
    pub fn new() -> (r: Importer)
        ensures
            r.problem_cfg.is_blank(),
            r.known_generators@.len() == 0,
            r.limits == crate::pom::default_limits(),
    {
        Importer { problem_cfg: RawProblem::default(), known_generators: Vec::new(), limits: Limits::default() }
    }

    /// The directories an import makes first, and the testlib header it
    /// copies.
    pub fn init_dirs() -> (r: Vec<Action>)
        ensures
            actions_view(r@) == init_plan(),
    {
        let mut acts: Vec<Action> = Vec::new();
        push_action(&mut acts, Action::CreateDir(path1("solutions")));
        push_action(&mut acts, Action::CreateDir(path1("generators")));
        push_action(&mut acts, Action::CreateDir(path1("tests")));
        push_action(&mut acts, Action::CreateDir(path1("modules")));
        push_action(&mut acts, Action::CreateDir(path1("modules/checker")));
        push_action(&mut acts, Action::Copy { from: owned("files/testlib.h"), to: path1("testlib.h") });
        proof {
            assert(actions_view(acts@) =~= init_plan());
        }
        acts
    }

    fn set_fixed_fields(&mut self)
        ensures
            fixed_fields_set(old(self).problem_cfg, final(self).problem_cfg),
            final(self).problem_cfg.random_seed == old(self).problem_cfg.random_seed,
            final(self).known_generators == old(self).known_generators,
            final(self).limits == old(self).limits,
    {
        self.problem_cfg.valuer = owned("icpc");
        self.problem_cfg.check_type = owned("builtin");
        self.problem_cfg.builtin_check = Some(BuiltinCheck { name: owned("polygon-compat") });
        let mut args: Vec<String> = Vec::new();
        args.push(owned("assets/module-checker/bin"));
        proof {
            assert(texts(args@) =~= seq!["assets/module-checker/bin"@]);
        }
        self.problem_cfg.check_options = Some(CheckOptions { args });
        self.problem_cfg.valuer_cfg = Some(owned("valuer.yaml"));
    }

    /// Fills in the manifest fields that every imported problem gets, with
    /// `seed` written in hexadecimal as its random seed.
    pub fn fill_manifest_with(&mut self, seed: [u8; 8])
        ensures
            fixed_fields_set(old(self).problem_cfg, final(self).problem_cfg),
            final(self).problem_cfg.random_seed matches Some(h) && h@ == hex_of(seed@),
            final(self).known_generators == old(self).known_generators,
            final(self).limits == old(self).limits,
    {
        self.set_fixed_fields();
        let h = hex_string(&seed);
        self.problem_cfg.random_seed = Some(h);
    }

    /// Fills in the manifest fields that every imported problem gets, with
    /// sixteen random hexadecimal digits as its random seed. When the
    /// system gives no random bytes, the fixed fields are still filled in
    /// and the seed is left as it was.
    pub fn fill_manifest(&mut self) -> (r: Result<(), ImportError>)
        ensures
            fixed_fields_set(old(self).problem_cfg, final(self).problem_cfg),
            r is Ok ==> (final(self).problem_cfg.random_seed matches Some(h) && h@.len() == 16 && forall|i: int|
                0 <= i < 16 ==> is_lower_hex(#[trigger] h@[i])),
            r is Err ==> r == Err::<(), ImportError>(ImportError::Entropy) && final(self).problem_cfg.random_seed
                == old(self).problem_cfg.random_seed,
            final(self).known_generators == old(self).known_generators,
            final(self).limits == old(self).limits,
    {
        self.set_fixed_fields();
        let mut seed: Vec<u8> = Vec::new();
        let mut k: usize = 0;
        while k < 8
            invariant
                k <= 8,
                seed@.len() == k,
            decreases 8 - k,
        {
            seed.push(0);
            k = k + 1;
        }
        if fill_random(&mut seed) {
            let h = hex_string(seed.as_slice());
            proof {
                lemma_hex_digits(seed@);
            }
            self.problem_cfg.random_seed = Some(h);
            Ok(())
        } else {
            Err(ImportError::Entropy)
        }
    }

    /// Takes the problem's short name, when the `<problem>` element has one.
    pub fn process_problem(&mut self, short_name: Option<&str>)
        ensures
            match short_name {
                Some(n) => final(self).problem_cfg.name@ == n@,
                None => final(self).problem_cfg.name == old(self).problem_cfg.name,
            },
            final(self).problem_cfg.title == old(self).problem_cfg.title,
            final(self).problem_cfg.tests == old(self).problem_cfg.tests,
            final(self).problem_cfg.primary_solution == old(self).problem_cfg.primary_solution,
            final(self).known_generators == old(self).known_generators,
            final(self).limits == old(self).limits,
    {
        if let Some(n) = short_name {
            self.problem_cfg.name = owned(n);
        }
    }

    /// The `<names>` section: the `value` of its first element is the
    /// problem's title (`first_value` is `None` when there is no element,
    /// `Some(None)` when the element has no `value`).
    pub fn process_names(&mut self, first_value: Option<Option<&str>>) -> (r: Plan)
        ensures
            match first_value {
                None => r@ == (Seq::<ActionView>::empty(), Ok::<(), ImportErrorView>(()))
                    && final(self).problem_cfg.title == old(self).problem_cfg.title,
                Some(None) => r@ == (Seq::<ActionView>::empty(), Err::<(), ImportErrorView>(
                    ImportErrorView::NameMissing,
                )) && final(self).problem_cfg.title == old(self).problem_cfg.title,
                Some(Some(v)) => r@ == (
                    seq![ActionView::Send(UpdateView::Property(PropertyName::ProblemTitle, v@))],
                    Ok::<(), ImportErrorView>(()),
                ) && final(self).problem_cfg.title@ == v@,
            },
            final(self).problem_cfg.name == old(self).problem_cfg.name,
            final(self).problem_cfg.tests == old(self).problem_cfg.tests,
            final(self).problem_cfg.primary_solution == old(self).problem_cfg.primary_solution,
            final(self).known_generators == old(self).known_generators,
            final(self).limits == old(self).limits,
    {
        match first_value {
            None => nothing(),
            Some(None) => failure(ImportError::NameMissing),
            Some(Some(v)) => {
                self.problem_cfg.title = owned(v);
                report(Update::Property { property_name: PropertyName::ProblemTitle, property_value: owned(v) })
            },
        }
    }

    /// The first element child of `<judging>` must be there (it is the
    /// `<testset>`).
    pub fn check_testset(first_child: Option<&str>) -> (r: Result<(), ImportError>)
        ensures
            r is Ok <==> first_child is Some,
            r is Err ==> r == Err::<(), ImportError>(ImportError::NoTestset),
    {
        match first_child {
            Some(_) => Ok(()),
            None => Err(ImportError::NoTestset),
        }
    }

    /// A child of `<testset>` with tag `tag` and text `text`: limits are
    /// read and reported, path patterns reported, the test count ignored,
    /// `<tests>` handed back, and anything else warned about.
    pub fn testset_item(&mut self, tag: &str, text: Option<&str>) -> (r: TestsetStep)
        requires
            tag@ == "input-path-pattern"@ || tag@ == "answer-path-pattern"@ ==> text is Some,
        ensures
            match r {
                TestsetStep::Tests => testset_plan(tag@, text) is None,
                TestsetStep::Done(p) => testset_plan(tag@, text) == Some(p@),
            },
            final(self).limits == testset_limits(tag@, text, old(self).limits),
            final(self).problem_cfg == old(self).problem_cfg,
            final(self).known_generators == old(self).known_generators,
    {
        let is_time = str_eq(tag, "time-limit");
        let is_memory = str_eq(tag, "memory-limit");
        if is_time || is_memory {
            let t = match text {
                None => {
                    return TestsetStep::Done(
                        failure(
                            if is_time {
                                ImportError::TimeLimitMissing
                            } else {
                                ImportError::MemoryLimitMissing
                            },
                        ),
                    );
                },
                Some(t) => t,
            };
            match parse_u64(t) {
                Err(e) => {
                    return TestsetStep::Done(
                        failure(
                            if is_time {
                                ImportError::TimeLimitInvalid(e)
                            } else {
                                ImportError::MemoryLimitInvalid(e)
                            },
                        ),
                    );
                },
                Ok(v) => {
                    let name = if is_time {
                        self.limits.time = Some(v);
                        PropertyName::TimeLimit
                    } else {
                        self.limits.memory = Some(v);
                        PropertyName::MemoryLimit
                    };
                    return TestsetStep::Done(
                        report(Update::Property { property_name: name, property_value: decimal_string(v) }),
                    );
                },
            }
        }
        if str_eq(tag, "input-path-pattern") {
            let t = text.unwrap();
            return TestsetStep::Done(
                report(Update::Property { property_name: PropertyName::InputPathPattern, property_value: owned(t) }),
            );
        }
        if str_eq(tag, "answer-path-pattern") {
            let t = text.unwrap();
            return TestsetStep::Done(
                report(Update::Property { property_name: PropertyName::OutputPathPattern, property_value: owned(t) }),
            );
        }
        if str_eq(tag, "test-count") {
            return TestsetStep::Done(nothing());
        }
        if str_eq(tag, "tests") {
            return TestsetStep::Tests;
        }
        TestsetStep::Done(report(Update::Warning(concat("unexpected tag in <problem><judging><testset>: ", tag))))
    }

    /// Adds a generator name to the known ones, once.
    fn know_generator(&mut self, name: &str)
        ensures
            forall|x: Seq<char>| #[trigger] texts(final(self).known_generators@).contains(x) <==> (texts(
                old(self).known_generators@,
            ).contains(x) || x == name@),
            final(self).problem_cfg == old(self).problem_cfg,
            final(self).limits == old(self).limits,
    {
        if !contains_text(&self.known_generators, name) {
            let ghost g0 = self.known_generators@;
            self.known_generators.push(owned(name));
            proof {
                let t1 = texts(self.known_generators@);
                let t0 = texts(g0);
                assert(t1 =~= t0.push(name@));
                assert forall|x: Seq<char>| #[trigger] t1.contains(x) <==> (t0.contains(x) || x == name@) by {
                    if t0.contains(x) {
                        let k = choose|k: int| 0 <= k < t0.len() && t0[k] == x;
                        assert(t1[k] == x);
                    }
                    if x == name@ {
                        assert(t1[t0.len() as int] == x);
                    }
                    if t1.contains(x) {
                        let k = choose|k: int| 0 <= k < t1.len() && t1[k] == x;
                        if k < t0.len() {
                            assert(t0[k] == x);
                        }
                    }
                }
            }
        }
    }

    /// The `<tests>` element, given as its `<test>` children: each test
    /// becomes a block of the manifest, numbered from one; a generated test
    /// names its generator, which becomes known, and the data of any other
    /// test is copied.
    pub fn process_tests(&mut self, tests: &Vec<TestNode>) -> (r: Vec<Action>)
        requires
            forall|k: int|
                0 <= k < tests@.len() && is_generated(#[trigger] tests@[k]) ==> tests@[k].cmd is Some
                    && words(tests@[k].cmd->0@).len() > 0,
        ensures
            actions_view(r@) == seq![ActionView::Send(UpdateView::ImportTests)] + tests_actions(
                tests@,
                tests@.len() as int,
            ) + seq![ActionView::Send(UpdateView::ImportTestsDone(tests@.len() as usize))],
            final(self).problem_cfg.tests@.len() == old(self).problem_cfg.tests@.len() + tests@.len(),
            forall|i: int|
                0 <= i < old(self).problem_cfg.tests@.len() ==> #[trigger] final(self).problem_cfg.tests@[i]
                    == old(self).problem_cfg.tests@[i],
            forall|k: int|
                0 <= k < tests@.len() ==> test_block(
                    #[trigger] final(self).problem_cfg.tests@[old(self).problem_cfg.tests@.len() + k],
                    tests@[k],
                    (k + 1) as nat,
                    old(self).limits,
                ),
            forall|x: Seq<char>| #[trigger] texts(final(self).known_generators@).contains(x) <==> (texts(
                old(self).known_generators@,
            ).contains(x) || exists|k: int| 0 <= k < tests@.len() && #[trigger] names_generator(tests@[k], x)),
            same_but_tests(old(self).problem_cfg, final(self).problem_cfg),
            final(self).limits == old(self).limits,
    {
        let ghost old_self = *self;
        let base = self.problem_cfg.tests.len();
        let mut acts: Vec<Action> = Vec::new();
        push_action(&mut acts, Action::Send(Update::ImportTests));
        let mut i: usize = 0;
        while i < tests.len()
            invariant
                0 <= i <= tests@.len(),
                forall|k: int|
                    0 <= k < tests@.len() && is_generated(#[trigger] tests@[k]) ==> tests@[k].cmd is Some
                        && words(tests@[k].cmd->0@).len() > 0,
                base == old_self.problem_cfg.tests@.len(),
                actions_view(acts@) == seq![ActionView::Send(UpdateView::ImportTests)] + tests_actions(
                    tests@,
                    i as int,
                ),
                self.problem_cfg.tests@.len() == base + i,
                forall|j: int|
                    0 <= j < base ==> #[trigger] self.problem_cfg.tests@[j] == old_self.problem_cfg.tests@[j],
                forall|k: int|
                    0 <= k < i ==> test_block(
                        #[trigger] self.problem_cfg.tests@[base + k],
                        tests@[k],
                        (k + 1) as nat,
                        old_self.limits,
                    ),
                forall|x: Seq<char>| #[trigger] texts(self.known_generators@).contains(x) <==> (texts(
                    old_self.known_generators@,
                ).contains(x) || exists|k: int| 0 <= k < i && #[trigger] names_generator(tests@[k], x)),
                same_but_tests(old_self.problem_cfg, self.problem_cfg),
                self.limits == old_self.limits,
            decreases tests@.len() - i,
        {
            let t = &tests[i];
            let cnt = i + 1;
            let map = decimal_string(cnt as u64);
            let group = match &t.group {
                Some(g) => concat("g", g.as_str()),
                None => concat("g", "default"),
            };
            let ghost a0 = actions_view(acts@);
            let ghost g0 = self.known_generators@;
            let generated = str_eq(t.method.as_str(), "generated");
            let block = if generated {
                let cmd = split_whitespace(t.cmd.as_ref().unwrap().as_str());
                proof {
                    assert(tests@[i as int] == *t);
                }
                self.know_generator(cmd[0].as_str());
                proof {
                    assert forall|x: Seq<char>| #[trigger] texts(self.known_generators@).contains(x) <==> (texts(
                        old_self.known_generators@,
                    ).contains(x) || exists|k: int| 0 <= k < i + 1 && #[trigger] names_generator(tests@[k], x)) by {
                        if x == cmd@[0]@ {
                            assert(names_generator(tests@[i as int], x));
                        }
                        if exists|k: int| 0 <= k < i + 1 && #[trigger] names_generator(tests@[k], x) {
                            let k = choose|k: int| 0 <= k < i + 1 && #[trigger] names_generator(tests@[k], x);
                            if k == i {
                                assert(x == cmd@[0]@);
                            } else {
                                assert(exists|k: int| 0 <= k < i && #[trigger] names_generator(tests@[k], x));
                            }
                        }
                    }
                    assert(tests_actions(tests@, i + 1) =~= tests_actions(tests@, i as int));
                }
                RawTestsSpec { map, testgen: Some(cmd), files: None, limits: self.limits, group }
            } else {
                let num = pad2_string(decimal_string(cnt as u64).as_str());
                let from = concat("tests/", num.as_str());
                let to_name = concat(from.as_str(), ".txt");
                let to = path1(to_name.as_str());
                push_action(&mut acts, Action::Copy { from, to });
                proof {
                    assert(forall|x: Seq<char>| !names_generator(tests@[i as int], x));
                    assert forall|x: Seq<char>| #[trigger] texts(self.known_generators@).contains(x) <==> (texts(
                        old_self.known_generators@,
                    ).contains(x) || exists|k: int| 0 <= k < i + 1 && #[trigger] names_generator(tests@[k], x)) by {
                        if exists|k: int| 0 <= k < i + 1 && #[trigger] names_generator(tests@[k], x) {
                            let k = choose|k: int| 0 <= k < i + 1 && #[trigger] names_generator(tests@[k], x);
                            assert(k != i);
                            assert(exists|k: int| 0 <= k < i && #[trigger] names_generator(tests@[k], x));
                        }
                    }
                    assert(tests_actions(tests@, i + 1) =~= tests_actions(tests@, i as int) + seq![
                        ActionView::Copy(test_source(cnt as nat), seq![test_dest(cnt as nat)]),
                    ]);
                    assert(actions_view(acts@) =~= seq![ActionView::Send(UpdateView::ImportTests)] + tests_actions(
                        tests@,
                        i + 1,
                    ));
                }
                RawTestsSpec { map, testgen: None, files: Some(owned("%02d.txt")), limits: self.limits, group }
            };
            let ghost ts0 = self.problem_cfg.tests@;
            self.problem_cfg.tests.push(block);
            proof {
                assert(self.problem_cfg.tests@ == ts0.push(block));
                assert(self.problem_cfg.tests@[base + i] == block);
                assert(test_block(block, tests@[i as int], cnt as nat, old_self.limits));
            }
            i = i + 1;
        }
        let n = tests.len();
        push_action(&mut acts, Action::Send(Update::ImportTestsDone { count: n }));
        acts
    }

    /// A package file at `file_path` of type `file_type` (see
    /// [`file_plan`]).
    pub fn process_file(&mut self, file_path: &str, file_type: &str) -> (r: Plan)
        ensures
            r@ == file_plan(texts(old(self).known_generators@), file_path@, file_type@),
            final(self).problem_cfg == old(self).problem_cfg,
            final(self).known_generators == old(self).known_generators,
            final(self).limits == old(self).limits,
    {
        if !starts_with(file_path, "files/") {
            return nothing();
        }
        let cs = chars_of(file_path);
        let prefix = chars_of("files/");
        let name = trim_start_all_chars(&cs, &prefix);
        let mut dot: Vec<char> = Vec::new();
        dot.push('.');
        proof {
            assert(dot@ =~= seq!['.']);
        }
        let pos = match find_from(&name, &dot, 0) {
            None => {
                return nothing();
            },
            Some(p) => p,
        };
        proof {
            lemma_first_occurrence(name@, dot@, 0);
        }
        let name_len = name.len();
        let stem = string_of_range(&name, 0, pos);
        proof {
            assert(name@.subrange(0, pos as int) =~= name@.take(pos as int));
            let fo = first_occurrence(name@, dot@, 0);
            if fo is None {
                assert(false);
            }
            assert(occurs_at(name@, dot@, fo->0));
            assert(0 <= fo->0 < name_len);
            assert(fo->0 as usize == pos);
            assert(dot@ =~= seq!['.']);
            assert(first_occurrence(name@, dot@, 0) == Some(pos as int));
            assert(first_occurrence(name@, seq!['.'], 0) == Some(pos as int));
            assert(file_stem(file_path@) == Some(stem@));
        }
        let category = match FileCategory::derive(stem.as_str()) {
            Some(c) => c,
            None => {
                if contains_text(&self.known_generators, stem.as_str()) {
                    FileCategory::Generator
                } else {
                    let m1 = concat("couldn't derive file category (stripped name: ", stem.as_str());
                    let m = concat(m1.as_str(), ")");
                    return report(Update::Warning(m));
                }
            },
        };
        match category {
            FileCategory::Validator => report(Update::Warning(owned("ignoring validators: not yet implemented"))),
            FileCategory::Checker => nothing(),
            FileCategory::Generator => {
                let mut acts: Vec<Action> = Vec::new();
                push_action(&mut acts, Action::CreateDir(path2("generators", stem.as_str())));
                let is_cpp = starts_with(file_type, "cpp.g++");
                let is_py = str_eq(file_type, "python.3");
                if !is_cpp && !is_py {
                    proof {
                        assert(actions_view(acts@) =~= seq![ActionView::CreateDir(seq!["generators"@, stem@])]);
                    }
                    return Plan { actions: acts, outcome: Err(ImportError::UnknownFileType(owned(file_type))) };
                }
                let main_name = if is_cpp {
                    owned("main.cpp")
                } else {
                    owned("main.py")
                };
                proof {
                    reveal_strlit("main.cpp");
                    reveal_strlit("main.py");
                    reveal_strlit("main.");
                    reveal_strlit("cpp");
                    reveal_strlit("py");
                    assert("main.cpp"@ =~= "main."@ + "cpp"@);
                    assert("main.py"@ =~= "main."@ + "py"@);
                    assert("cpp"@ != "py"@);
                }
                push_action(
                    &mut acts,
                    Action::Copy { from: owned(file_path), to: path3("generators", stem.as_str(), main_name.as_str()) },
                );
                if is_cpp {
                    push_action(
                        &mut acts,
                        Action::WriteCheckerCmake(path3("generators", stem.as_str(), "CMakeLists.txt")),
                    );
                }
                proof {
                    let dir = seq!["generators"@, stem@];
                    assert(seq!["generators"@, stem@, main_name@] =~= dir.push(main_name@));
                    assert(seq!["generators"@, stem@, "CMakeLists.txt"@] =~= dir.push("CMakeLists.txt"@));
                    if is_cpp {
                        assert(actions_view(acts@) =~= seq![
                            ActionView::CreateDir(dir),
                            ActionView::Copy(file_path@, dir.push("main."@ + "cpp"@)),
                        ] + seq![ActionView::WriteCheckerCmake(dir.push("CMakeLists.txt"@))]);
                    } else {
                        assert(actions_view(acts@) =~= seq![
                            ActionView::CreateDir(dir),
                            ActionView::Copy(file_path@, dir.push("main."@ + "py"@)),
                        ] + Seq::<ActionView>::empty());
                    }
                }
                Plan { actions: acts, outcome: Ok(()) }
            },
        }
    }

    /// A `<source>` of an `<executable>`, with its `path` and `type`
    /// attributes: both must be there, and the file is then processed.
    pub fn process_source(&mut self, path: Option<&str>, file_type: Option<&str>) -> (r: Plan)
        ensures
            match (path, file_type) {
                (None, _) => r@ == (Seq::<ActionView>::empty(), Err::<(), ImportErrorView>(
                    ImportErrorView::SourcePathMissing,
                )),
                (Some(_), None) => r@ == (Seq::<ActionView>::empty(), Err::<(), ImportErrorView>(
                    ImportErrorView::SourceTypeMissing,
                )),
                (Some(p), Some(t)) => r@ == file_plan(texts(old(self).known_generators@), p@, t@),
            },
            final(self).problem_cfg == old(self).problem_cfg,
            final(self).known_generators == old(self).known_generators,
            final(self).limits == old(self).limits,
    {
        match path {
            None => failure(ImportError::SourcePathMissing),
            Some(p) => match file_type {
                None => failure(ImportError::SourceTypeMissing),
                Some(t) => self.process_file(p, t),
            },
        }
    }

    /// The `<checker>` element, given as the paths of its `<source>`
    /// children: each is copied as the checker's source, with its CMake
    /// file.
    pub fn process_checker(sources: &Vec<String>) -> (r: Vec<Action>)
        ensures
            actions_view(r@) == seq![ActionView::Send(UpdateView::ImportChecker)] + checker_actions(texts(sources@)),
    {
        let mut acts: Vec<Action> = Vec::new();
        push_action(&mut acts, Action::Send(Update::ImportChecker));
        let mut i: usize = 0;
        while i < sources.len()
            invariant
                0 <= i <= sources@.len(),
                actions_view(acts@) == seq![ActionView::Send(UpdateView::ImportChecker)] + checker_actions(
                    texts(sources@).take(i as int),
                ),
            decreases sources@.len() - i,
        {
            let ghost a0 = actions_view(acts@);
            push_action(&mut acts, Action::Copy { from: owned(sources[i].as_str()), to: path1("modules/checker/main.cpp") });
            push_action(&mut acts, Action::WriteCheckerCmake(path1("modules/checker/CMakeLists.txt")));
            proof {
                let t = texts(sources@);
                assert(t.take(i + 1).drop_last() =~= t.take(i as int));
                assert(t.take(i + 1).last() == sources@[i as int]@);
                assert(actions_view(acts@) =~= seq![ActionView::Send(UpdateView::ImportChecker)] + checker_actions(
                    t.take(i + 1),
                ));
            }
            i = i + 1;
        }
        proof {
            assert(texts(sources@).take(sources@.len() as int) =~= texts(sources@));
        }
        acts
    }

    /// The `<solutions>` element, given as its `<solution>` children: each
    /// solution needs a tag, and the import stops at the first without
    /// one; the main solution becomes the primary one and is copied, the
    /// others are skipped with a warning.
    pub fn process_solutions(&mut self, solutions: &Vec<SolutionNode>) -> (r: Plan)
        requires
            forall|k: int| 0 <= k < solutions@.len() && is_main(#[trigger] solutions@[k]) ==> solutions@[k].source is Some,
        ensures
            ({
                let n = tagged_prefix(solutions@);
                &&& r@.0 == seq![ActionView::Send(UpdateView::ImportSolutions)] + solutions_actions(solutions@, n)
                &&& r@.1 == if n < solutions@.len() {
                    Err::<(), ImportErrorView>(ImportErrorView::SolutionTagMissing)
                } else {
                    Ok::<(), ImportErrorView>(())
                }
                &&& if exists|k: int| 0 <= k < n && is_main(#[trigger] solutions@[k]) {
                    final(self).problem_cfg.primary_solution matches Some(p) && p@ == "main"@
                } else {
                    final(self).problem_cfg.primary_solution == old(self).problem_cfg.primary_solution
                }
            }),
            final(self).problem_cfg.title == old(self).problem_cfg.title,
            final(self).problem_cfg.name == old(self).problem_cfg.name,
            final(self).problem_cfg.tests == old(self).problem_cfg.tests,
            final(self).known_generators == old(self).known_generators,
            final(self).limits == old(self).limits,
    {
        let ghost old_self = *self;
        let mut acts: Vec<Action> = Vec::new();
        push_action(&mut acts, Action::Send(Update::ImportSolutions));
        let mut i: usize = 0;
        while i < solutions.len()
            invariant
                0 <= i <= solutions@.len(),
                old_self == *old(self),
                forall|k: int|
                    0 <= k < solutions@.len() && is_main(#[trigger] solutions@[k]) ==> solutions@[k].source is Some,
                forall|k: int| 0 <= k < i ==> (#[trigger] solutions@[k]).tag is Some,
                actions_view(acts@) == seq![ActionView::Send(UpdateView::ImportSolutions)] + solutions_actions(
                    solutions@,
                    i as int,
                ),
                if exists|k: int| 0 <= k < i && is_main(#[trigger] solutions@[k]) {
                    self.problem_cfg.primary_solution matches Some(p) && p@ == "main"@
                } else {
                    self.problem_cfg.primary_solution == old_self.problem_cfg.primary_solution
                },
                self.problem_cfg.title == old_self.problem_cfg.title,
                self.problem_cfg.name == old_self.problem_cfg.name,
                self.problem_cfg.tests == old_self.problem_cfg.tests,
                self.known_generators == old_self.known_generators,
                self.limits == old_self.limits,
            decreases solutions@.len() - i,
        {
            let sol = &solutions[i];
            let ghost a0 = actions_view(acts@);
            let tag = match &sol.tag {
                None => {
                    proof {
                        assert(tagged_prefix(solutions@) == i) by {
                            assert(solutions@[i as int].tag is None);
                            let k = choose|k: int|
                                0 <= k < solutions@.len() && (#[trigger] solutions@[k]).tag is None && forall|j: int|
                                    0 <= j < k ==> (#[trigger] solutions@[j]).tag is Some;
                            if k < i {
                                assert(solutions@[k].tag is Some);
                            }
                            if k > i {
                                assert(solutions@[i as int].tag is Some);
                            }
                        }
                    }
                    return Plan { actions: acts, outcome: Err(ImportError::SolutionTagMissing) };
                },
                Some(t) => t,
            };
            proof {
                assert(solutions@[i as int] == *sol);
            }
            if str_eq(tag.as_str(), "main") {
                push_action(&mut acts, Action::Send(Update::ImportSolution(owned("main"))));
                self.problem_cfg.primary_solution = Some(owned("main"));
                let src = sol.source.as_ref().unwrap();
                push_action(&mut acts, Action::CreateDirAll(path1("solutions/main")));
                push_action(&mut acts, Action::Copy { from: owned(src.as_str()), to: path1("solutions/main/main.cpp") });
                push_action(&mut acts, Action::WriteSolutionCmake(path2("solutions/main", "CMakeLists.txt")));
                proof {
                    assert(is_main(solutions@[i as int]));
                    assert(actions_view(acts@) =~= a0 + solution_actions(solutions@[i as int]));
                }
            } else {
                let m1 = concat("skipping solution with tag ", tag.as_str());
                let m = concat(m1.as_str(), ": importing non-main solutions not yet implemented");
                push_action(&mut acts, Action::Send(Update::Warning(m)));
                proof {
                    assert(!is_main(solutions@[i as int]));
                    assert(actions_view(acts@) =~= a0 + solution_actions(solutions@[i as int]));
                }
            }
            proof {
                assert(a0 + solution_actions(solutions@[i as int]) =~= seq![
                    ActionView::Send(UpdateView::ImportSolutions),
                ] + solutions_actions(solutions@, i + 1));
                if exists|k: int| 0 <= k < i + 1 && is_main(#[trigger] solutions@[k]) {
                    if !is_main(solutions@[i as int]) {
                        let k = choose|k: int| 0 <= k < i + 1 && is_main(#[trigger] solutions@[k]);
                        assert(k < i);
                    }
                } else {
                    assert(!is_main(solutions@[i as int]));
                    if exists|k: int| 0 <= k < i && is_main(#[trigger] solutions@[k]) {
                        let k = choose|k: int| 0 <= k < i && is_main(#[trigger] solutions@[k]);
                        assert(0 <= k < i + 1);
                    }
                }
            }
            i = i + 1;
        }
        proof {
            assert(!exists|k: int| 0 <= k < solutions@.len() && (#[trigger] solutions@[k]).tag is None);
        }
        Plan { actions: acts, outcome: Ok(()) }
    }

    /// The section that an element with tag `tag` starts.
    pub fn section_of(tag: &str) -> (r: Section)
        ensures
            r == spec_section(tag@),
    {
        if str_eq(tag, "names") {
            Section::Names
        } else if str_eq(tag, "solutions") {
            Section::Solutions
        } else if str_eq(tag, "judging") {
            Section::Judging
        } else if str_eq(tag, "executable") {
            Section::Executable
        } else if str_eq(tag, "checker") {
            Section::Checker
        } else if str_eq(tag, "problem") {
            Section::Problem
        } else {
            Section::Other
        }
    }
}

/// Reading digits `ds` left to right into a `u64`: the first non-digit is
/// an invalid digit, the first digit that takes the value past `u64::MAX`
/// an overflow.
pub open spec fn read_digits_u64(ds: Seq<char>) -> Result<u64, IntErrorKind>
    decreases ds.len(),
{
    if ds.len() == 0 {
        Ok(0)
    } else {
        match read_digits_u64(ds.drop_last()) {
            Err(e) => Err(e),
            Ok(v) => if !is_digit(ds.last()) {
                Err(IntErrorKind::InvalidDigit)
            } else if v * 10 + digit_value(ds.last()) > u64::MAX {
                Err(IntErrorKind::PosOverflow)
            } else {
                Ok((v * 10 + digit_value(ds.last())) as u64)
            },
        }
    }
}

/// `u64::from_str`: an optional `+`, then decimal digits.
pub open spec fn spec_parse_u64(s: Seq<char>) -> Result<u64, IntErrorKind> {
    if s.len() == 0 {
        Err(IntErrorKind::Empty)
    } else if s[0] == '+' {
        if s.len() == 1 {
            Err(IntErrorKind::InvalidDigit)
        } else {
            read_digits_u64(s.drop_first())
        }
    } else {
        read_digits_u64(s)
    }
}

/// An error of a prefix of digits is the error of all of them.
proof fn lemma_read_digits_u64_err(ds: Seq<char>, k: int)
    requires
        0 <= k <= ds.len(),
        read_digits_u64(ds.take(k)) is Err,
    ensures
        read_digits_u64(ds) == read_digits_u64(ds.take(k)),
    decreases ds.len() - k,
{
    if k < ds.len() {
        assert(ds.take(k + 1).drop_last() =~= ds.take(k));
        lemma_read_digits_u64_err(ds, k + 1);
    } else {
        assert(ds.take(k) =~= ds);
    }
}

/// Parses `s` as `u64::from_str` does.
pub fn parse_u64(s: &str) -> (r: Result<u64, IntErrorKind>)
    ensures
        r == spec_parse_u64(s@),
{
    let cs = chars_of(s);
    let n = cs.len();
    if n == 0 {
        return Err(IntErrorKind::Empty);
    }
    let mut start: usize = 0;
    if cs[0] == '+' {
        if n == 1 {
            return Err(IntErrorKind::InvalidDigit);
        }
        start = 1;
    }
    let ghost ds = cs@.subrange(start as int, n as int);
    proof {
        if start == 1 {
            assert(ds =~= cs@.drop_first());
        } else {
            assert(ds =~= cs@);
        }
    }
    let mut v: u64 = 0;
    let mut i: usize = start;
    while i < n
        invariant
            n == cs@.len(),
            cs@ == s@,
            start <= i <= n,
            ds == cs@.subrange(start as int, n as int),
            spec_parse_u64(cs@) == read_digits_u64(ds),
            read_digits_u64(ds.take(i - start)) == Ok::<u64, IntErrorKind>(v),
        decreases n - i,
    {
        let c = cs[i];
        proof {
            assert(ds.take(i - start + 1).drop_last() =~= ds.take(i - start));
            assert(ds.take(i - start + 1).last() == c);
        }
        if !('0' <= c && c <= '9') {
            proof {
                lemma_read_digits_u64_err(ds, (i - start + 1) as int);
            }
            return Err(IntErrorKind::InvalidDigit);
        }
        let d = (c as u64) - ('0' as u64);
        if v > 1844674407370955161 || (v == 1844674407370955161 && d > 5) {
            proof {
                assert(d == digit_value(c));
                assert(v * 10 + digit_value(c) > u64::MAX);
                lemma_read_digits_u64_err(ds, (i - start + 1) as int);
            }
            return Err(IntErrorKind::PosOverflow);
        }
        v = v * 10 + d;
        i = i + 1;
    }
    proof {
        assert(ds.take(n - start) =~= ds);
    }
    Ok(v)
}

/// Hexadecimal text is made of lower-case hexadecimal digits.
proof fn lemma_hex_digits(bytes: Seq<u8>)
    ensures
        forall|i: int| 0 <= i < hex_of(bytes).len() ==> is_lower_hex(#[trigger] hex_of(bytes)[i]),
        hex_of(bytes).len() == 2 * bytes.len(),
    decreases bytes.len(),
{
    if bytes.len() > 0 {
        lemma_hex_digits(bytes.drop_last());
        let h = hex_of(bytes);
        let h0 = hex_of(bytes.drop_last());
        assert forall|i: int| 0 <= i < h.len() implies is_lower_hex(#[trigger] h[i]) by {
            if i < h0.len() {
                assert(h[i] == h0[i]);
            }
        }
    }
}

/// Reading the decimal text of a number gives the number back.
proof fn lemma_read_decimal_u64(n: nat)
    requires
        n <= u64::MAX,
    ensures
        read_digits_u64(decimal(n)) == Ok::<u64, IntErrorKind>(n as u64),
    decreases n,
{
    let d = decimal(n);
    if n < 10 {
        assert(d == seq![digit_char(n as int)]);
        assert(d.drop_last() =~= Seq::<char>::empty());
        assert(read_digits_u64(d.drop_last()) == Ok::<u64, IntErrorKind>(0));
        assert(d.last() == digit_char(n as int));
    } else {
        lemma_read_decimal_u64(n / 10);
        let m = (n % 10) as int;
        assert(d == decimal(n / 10).push(digit_char(m)));
        assert(d.drop_last() =~= decimal(n / 10));
        assert(d.last() == digit_char(m));
        assert(is_digit(digit_char(m)) && digit_value(digit_char(m)) == m);
        assert((n / 10) * 10 + n % 10 == n) by (nonlinear_arith);
        assert(read_digits_u64(d.drop_last()) == Ok::<u64, IntErrorKind>((n / 10) as u64));
    }
}

/// `u64::from_str` reads the decimal text of a number as the number.
pub proof fn lemma_parse_decimal_u64(n: u64)
    ensures
        spec_parse_u64(decimal(n as nat)) == Ok::<u64, IntErrorKind>(n),
{
    lemma_decimal_digits(n as nat);
    lemma_read_decimal_u64(n as nat);
    assert(decimal(n as nat)[0] != '+');
}

/// A limit that an import reports, read back as a number, is the limit
/// that the tests imported from then on get.
pub proof fn lemma_reported_limit_reads_back(tag: Seq<char>, text: Option<&str>, old: Limits)
    requires
        tag == "time-limit"@ || tag == "memory-limit"@,
        testset_plan(tag, text) matches Some(p) && p.1 is Ok,
    ensures
        ({
            let plan = testset_plan(tag, text)->0;
            let acts = plan.0;
            let now = testset_limits(tag, text, old);
            &&& acts.len() == 1
            &&& acts[0] matches ActionView::Send(UpdateView::Property(_, v)) && spec_parse_u64(v) == Ok::<
                u64,
                IntErrorKind,
            >(if tag == "time-limit"@ {
                now.time->0
            } else {
                now.memory->0
            })
        }),
{
    reveal_strlit("time-limit");
    reveal_strlit("memory-limit");
    assert("time-limit"@ != "memory-limit"@) by {
        assert("time-limit"@[0] != "memory-limit"@[0]);
    }
    let t = text->0;
    let v = spec_parse_u64(t@)->Ok_0;
    lemma_parse_decimal_u64(v);
}

/// The block that an import writes for its `id`-th test stands for test
/// `id` alone: the manifest reads its mapping back as that one test.
pub proof fn lemma_imported_block_mapping(b: RawTestsSpec, t: TestNode, id: nat, limits: Limits)
    requires
        test_block(b, t, id, limits),
        id <= u32::MAX,
    ensures
        spec_mapping(b.map@) == Ok::<Seq<u32>, (int, ChunkError)>(seq![id as u32]),
{
    lemma_mapping_of_decimal(id);
}

/// A problem of a contest: its name and its code (index) in the contest.
#[derive(Debug, Clone)]
pub struct ProblemBinding {
    pub name: String,
    pub code: String,
}

/// Why a `<problem>` of `contest.xml` cannot be read.
#[derive(Debug, Clone, Copy, PartialEq, Eq, Structural)]
pub enum ContestImportError {
    /// index attribute missing in <problem />
    IndexMissing,
    /// url attribute missing in <problem />
    UrlMissing,
}

/// The last `/`-separated piece of `url`.
pub open spec fn url_last_piece(url: Seq<char>) -> Seq<char>
    decreases url.len(),
{
    if url.len() == 0 {
        url
    } else if url.last() == '/' {
        seq![]
    } else {
        url_last_piece(url.drop_last()).push(url.last())
    }
}

/// The problem that a `<problem>` of `contest.xml` binds, from its `index`
/// and `url` attributes: the problem is named by the last piece of its
/// url, and coded by its index.
pub fn contest_problem(index: Option<&str>, url: Option<&str>) -> (r: Result<ProblemBinding, ContestImportError>)
    ensures
        index is None ==> r == Err::<ProblemBinding, ContestImportError>(ContestImportError::IndexMissing),
        index is Some && url is None ==> r == Err::<ProblemBinding, ContestImportError>(ContestImportError::UrlMissing),
        index is Some && url is Some ==> (r matches Ok(b) && b.name@ == url_last_piece(url->0@) && b.code@ == index->0@),
{
    let index = match index {
        None => {
            return Err(ContestImportError::IndexMissing);
        },
        Some(i) => i,
    };
    let url = match url {
        None => {
            return Err(ContestImportError::UrlMissing);
        },
        Some(u) => u,
    };
    let cs = chars_of(url);
    let n = cs.len();
    let mut start: usize = n;
    proof {
        assert(cs@.subrange(n as int, n as int) =~= Seq::<char>::empty());
        assert(cs@.take(n as int) =~= cs@);
        assert(url_last_piece(cs@.take(n as int)) + cs@.subrange(n as int, n as int) =~= url_last_piece(cs@));
    }
    while start > 0 && cs[start - 1] != '/'
        invariant
            n == cs@.len(),
            cs@ == url@,
            start <= n,
            url_last_piece(url@) == url_last_piece(cs@.take(start as int)) + cs@.subrange(start as int, n as int),
        decreases start,
    {
        proof {
            let t = cs@.take(start as int);
            assert(t.drop_last() =~= cs@.take(start - 1));
            assert(t.last() == cs@[start - 1]);
            assert(cs@.subrange(start - 1, n as int) =~= seq![cs@[start - 1]] + cs@.subrange(start as int, n as int));
        }
        start = start - 1;
    }
    proof {
        assert(url_last_piece(cs@.take(start as int)) =~= Seq::<char>::empty());
    }
    let name = string_of_range(&cs, start, n);
    proof {
        assert(url_last_piece(url@) =~= cs@.subrange(start as int, n as int));
    }
    Ok(ProblemBinding { name, code: owned(index) })
}

} // verus!
