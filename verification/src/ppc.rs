//! The problem compiler's command line and its small decisions: whether a
//! directory can take output, what is being imported, how limits merge,
//! and when progress is worth reporting.
use vstd::prelude::*;
use crate::pom::{Limits, FileRef, FileRefRoot, Test, DEFAULT_MEMORY, DEFAULT_NUM_PROCS, DEFAULT_TIME, DEFAULT_WORK_DIR_SIZE};
use crate::manifest::{Check, TestSpec};
use crate::text::{decimal, decimal_string, str_eq};
use crate::components::{join, spec_join};

verus! {

/// Compile one problem package.
#[derive(Debug, Clone)]
pub struct CompileSingleProblemArgs {
    pub pkg_path: String,
    pub out_path: String,
    pub force: bool,
}

/// Arguments of `ppc compile`.
#[derive(Debug, Clone)]
pub struct CompileArgs {
    /// Path to problem package root
    pub pkg_path: Vec<String>,
    /// Output path
    pub out_path: Vec<String>,
    /// Upload compiled packages
    pub upload: bool,
    /// Rewrite dir
    pub force: bool,
}

/// Arguments of `ppc import`.
#[derive(Debug, Clone)]
pub struct ImportArgs {
    /// Path to package being imported
    pub in_path: String,
    /// Out path (will contain ppc package)
    pub out_path: String,
    /// Rewrite dir
    pub force: bool,
    /// Write contest config to jjs data_dir.
    /// This option can only be used when importing contest
    pub update_cfg: bool,
    /// Imported contest name
    /// This option can only be used when importing contest
    pub contest_name: Option<String>,
    /// Build imported problems and install them to jjs data_dir
    pub build: bool,
}

/// Subcommands of `ppc`.
#[derive(Debug, Clone)]
pub enum Args {
    Compile(CompileArgs),
    Import(ImportArgs),
}

/// Why a directory cannot take output.
#[derive(Debug, Clone, Copy, PartialEq, Eq, Structural)]
pub enum DirError {
    /// path does not exist
    NotExists,
    /// path is not a directory
    NotDirectory,
    /// directory is not empty
    NotEmpty,
}

/// Whether a path can take output, from what the file system says of it:
/// it must exist and be a directory, empty unless `allow_nonempty`.
pub fn check_dir(exists: bool, is_dir: bool, allow_nonempty: bool, nonempty: bool) -> (r: Result<(), DirError>)
    ensures
        !exists ==> r == Err::<(), DirError>(DirError::NotExists),
        exists && !is_dir ==> r == Err::<(), DirError>(DirError::NotDirectory),
        exists && is_dir && !allow_nonempty && nonempty ==> r == Err::<(), DirError>(DirError::NotEmpty),
        exists && is_dir && (allow_nonempty || !nonempty) ==> r is Ok,
{
    if !exists {
        return Err(DirError::NotExists);
    }
    if !is_dir {
        return Err(DirError::NotDirectory);
    }
    if !allow_nonempty && nonempty {
        return Err(DirError::NotEmpty);
    }
    Ok(())
}

/// What an import source holds.
#[derive(Debug, Clone, Copy, PartialEq, Eq, Structural)]
pub enum ImportKind {
    Problem,
    Contest,
}

/// Why an import source is not recognized.
#[derive(Debug, Clone, Copy, PartialEq, Eq, Structural)]
pub enum ImportKindError {
    /// path does not exist
    NotExists,
    /// unknown src
    UnknownSource,
}

/// What is being imported, from what the file system says of the source:
/// a `problem.xml` makes a problem, else a `contest.xml` a contest.
pub fn detect_import_kind(exists: bool, has_problem_xml: bool, has_contest_xml: bool) -> (r: Result<ImportKind, ImportKindError>)
    ensures
        !exists ==> r == Err::<ImportKind, ImportKindError>(ImportKindError::NotExists),
        exists && has_problem_xml ==> r == Ok::<ImportKind, ImportKindError>(ImportKind::Problem),
        exists && !has_problem_xml && has_contest_xml ==> r == Ok::<ImportKind, ImportKindError>(ImportKind::Contest),
        exists && !has_problem_xml && !has_contest_xml ==> r == Err::<ImportKind, ImportKindError>(ImportKindError::UnknownSource),
{
    if !exists {
        return Err(ImportKindError::NotExists);
    }
    if has_problem_xml {
        return Ok(ImportKind::Problem);
    }
    if has_contest_xml {
        return Ok(ImportKind::Contest);
    }
    Err(ImportKindError::UnknownSource)
}

/// Applies merge patch `other` to a `place`:
/// If `other` is None, does nothing.
/// If `other` is Some, stores `other` inner value into `place`.
pub fn merge_option<T: Copy>(place: &mut Option<T>, other: Option<T>)
    ensures
        *final(place) == (if other is Some { other } else { *old(place) }),
{
    if let Some(x) = other {
        *place = Some(x);
    }
}

/// Later patches win: each limit of `ls` that is set, laid over the
/// defaults, the last element having the highest priority.
pub open spec fn merged_limits(ls: Seq<Limits>) -> Limits
    decreases ls.len(),
{
    if ls.len() == 0 {
        Limits {
            memory: Some(DEFAULT_MEMORY),
            time: Some(DEFAULT_TIME),
            process_count: Some(DEFAULT_NUM_PROCS),
            work_dir_size: Some(DEFAULT_WORK_DIR_SIZE),
        }
    } else {
        let m = merged_limits(ls.drop_last());
        let l = ls.last();
        Limits {
            memory: if l.memory is Some { l.memory } else { m.memory },
            process_count: if l.process_count is Some { l.process_count } else { m.process_count },
            time: if l.time is Some { l.time } else { m.time },
            work_dir_size: if l.work_dir_size is Some { l.work_dir_size } else { m.work_dir_size },
        }
    }
}

/// Merges several `Limits` object. Last element of slice will have maximal proirity.
pub fn merge_limits(limits_set: &Vec<Limits>) -> (r: Limits)
    ensures
        r == merged_limits(limits_set@),
{
    let mut res = Limits::default();
    let n = limits_set.len();
    let mut i: usize = 0;
    proof {
        assert(limits_set@.take(0) =~= Seq::<Limits>::empty());
    }
    while i < n
        invariant
            n == limits_set@.len(),
            0 <= i <= n,
            res == merged_limits(limits_set@.take(i as int)),
        decreases n - i,
    {
        let lim = limits_set[i];
        proof {
            assert(limits_set@.take(i + 1).drop_last() =~= limits_set@.take(i as int));
            assert(limits_set@.take(i + 1).last() == lim);
        }
        merge_option(&mut res.memory, lim.memory);
        merge_option(&mut res.process_count, lim.process_count);
        merge_option(&mut res.time, lim.time);
        merge_option(&mut res.work_dir_size, lim.work_dir_size);
        i = i + 1;
    }
    proof {
        assert(limits_set@.take(n as int) =~= limits_set@);
    }
    res
}

/// Report progress when at least this percentage of the steps passed.
pub const STEP_PERCENTAGE_THRESHOLD: usize = 20;

/// Report progress when at least this many seconds passed.
pub const STEP_DURATION_THRESHOLD_SECS: u64 = 10;

/// Decides when progress over a number of steps is worth reporting.
#[derive(Debug, Clone, Copy)]
pub struct Notifier {
    last_step: usize,
    total_step_count: usize,
}

impl Notifier {
    /// Step last reported.
    pub closed spec fn last_step(self) -> usize {
        self.last_step
    }

    /// Number of steps.
    pub closed spec fn total(self) -> usize {
        self.total_step_count
    }

    /// A notifier over `cnt` steps, none reported yet.
    pub fn new(cnt: usize) -> (r: Notifier)
        requires
            cnt != 0,
        ensures
            r.last_step() == 0,
            r.total() == cnt,
    {
        Notifier { last_step: 0, total_step_count: cnt }
    }

    /// Whether step `new_step` is reported, `elapsed_secs` seconds after the
    /// last report: when a fifth of the steps passed since, or ten seconds.
    /// A reported step becomes the last one.
    pub fn maybe_notify(&mut self, new_step: usize, elapsed_secs: u64) -> (r: bool)
        requires
            old(self).last_step() <= new_step,
            100 * (new_step - old(self).last_step()) <= usize::MAX,
            STEP_PERCENTAGE_THRESHOLD * old(self).total() <= usize::MAX,
        ensures
            r == (100 * (new_step - old(self).last_step()) >= STEP_PERCENTAGE_THRESHOLD * old(self).total()
                || elapsed_secs >= STEP_DURATION_THRESHOLD_SECS),
            final(self).total() == old(self).total(),
            final(self).last_step() == (if r { new_step } else { old(self).last_step() }),
    {
        let mut should_notify = false;
        let cnt_delta = new_step - self.last_step;
        if 100 * cnt_delta >= STEP_PERCENTAGE_THRESHOLD * self.total_step_count {
            should_notify = true;
        }
        if elapsed_secs >= STEP_DURATION_THRESHOLD_SECS {
            should_notify = true;
        }
        if should_notify {
            self.last_step = new_step;
        }
        should_notify
    }
}

/// `getrandom::getrandom`: fills `dest` with bytes from the system's
/// source of randomness and tells whether it could (its error is only
/// told apart from success). The bytes are random: only that there are as
/// many as before is stated.
#[verifier::external_body]
pub(crate) fn fill_random(dest: &mut Vec<u8>) -> (ok: bool)
    ensures
        final(dest)@.len() == old(dest)@.len(),
{
    getrandom::getrandom(dest.as_mut_slice()).is_ok()
}

/// The ASCII code of the lower-case hexadecimal digit of `d` (below
/// sixteen).
pub open spec fn hex_ascii(d: int) -> u8 {
    if d < 10 {
        (48 + d) as u8
    } else {
        (97 + d - 10) as u8
    }
}

/// Turns each byte into the hexadecimal digit of its low four bits.
pub fn hex_digits(buf: &mut Vec<u8>)
    ensures
        final(buf)@.len() == old(buf)@.len(),
        forall|i: int| 0 <= i < old(buf)@.len() ==> #[trigger] final(buf)@[i] == hex_ascii(old(buf)@[i] as int % 16),
{
    let n = buf.len();
    let mut i: usize = 0;
    while i < n
        invariant
            n == buf@.len(),
            n == old(buf)@.len(),
            0 <= i <= n,
            forall|k: int| 0 <= k < i ==> #[trigger] buf@[k] == hex_ascii(old(buf)@[k] as int % 16),
            forall|k: int| i <= k < n ==> #[trigger] buf@[k] == old(buf)@[k],
        decreases n - i,
    {
        let d = buf[i] % 16;
        let c: u8 = if d < 10 {
            48 + d
        } else {
            97 + (d - 10)
        };
        buf.set(i, c);
        i = i + 1;
    }
}

/// Fills `buf` with random lower-case hexadecimal digits, as ASCII; tells
/// whether the system gave random bytes (when it did not, the contents
/// are unspecified).
pub fn get_entropy_hex(buf: &mut Vec<u8>) -> (ok: bool)
    ensures
        final(buf)@.len() == old(buf)@.len(),
        ok ==> forall|i: int| 0 <= i < final(buf)@.len() ==> is_hex_ascii(#[trigger] final(buf)@[i]),
{
    if !fill_random(buf) {
        return false;
    }
    let ghost b0 = buf@;
    hex_digits(buf);
    proof {
        assert forall|i: int| 0 <= i < buf@.len() implies is_hex_ascii(#[trigger] buf@[i]) by {
            assert(buf@[i] == hex_ascii(b0[i] as int % 16));
        }
    }
    true
}

/// The ASCII code of a lower-case hexadecimal digit.
pub open spec fn is_hex_ascii(b: u8) -> bool {
    (48 <= b <= 57) || (97 <= b <= 102)
}

/// The description of test `tid` of a compiled problem: its input file
/// in the problem's assets, the problem's limits overridden by the
/// test's, its group, and the file of its correct answer when answers are
/// generated.
pub open spec fn test_info_of(t: Test, tid: nat, problem_limits: Limits, spec: TestSpec, answer: bool) -> bool {
    &&& t.path.root == FileRefRoot::Problem
    &&& t.path.path@ == "tests/"@ + decimal(tid) + "-in.txt"@
    &&& t.limits == merged_limits(seq![problem_limits, spec.limits])
    &&& t.group@ == spec.group@
    &&& if answer {
        t.correct matches Some(c) && c.root == FileRefRoot::Problem && c.path@ == "tests/"@ + decimal(tid)
            + "-out.txt"@
    } else {
        t.correct is None
    }
}

fn concat3(a: &str, b: &str, c: &str) -> (r: String)
    ensures
        r@ == a@ + b@ + c@,
{
    let mut s = String::from_str(a);
    s.append(b);
    s.append(c);
    s
}

/// Describes test `tid` (see [`test_info_of`]).
pub fn test_info(tid: usize, problem_limits: Limits, spec: &TestSpec, answer: bool) -> (r: Test)
    ensures
        test_info_of(r, tid as nat, problem_limits, *spec, answer),
{
    let num = decimal_string(tid as u64);
    let path = FileRef { path: concat3("tests/", num.as_str(), "-in.txt"), root: FileRefRoot::Problem };
    let mut set: Vec<Limits> = Vec::new();
    set.push(problem_limits);
    set.push(spec.limits);
    proof {
        assert(set@ =~= seq![problem_limits, spec.limits]);
    }
    let limits = merge_limits(&set);
    let correct = if answer {
        Some(FileRef { path: concat3("tests/", num.as_str(), "-out.txt"), root: FileRefRoot::Problem })
    } else {
        None
    };
    Test { path, correct, limits, group: spec.group.as_str().to_owned() }
}

/// Why answers cannot be generated.
#[derive(Debug, Clone)]
pub enum AnswerError {
    /// primary-solution must be specified in order to generate tests correct answers
    NoPrimarySolution,
    /// Unknown solution
    UnknownSolution(String),
}

/// The problem's checker wants correct answers: a custom checker when it
/// asks for them, a builtin one always.
pub open spec fn wants_answers(check: Check) -> bool {
    match check {
        Check::Custom(cs) => cs.pass_correct,
        Check::Builtin(_) => true,
    }
}

/// Which of the built solutions (named `solutions`) generates the tests'
/// correct answers: none when the checker wants none, else the primary
/// solution, which must be given and built.
pub fn answer_source(check: &Check, primary_solution: &Option<String>, solutions: &Vec<String>) -> (r: Result<
    Option<usize>,
    AnswerError,
>)
    ensures
        !wants_answers(*check) ==> r matches Ok(None),
        wants_answers(*check) ==> match primary_solution {
            None => r matches Err(AnswerError::NoPrimarySolution),
            Some(p) => match r {
                Ok(Some(k)) => k < solutions@.len() && solutions@[k as int]@ == p@ && forall|j: int|
                    0 <= j < k ==> solutions@[j]@ != p@,
                Err(AnswerError::UnknownSolution(u)) => u@ == p@ && forall|j: int|
                    0 <= j < solutions@.len() ==> solutions@[j]@ != p@,
                _ => false,
            },
        },
{
    let wanted = match check {
        Check::Custom(cs) => cs.pass_correct,
        Check::Builtin(_) => true,
    };
    if !wanted {
        return Ok(None);
    }
    let p = match primary_solution {
        None => {
            return Err(AnswerError::NoPrimarySolution);
        },
        Some(p) => p,
    };
    let mut k: usize = 0;
    while k < solutions.len()
        invariant
            0 <= k <= solutions@.len(),
            wants_answers(*check),
            *primary_solution == Some(*p),
            forall|j: int| 0 <= j < k ==> solutions@[j]@ != p@,
        decreases solutions@.len() - k,
    {
        if str_eq(solutions[k].as_str(), p.as_str()) {
            return Ok(Some(k));
        }
        k = k + 1;
    }
    Err(AnswerError::UnknownSolution(p.as_str().to_owned()))
}

/// Why a compile command is rejected.
#[derive(Debug, Clone, Copy, PartialEq, Eq, Structural)]
pub enum CompileArgsError {
    /// count(--pkg) != count(--out)
    CountMismatch,
}

/// The problems that `ppc compile` builds: each package path with the
/// output path at the same place, all with the command's `force`. There
/// must be as many output paths as packages.
pub fn compile_requests(args: &CompileArgs) -> (r: Result<Vec<CompileSingleProblemArgs>, CompileArgsError>)
    ensures
        args.out_path@.len() != args.pkg_path@.len() <==> r is Err,
        r matches Ok(v) ==> v@.len() == args.pkg_path@.len() && forall|k: int|
            0 <= k < v@.len() ==> (#[trigger] v@[k]).pkg_path@ == args.pkg_path@[k]@ && v@[k].out_path@
                == args.out_path@[k]@ && v@[k].force == args.force,
{
    if args.out_path.len() != args.pkg_path.len() {
        return Err(CompileArgsError::CountMismatch);
    }
    let mut out: Vec<CompileSingleProblemArgs> = Vec::new();
    let mut i: usize = 0;
    while i < args.pkg_path.len()
        invariant
            0 <= i <= args.pkg_path@.len(),
            args.out_path@.len() == args.pkg_path@.len(),
            out@.len() == i,
            forall|k: int|
                0 <= k < i ==> (#[trigger] out@[k]).pkg_path@ == args.pkg_path@[k]@ && out@[k].out_path@
                    == args.out_path@[k]@ && out@[k].force == args.force,
        decreases args.pkg_path@.len() - i,
    {
        out.push(
            CompileSingleProblemArgs {
                pkg_path: args.pkg_path[i].as_str().to_owned(),
                out_path: args.out_path[i].as_str().to_owned(),
                force: args.force,
            },
        );
        i = i + 1;
    }
    Ok(out)
}

/// How a program of a problem package is built, and then run.
#[derive(Debug, Clone)]
pub enum BuildPlan {
    /// Configure and build with CMake in the temporary directory, then copy
    /// the artifact to the binary, which is what runs.
    Cmake { configure: Vec<String>, build: Vec<String>, artifact: String, binary: String },
    /// Copy the Python source, and run it with `python3`.
    Python { source: String, copy_to: String, run: Vec<String> },
    /// Compile the single C++ source into the binary, which is what runs.
    Gxx { compile: Vec<String>, binary: String },
}

/// Why a program cannot be built.
#[derive(Debug, Clone, Copy, PartialEq, Eq, Structural)]
pub enum BuildError {
    /// feature not supported: multi-file sources
    MultiFileUnsupported,
}

/// A build plan with its texts taken as characters.
pub enum BuildPlanView {
    Cmake(Seq<Seq<char>>, Seq<Seq<char>>, Seq<char>, Seq<char>),
    Python(Seq<char>, Seq<char>, Seq<Seq<char>>),
    Gxx(Seq<Seq<char>>, Seq<char>),
}

/// Texts of a list of strings.
pub open spec fn texts(v: Seq<String>) -> Seq<Seq<char>> {
    v.map_values(|s: String| s@)
}

impl View for BuildPlan {
    type V = BuildPlanView;

    open spec fn view(&self) -> BuildPlanView {
        match self {
            BuildPlan::Cmake { configure, build, artifact, binary } => BuildPlanView::Cmake(
                texts(configure@),
                texts(build@),
                artifact@,
                binary@,
            ),
            BuildPlan::Python { source, copy_to, run } => BuildPlanView::Python(source@, copy_to@, texts(run@)),
            BuildPlan::Gxx { compile, binary } => BuildPlanView::Gxx(texts(compile@), binary@),
        }
    }
}

/// How the sources at `src` are built into `dest`, with `tmp` for
/// temporary files and the JJS installation at `jjs_dir`: a directory is
/// built with CMake when it has `CMakeLists.txt`, else it runs its
/// `main.py`, else it cannot be built; a single file is compiled with `g++`
/// against the JJS testing library.
pub open spec fn spec_build_plan(
    src: Seq<char>,
    dest: Seq<char>,
    tmp: Seq<char>,
    jjs_dir: Seq<char>,
    src_is_dir: bool,
    has_cmake_lists: bool,
    has_main_py: bool,
) -> Result<BuildPlanView, BuildError> {
    if src_is_dir {
        if has_cmake_lists {
            Ok(
                BuildPlanView::Cmake(
                    seq!["cmake"@, "-S"@, src, "-B"@, tmp],
                    seq!["cmake"@, "--build"@, tmp],
                    spec_join(tmp, "Out"@),
                    spec_join(dest, "bin"@),
                ),
            )
        } else if has_main_py {
            Ok(
                BuildPlanView::Python(
                    spec_join(src, "main.py"@),
                    spec_join(dest, "out.py"@),
                    seq!["python3"@, spec_join(dest, "out.py"@)],
                ),
            )
        } else {
            Err(BuildError::MultiFileUnsupported)
        }
    } else {
        Ok(
            BuildPlanView::Gxx(
                seq![
                    "g++"@,
                    "-std=c++17"@,
                    "-I"@ + jjs_dir + "/include"@,
                    "-L"@ + jjs_dir + "/lib"@,
                    "-DPPC=1"@,
                    src,
                    "-o"@,
                    spec_join(dest, "bin"@),
                    "-ljtl"@,
                    "-lpthread"@,
                    "-ldl"@,
                ],
                spec_join(dest, "bin"@),
            ),
        )
    }
}

fn owned(s: &str) -> (r: String)
    ensures
        r@ == s@,
{
    String::from_str(s)
}

/// How the sources at `src` are built (see [`spec_build_plan`]).
pub fn build_plan(
    src: &str,
    dest: &str,
    tmp: &str,
    jjs_dir: &str,
    src_is_dir: bool,
    has_cmake_lists: bool,
    has_main_py: bool,
) -> (r: Result<BuildPlan, BuildError>)
    ensures
        match spec_build_plan(src@, dest@, tmp@, jjs_dir@, src_is_dir, has_cmake_lists, has_main_py) {
            Ok(p) => r matches Ok(x) && x@ == p,
            Err(e) => r == Err::<BuildPlan, BuildError>(e),
        },
{
    if src_is_dir {
        if has_cmake_lists {
            let configure = vec![owned("cmake"), owned("-S"), owned(src), owned("-B"), owned(tmp)];
            let build = vec![owned("cmake"), owned("--build"), owned(tmp)];
            proof {
                assert(texts(configure@) =~= seq!["cmake"@, "-S"@, src@, "-B"@, tmp@]);
                assert(texts(build@) =~= seq!["cmake"@, "--build"@, tmp@]);
            }
            return Ok(BuildPlan::Cmake { configure, build, artifact: join(tmp, "Out"), binary: join(dest, "bin") });
        }
        if has_main_py {
            let copy_to = join(dest, "out.py");
            let run = vec![owned("python3"), copy_to.as_str().to_owned()];
            proof {
                assert(texts(run@) =~= seq!["python3"@, copy_to@]);
            }
            return Ok(BuildPlan::Python { source: join(src, "main.py"), copy_to, run });
        }
        return Err(BuildError::MultiFileUnsupported);
    }
    let binary = join(dest, "bin");
    let mut incl = owned("-I");
    incl.append(jjs_dir);
    incl.append("/include");
    let mut link = owned("-L");
    link.append(jjs_dir);
    link.append("/lib");
    let compile = vec![
        owned("g++"),
        owned("-std=c++17"),
        incl,
        link,
        owned("-DPPC=1"),
        owned(src),
        owned("-o"),
        binary.as_str().to_owned(),
        owned("-ljtl"),
        owned("-lpthread"),
        owned("-ldl"),
    ];
    proof {
        assert(texts(compile@) =~= seq![
            "g++"@,
            "-std=c++17"@,
            "-I"@ + jjs_dir@ + "/include"@,
            "-L"@ + jjs_dir@ + "/lib"@,
            "-DPPC=1"@,
            src@,
            "-o"@,
            binary@,
            "-ljtl"@,
            "-lpthread"@,
            "-ldl"@,
        ]);
    }
    Ok(BuildPlan::Gxx { compile, binary })
}

/// The last position in `names` holding `name`, if any.
pub open spec fn last_named(names: Seq<Seq<char>>, name: Seq<char>) -> Option<int>
    decreases names.len(),
{
    if names.len() == 0 {
        None
    } else if names.last() == name {
        Some(names.len() - 1)
    } else {
        last_named(names.drop_last(), name)
    }
}

/// The generator, among the built ones named `names`, that a test asking
/// for generator `testgen` runs: the last one built under that name; `None`
/// for an unknown generator.
pub fn testgen_index(names: &Vec<String>, testgen: &str) -> (r: Option<usize>)
    ensures
        match last_named(texts(names@), testgen@) {
            Some(k) => r == Some(k as usize),
            None => r is None,
        },
{
    let mut i: usize = names.len();
    proof {
        assert(texts(names@).take(names@.len() as int) =~= texts(names@));
    }
    while i > 0
        invariant
            i <= names@.len(),
            last_named(texts(names@), testgen@) == last_named(texts(names@).take(i as int), testgen@),
        decreases i,
    {
        proof {
            assert(texts(names@).take(i as int).drop_last() =~= texts(names@).take(i - 1));
        }
        if str_eq(names[i - 1].as_str(), testgen) {
            return Some(i - 1);
        }
        i = i - 1;
    }
    None
}

/// The manifest of the compiled problem: title and name of the source
/// manifest `cfg`, its checker arguments, the built checker `checker`, the
/// tests `tests`, and the valuer and its config in the package.
pub fn compiled_problem(cfg: &crate::manifest::Problem, checker: FileRef, tests: Vec<Test>) -> (r: crate::pom::Problem)
    ensures
        r.title@ == cfg.title@,
        r.name@ == cfg.name@,
        r.checker_exe == checker,
        texts(r.checker_cmd@) == texts(cfg.check_options.args@),
        r.valuer_exe.root == FileRefRoot::Problem && r.valuer_exe.path@ == "valuer"@,
        r.valuer_cfg.root == FileRefRoot::Problem && r.valuer_cfg.path@ == "valuer-cfg"@,
        r.tests@ == tests@,
{
    let mut args: Vec<String> = Vec::new();
    let mut i: usize = 0;
    while i < cfg.check_options.args.len()
        invariant
            0 <= i <= cfg.check_options.args@.len(),
            texts(args@) == texts(cfg.check_options.args@).take(i as int),
        decreases cfg.check_options.args@.len() - i,
    {
        let ghost a0 = args@;
        args.push(cfg.check_options.args[i].as_str().to_owned());
        proof {
            assert(texts(args@) =~= texts(a0).push(cfg.check_options.args@[i as int]@));
            assert(texts(cfg.check_options.args@).take(i + 1) =~= texts(cfg.check_options.args@).take(i as int).push(
                cfg.check_options.args@[i as int]@,
            ));
        }
        i = i + 1;
    }
    proof {
        assert(texts(cfg.check_options.args@).take(cfg.check_options.args@.len() as int) =~= texts(cfg.check_options.args@));
    }
    crate::pom::Problem {
        title: cfg.title.as_str().to_owned(),
        name: cfg.name.as_str().to_owned(),
        tests,
        checker_exe: checker,
        checker_cmd: args,
        valuer_exe: FileRef { path: "valuer".to_owned(), root: FileRefRoot::Problem },
        valuer_cfg: FileRef { path: "valuer-cfg".to_owned(), root: FileRefRoot::Problem },
    }
}

} // verus!
