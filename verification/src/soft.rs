//! Discovering the files that toolchains need: scripts of each toolchain
//! template run under a tracer, and the files that their system calls name
//! are collected. Also which templates are processed, and what their
//! detection scripts report.
use vstd::prelude::*;
use crate::text::{
    chars_of, str_eq, starts_with, string_of, trim_start_all, trim_start_all_chars, first_occurrence,
    lemma_first_occurrence, find_from, occurs_at, slice_chars, spec_lines,
};
pub use crate::text::lines;

verus! {

/// A path argument of a traced system call, as the tracer decoded it.
#[derive(Debug, Clone)]
pub enum PathArg {
    /// The tracer could not tell the path (its `kind` is `unknown`).
    Unknown,
    /// The path, as text (its `data`).
    Text(String),
    /// Neither of these.
    Malformed,
}

/// A field of a trace event: absent, of the wrong type, or its value.
#[derive(Debug, Clone)]
pub enum Field<T> {
    Missing,
    WrongType,
    Value(T),
}

/// The decoded system call of a trace event (`payload.data.decoded`).
#[derive(Debug, Clone)]
pub struct SyscallInfo {
    /// `name`: the system call's name.
    pub name: Field<String>,
    /// `args`: its arguments, as paths.
    pub args: Field<Vec<PathArg>>,
    /// `ret.kind` is `error`: the call failed.
    pub failed: bool,
}

/// One item of a trace log, by the parts that the collector reads.
#[derive(Debug, Clone)]
pub enum TraceItem {
    /// Not an object with a `payload` whose `kind` is a string.
    Malformed,
    /// An event of kind `kind`, with its `data` if it has one.
    Event { kind: String, data: Option<SyscallInfo> },
}

/// Why a trace item cannot be read.
#[derive(Debug, Clone)]
pub enum DepError {
    /// unexpected ktrace output
    Malformed,
    /// unknown event kind
    UnknownKind(String),
    /// decoded syscall info missing
    NoSyscallInfo,
    /// bad ktrace path output
    BadPath,
}

/// A trace error with its text taken as characters.
pub enum DepErrorView {
    Malformed,
    UnknownKind(Seq<char>),
    NoSyscallInfo,
    BadPath,
}

impl View for DepError {
    type V = DepErrorView;

    open spec fn view(&self) -> DepErrorView {
        match self {
            DepError::Malformed => DepErrorView::Malformed,
            DepError::UnknownKind(k) => DepErrorView::UnknownKind(k@),
            DepError::NoSyscallInfo => DepErrorView::NoSyscallInfo,
            DepError::BadPath => DepErrorView::BadPath,
        }
    }
}

/// Which argument of system call `name` is the file it uses: the program
/// of `execve`, the file of `access`, `open` and `lstat`, the second
/// argument of `openat`. Other calls name no file.
pub open spec fn path_index(name: Seq<char>) -> Option<int> {
    if name == "execve"@ || name == "access"@ || name == "open"@ || name == "lstat"@ {
        Some(0)
    } else if name == "openat"@ {
        Some(1)
    } else {
        None
    }
}

/// What a trace item contributes: an error, nothing, or a file. Only
/// successful system calls on entry or exit are looked at; attaching,
/// exiting and signals are skipped.
pub open spec fn item_outcome(item: TraceItem) -> Result<Option<Seq<char>>, DepErrorView> {
    match item {
        TraceItem::Malformed => Err(DepErrorView::Malformed),
        TraceItem::Event { kind, data } => if kind@ == "attach"@ || kind@ == "exit"@ || kind@ == "signal"@ {
            Ok(None)
        } else if kind@ == "sysenter"@ || kind@ == "sysexit"@ {
            match data {
                None => Err(DepErrorView::Malformed),
                Some(d) => match d.name {
                    Field::Missing => Err(DepErrorView::NoSyscallInfo),
                    Field::WrongType => Err(DepErrorView::Malformed),
                    Field::Value(n) => match d.args {
                        Field::Value(args) => if d.failed {
                            Ok(None)
                        } else {
                            match path_index(n@) {
                                None => Ok(None),
                                Some(i) => match args@[i] {
                                    PathArg::Unknown => Ok(None),
                                    PathArg::Text(p) => Ok(Some(p@)),
                                    PathArg::Malformed => Err(DepErrorView::BadPath),
                                },
                            }
                        },
                        _ => Err(DepErrorView::Malformed),
                    },
                },
            }
        } else {
            Err(DepErrorView::UnknownKind(kind@))
        },
    }
}

/// The system call of the item has the argument that names its file.
pub open spec fn item_has_path_arg(item: TraceItem) -> bool {
    match item {
        TraceItem::Event { kind, data } => (kind@ == "sysenter"@ || kind@ == "sysexit"@) ==> match data {
            Some(d) => match (d.name, d.args) {
                (Field::Value(n), Field::Value(args)) => !d.failed ==> match path_index(n@) {
                    Some(i) => i < args@.len(),
                    None => true,
                },
                _ => true,
            },
            None => true,
        },
        TraceItem::Malformed => true,
    }
}

/// The files found so far, each once.
#[derive(Debug)]
pub struct DepCollector {
    files: Vec<String>,
}

/// Texts of a list of strings.
pub open spec fn texts(v: Seq<String>) -> Seq<Seq<char>> {
    v.map_values(|s: String| s@)
}

impl View for DepCollector {
    type V = Set<Seq<char>>;

    closed spec fn view(&self) -> Set<Seq<char>> {
        texts(self.files@).to_set()
    }
}

impl DepCollector {
    /// Every file is kept once.
    pub closed spec fn wf(&self) -> bool {
        texts(self.files@).no_duplicates()
    }

    /// No files yet.
    pub fn new() -> (r: DepCollector)
        ensures
            r.wf(),
            r@ == Set::<Seq<char>>::empty(),
    {
        let r = DepCollector { files: Vec::new() };
        proof {
            assert(texts(r.files@) =~= Seq::<Seq<char>>::empty());
            assert(r@ =~= Set::<Seq<char>>::empty());
        }
        r
    }

    /// How many files were found.
    pub fn count(&self) -> (r: usize)
        requires
            self.wf(),
        ensures
            r == self@.len(),
    {
        proof {
            texts(self.files@).unique_seq_to_set();
        }
        self.files.len()
    }

    /// The files found, each once.
    pub fn files(&self) -> (r: Vec<String>)
        requires
            self.wf(),
        ensures
            texts(r@).to_set() == self@,
            texts(r@).no_duplicates(),
    {
        let mut out: Vec<String> = Vec::new();
        let mut i: usize = 0;
        while i < self.files.len()
            invariant
                0 <= i <= self.files@.len(),
                texts(out@) == texts(self.files@).take(i as int),
            decreases self.files@.len() - i,
        {
            let ghost o0 = out@;
            out.push(self.files[i].as_str().to_owned());
            proof {
                assert(texts(out@) =~= texts(o0).push(self.files@[i as int]@));
                assert(texts(self.files@).take(i + 1) =~= texts(self.files@).take(i as int).push(
                    self.files@[i as int]@,
                ));
            }
            i = i + 1;
        }
        proof {
            assert(texts(self.files@).take(self.files@.len() as int) =~= texts(self.files@));
        }
        out
    }

    /// Adds a file, once; tells whether it is new.
    fn insert(&mut self, path: &str) -> (added: bool)
        requires
            old(self).wf(),
        ensures
            final(self).wf(),
            final(self)@ == old(self)@.insert(path@),
            added == !old(self)@.contains(path@),
    {
        let mut i: usize = 0;
        while i < self.files.len()
            invariant
                0 <= i <= self.files@.len(),
                self.wf(),
                forall|k: int| 0 <= k < i ==> self.files@[k]@ != path@,
            decreases self.files@.len() - i,
        {
            if str_eq(self.files[i].as_str(), path) {
                proof {
                    assert(texts(self.files@)[i as int] == path@);
                    assert(self@ =~= self@.insert(path@));
                }
                return false;
            }
            i = i + 1;
        }
        let ghost f0 = texts(self.files@);
        proof {
            assert(!f0.contains(path@)) by {
                if f0.contains(path@) {
                    let k = choose|k: int| 0 <= k < f0.len() && f0[k] == path@;
                    assert(self.files@[k]@ == path@);
                }
            }
        }
        self.files.push(path.to_owned());
        proof {
            let f1 = texts(self.files@);
            assert(f1 =~= f0.push(path@));
            assert forall|x: Seq<char>| f1.contains(x) <==> (f0.contains(x) || x == path@) by {
                if f0.contains(x) {
                    let k = choose|k: int| 0 <= k < f0.len() && f0[k] == x;
                    assert(f1[k] == x);
                }
                if x == path@ {
                    assert(f1[f0.len() as int] == x);
                }
                if f1.contains(x) {
                    let k = choose|k: int| 0 <= k < f1.len() && f1[k] == x;
                    if k < f0.len() {
                        assert(f0[k] == x);
                    }
                }
            }
            assert(f1.to_set() =~= f0.to_set().insert(path@));
            assert forall|a: int, b: int| 0 <= a < f1.len() && 0 <= b < f1.len() && a != b implies f1[a] != f1[b] by {
                if a < f0.len() && b < f0.len() {
                    assert(f0[a] != f0[b]);
                } else if a < f0.len() {
                    assert(f0.contains(f1[a]));
                } else {
                    assert(f0.contains(f1[b]));
                }
            }
        }
        true
    }

    /// Reads one trace item and adds the file it names, if any; tells how
    /// many files are new (none or one).
    pub fn process_log_item(&mut self, item: &TraceItem) -> (r: Result<usize, DepError>)
        requires
            old(self).wf(),
            item_has_path_arg(*item),
        ensures
            final(self).wf(),
            match item_outcome(*item) {
                Err(e) => (r matches Err(x) && x@ == e) && final(self)@ == old(self)@,
                Ok(None) => r == Ok::<usize, DepError>(0) && final(self)@ == old(self)@,
                Ok(Some(p)) => final(self)@ == old(self)@.insert(p) && r == Ok::<usize, DepError>(
                    if old(self)@.contains(p) {
                        0
                    } else {
                        1
                    },
                ),
            },
    {
        let (kind, data) = match item {
            TraceItem::Malformed => {
                return Err(DepError::Malformed);
            },
            TraceItem::Event { kind, data } => (kind, data),
        };
        if str_eq(kind.as_str(), "attach") || str_eq(kind.as_str(), "exit") || str_eq(kind.as_str(), "signal") {
            return Ok(0);
        }
        if !(str_eq(kind.as_str(), "sysenter") || str_eq(kind.as_str(), "sysexit")) {
            return Err(DepError::UnknownKind(kind.as_str().to_owned()));
        }
        let d = match data {
            None => {
                return Err(DepError::Malformed);
            },
            Some(d) => d,
        };
        let name = match &d.name {
            Field::Missing => {
                return Err(DepError::NoSyscallInfo);
            },
            Field::WrongType => {
                return Err(DepError::Malformed);
            },
            Field::Value(n) => n,
        };
        let args = match &d.args {
            Field::Value(a) => a,
            _ => {
                return Err(DepError::Malformed);
            },
        };
        if d.failed {
            return Ok(0);
        }
        let n = name.as_str();
        let index: usize = if str_eq(n, "execve") || str_eq(n, "access") || str_eq(n, "open") || str_eq(n, "lstat") {
            0
        } else if str_eq(n, "openat") {
            1
        } else {
            return Ok(0);
        };
        match &args[index] {
            PathArg::Unknown => Ok(0),
            PathArg::Malformed => Err(DepError::BadPath),
            PathArg::Text(p) => {
                let added = self.insert(p.as_str());
                Ok(
                    if added {
                        1
                    } else {
                        0
                    },
                )
            },
        }
    }
}

/// Why the output of a detection script is rejected.
#[derive(Debug, Clone)]
pub enum DetectError {
    /// set-env command does not look like var_name=var_value
    BadSetEnv,
    /// unknown command
    UnknownCommand(String),
}

/// A detection error with its text taken as characters.
pub enum DetectErrorView {
    BadSetEnv,
    UnknownCommand(Seq<char>),
}

impl View for DetectError {
    type V = DetectErrorView;

    open spec fn view(&self) -> DetectErrorView {
        match self {
            DetectError::BadSetEnv => DetectErrorView::BadSetEnv,
            DetectError::UnknownCommand(l) => DetectErrorView::UnknownCommand(l@),
        }
    }
}

/// The variable that a line of a detection script's output sets:
/// `set-env:NAME=VALUE` (the value is all after the first `=`).
pub open spec fn line_assignment(l: Seq<char>) -> Result<(Seq<char>, Seq<char>), DetectErrorView> {
    if "set-env:"@.len() <= l.len() && l.subrange(0, "set-env:"@.len() as int) == "set-env:"@ {
        let cmd = trim_start_all(l, "set-env:"@);
        match first_occurrence(cmd, seq!['='], 0) {
            None => Err(DetectErrorView::BadSetEnv),
            Some(i) => Ok((cmd.take(i), cmd.skip(i + 1))),
        }
    } else {
        Err(DetectErrorView::UnknownCommand(l))
    }
}

/// The variables that the lines `ls` set, a later setting of a name
/// replacing an earlier one; or the first bad line's error.
pub open spec fn detect_env(ls: Seq<Seq<char>>) -> Result<Map<Seq<char>, Seq<char>>, DetectErrorView>
    decreases ls.len(),
{
    if ls.len() == 0 {
        Ok(Map::empty())
    } else {
        match detect_env(ls.drop_last()) {
            Err(e) => Err(e),
            Ok(m) => match line_assignment(ls.last()) {
                Err(e) => Err(e),
                Ok(kv) => Ok(m.insert(kv.0, kv.1)),
            },
        }
    }
}

/// Variables set in order, a later setting of a name replacing an earlier.
pub open spec fn assignments_map(a: Seq<(String, String)>) -> Map<Seq<char>, Seq<char>>
    decreases a.len(),
{
    if a.len() == 0 {
        Map::empty()
    } else {
        assignments_map(a.drop_last()).insert(a.last().0@, a.last().1@)
    }
}

/// What a detection script reports: the environment variables that its
/// toolchain needs, in the order they were set.
#[derive(Debug)]
pub struct DetectScriptOutput {
    pub env: Vec<(String, String)>,
}

/// A bad line stops the rest.
proof fn lemma_detect_env_err(ls: Seq<Seq<char>>, k: int)
    requires
        0 <= k <= ls.len(),
        detect_env(ls.take(k)) is Err,
    ensures
        detect_env(ls) == detect_env(ls.take(k)),
    decreases ls.len() - k,
{
    if k < ls.len() {
        assert(ls.take(k + 1).drop_last() =~= ls.take(k));
        lemma_detect_env_err(ls, k + 1);
    } else {
        assert(ls.take(k) =~= ls);
    }
}

/// The variable that one line sets.
fn parse_line(line: &Vec<char>, prefix: &Vec<char>, eq: &Vec<char>) -> (r: Result<(String, String), DetectError>)
    requires
        prefix@ == "set-env:"@,
        eq@ == seq!['='],
    ensures
        match line_assignment(line@) {
            Ok(kv) => r matches Ok(x) && x.0@ == kv.0 && x.1@ == kv.1,
            Err(e) => r matches Err(x) && x@ == e,
        },
{
    let ls_str = string_of(line);
    if !starts_with(ls_str.as_str(), "set-env:") {
        return Err(DetectError::UnknownCommand(ls_str));
    }
    let cmd = trim_start_all_chars(line, prefix);
    let pos = match find_from(&cmd, eq, 0) {
        None => {
            return Err(DetectError::BadSetEnv);
        },
        Some(p) => p,
    };
    let cmd_len = cmd.len();
    proof {
        lemma_first_occurrence(cmd@, eq@, 0);
        let fo = first_occurrence(cmd@, eq@, 0);
        if fo is None {
            assert(false);
        }
        assert(occurs_at(cmd@, eq@, fo->0));
        assert(0 <= fo->0 < cmd_len);
        assert(fo->0 as usize == pos);
        assert(first_occurrence(cmd@, seq!['='], 0) == Some(pos as int));
    }
    let name = string_of(&slice_chars(&cmd, 0, pos));
    let value = string_of(&slice_chars(&cmd, pos + 1, cmd_len));
    proof {
        assert(cmd@.subrange(0, pos as int) =~= cmd@.take(pos as int));
        assert(cmd@.subrange(pos + 1, cmd_len as int) =~= cmd@.skip(pos + 1));
    }
    Ok((name, value))
}

impl DetectScriptOutput {
    /// Reads the output of a detection script: every line must set a
    /// variable.
    pub fn parse(s: &str) -> (r: Result<DetectScriptOutput, DetectError>)
        ensures
            match detect_env(spec_lines(s@)) {
                Ok(m) => r matches Ok(o) && assignments_map(o.env@) == m,
                Err(e) => r matches Err(x) && x@ == e,
            },
    {
        let ls = lines(s);
        let ghost lv = ls@.map_values(|l: Vec<char>| l@);
        let prefix = chars_of("set-env:");
        let mut eq: Vec<char> = Vec::new();
        eq.push('=');
        proof {
            assert(eq@ =~= seq!['=']);
        }
        let mut env: Vec<(String, String)> = Vec::new();
        let mut i: usize = 0;
        proof {
            assert(lv.take(0) =~= Seq::<Seq<char>>::empty());
            assert(assignments_map(env@) =~= Map::<Seq<char>, Seq<char>>::empty());
        }
        while i < ls.len()
            invariant
                0 <= i <= ls@.len(),
                lv == ls@.map_values(|l: Vec<char>| l@),
                lv == spec_lines(s@),
                prefix@ == "set-env:"@,
                eq@ == seq!['='],
                detect_env(lv.take(i as int)) == Ok::<Map<Seq<char>, Seq<char>>, DetectErrorView>(
                    assignments_map(env@),
                ),
            decreases ls@.len() - i,
        {
            let line = &ls[i];
            proof {
                assert(lv.take(i + 1).drop_last() =~= lv.take(i as int));
                assert(lv.take(i + 1).last() == line@);
            }
            let (name, value) = match parse_line(line, &prefix, &eq) {
                Err(e) => {
                    proof {
                        lemma_detect_env_err(lv, i + 1);
                    }
                    return Err(e);
                },
                Ok(kv) => kv,
            };
            let ghost e0 = env@;
            env.push((name, value));
            proof {
                assert(env@.drop_last() =~= e0);
            }
            i = i + 1;
        }
        proof {
            assert(lv.take(ls@.len() as int) =~= lv);
        }
        Ok(DetectScriptOutput { env })
    }
}

/// A path that no toolchain should bring along: below `/tmp`, `/dev` or
/// `/home`.
pub open spec fn spec_is_scratch_path(p: Seq<char>) -> bool {
    ||| ("/tmp"@.len() <= p.len() && p.subrange(0, "/tmp"@.len() as int) == "/tmp"@)
    ||| ("/dev"@.len() <= p.len() && p.subrange(0, "/dev"@.len() as int) == "/dev"@)
    ||| ("/home"@.len() <= p.len() && p.subrange(0, "/home"@.len() as int) == "/home"@)
}

/// Whether a found file is left out of the toolchain files.
pub fn is_scratch_path(p: &str) -> (r: bool)
    ensures
        r == spec_is_scratch_path(p@),
{
    starts_with(p, "/tmp") || starts_with(p, "/dev") || starts_with(p, "/home")
}

/// How a toolchain template is set up.
#[derive(Debug, Clone, Copy, PartialEq, Eq, Structural)]
pub enum SetupKind {
    /// Files are found by tracing the template's scripts.
    Trace,
}

/// The configuration of a toolchain template.
#[derive(Debug, Clone)]
pub struct ToolchainConfig {
    pub kind: SetupKind,
    /// Templates that this one needs, by name.
    pub depends: Vec<String>,
    /// The template is meant to be set up automatically.
    pub auto: bool,
}

/// A toolchain template: its directory, name and configuration.
#[derive(Debug, Clone)]
pub struct TemplateInfo {
    pub dir: String,
    pub name: String,
    pub cfg: ToolchainConfig,
}

/// Why templates cannot be selected.
#[derive(Debug, Clone, Copy, PartialEq, Eq, Structural)]
pub enum SelectError {
    /// dependency not found
    DependencyNotFound,
}

/// No two templates have the same name.
pub open spec fn names_distinct(tpls: Seq<TemplateInfo>) -> bool {
    forall|a: int, b: int| 0 <= a < tpls.len() && 0 <= b < tpls.len() && a != b ==> tpls[a].name@ != tpls[b].name@
}

/// A template is processed for its own sake: when a list of templates to
/// process (`only`) is given, it is on it; else, when a list
/// to skip is given, it is not on it; else every template is.
pub open spec fn is_root(t: TemplateInfo, only: Seq<Seq<char>>, skip: Seq<Seq<char>>) -> bool {
    if only.len() > 0 {
        only.contains(t.name@)
    } else if skip.len() > 0 {
        !skip.contains(t.name@)
    } else {
        true
    }
}

/// Template `k` is named `name`.
pub open spec fn named(tpls: Seq<TemplateInfo>, name: Seq<char>, k: int) -> bool {
    0 <= k < tpls.len() && tpls[k].name@ == name
}

/// Template `i` needs template `j`.
pub open spec fn depends_on(tpls: Seq<TemplateInfo>, i: int, j: int) -> bool {
    0 <= i < tpls.len() && exists|d: int|
        0 <= d < tpls[i].cfg.depends@.len() && #[trigger] named(tpls, tpls[i].cfg.depends@[d]@, j)
}

/// `c` leads from a template processed for its own sake, through what
/// each needs, to its last template.
pub open spec fn is_chain(tpls: Seq<TemplateInfo>, only: Seq<Seq<char>>, skip: Seq<Seq<char>>, c: Seq<int>) -> bool {
    &&& c.len() >= 1
    &&& 0 <= c[0] < tpls.len()
    &&& is_root(tpls[c[0]], only, skip)
    &&& forall|k: int| 0 <= k < c.len() - 1 ==> #[trigger] depends_on(tpls, c[k], c[k + 1])
}

/// Template `j` is processed: for its own sake, or because one that is
/// processed needs it.
pub open spec fn selected(tpls: Seq<TemplateInfo>, only: Seq<Seq<char>>, skip: Seq<Seq<char>>, j: int) -> bool {
    exists|c: Seq<int>| #[trigger] is_chain(tpls, only, skip, c) && c.last() == j
}

/// Some processed template needs a template that does not exist.
pub open spec fn dependency_missing(tpls: Seq<TemplateInfo>, only: Seq<Seq<char>>, skip: Seq<Seq<char>>) -> bool {
    exists|i: int, d: int| selected(tpls, only, skip, i) && #[trigger] needs_missing(tpls, i, d)
}

/// Template `i` needs, as its `d`-th dependency, a template that does not
/// exist.
pub open spec fn needs_missing(tpls: Seq<TemplateInfo>, i: int, d: int) -> bool {
    &&& 0 <= i < tpls.len()
    &&& 0 <= d < tpls[i].cfg.depends@.len()
    &&& !exists|k: int| #[trigger] named(tpls, tpls[i].cfg.depends@[d]@, k)
}

/// The `d`-th dependency of template `i` exists and is marked in `seen`.
pub open spec fn dep_found(tpls: Seq<TemplateInfo>, seen: Seq<bool>, i: int, d: int) -> bool {
    exists|k: int| #[trigger] named(tpls, tpls[i].cfg.depends@[d]@, k) && seen[k]
}

/// How many flags are set.
pub open spec fn count_true(s: Seq<bool>) -> nat
    decreases s.len(),
{
    if s.len() == 0 {
        0
    } else {
        count_true(s.drop_last()) + if s.last() {
            1nat
        } else {
            0nat
        }
    }
}

/// Setting a flag that is clear counts one more; there are no more set
/// flags than flags.
pub(crate) proof fn lemma_count_true(s: Seq<bool>, i: int)
    requires
        0 <= i < s.len(),
        !s[i],
    ensures
        count_true(s.update(i, true)) == count_true(s) + 1,
        count_true(s) < s.len(),
    decreases s.len(),
{
    let t = s.update(i, true);
    if i == s.len() - 1 {
        assert(t.drop_last() =~= s.drop_last());
        lemma_count_le(s.drop_last());
    } else {
        assert(t.drop_last() =~= s.drop_last().update(i, true));
        lemma_count_true(s.drop_last(), i);
    }
}

/// There are no more set flags than flags.
pub(crate) proof fn lemma_count_le(s: Seq<bool>)
    ensures
        count_true(s) <= s.len(),
    decreases s.len(),
{
    if s.len() > 0 {
        lemma_count_le(s.drop_last());
    }
}

/// No flag set, none counted.
pub(crate) proof fn lemma_count_none(s: Seq<bool>)
    requires
        forall|k: int| 0 <= k < s.len() ==> !s[k],
    ensures
        count_true(s) == 0,
    decreases s.len(),
{
    if s.len() > 0 {
        lemma_count_none(s.drop_last());
    }
}

/// The template named `name`, if there is one.
fn find_template(tpls: &Vec<TemplateInfo>, name: &str) -> (r: Option<usize>)
    ensures
        match r {
            Some(k) => named(tpls@, name@, k as int),
            None => forall|k: int| !#[trigger] named(tpls@, name@, k),
        },
{
    let mut k: usize = 0;
    while k < tpls.len()
        invariant
            0 <= k <= tpls@.len(),
            forall|j: int| 0 <= j < k ==> tpls@[j].name@ != name@,
        decreases tpls@.len() - k,
    {
        if str_eq(tpls[k].name.as_str(), name) {
            return Some(k);
        }
        k = k + 1;
    }
    None
}

/// Whether `v` holds a string with the characters of `s`.
fn contains_text(v: &Vec<String>, s: &str) -> (r: bool)
    ensures
        r == texts(v@).contains(s@),
{
    let mut i: usize = 0;
    while i < v.len()
        invariant
            0 <= i <= v@.len(),
            forall|k: int| 0 <= k < i ==> v@[k]@ != s@,
        decreases v@.len() - i,
    {
        if str_eq(v[i].as_str(), s) {
            proof {
                assert(texts(v@)[i as int] == s@);
            }
            return true;
        }
        i = i + 1;
    }
    proof {
        if texts(v@).contains(s@) {
            let k = choose|k: int| 0 <= k < texts(v@).len() && texts(v@)[k] == s@;
            assert(v@[k]@ == s@);
        }
    }
    false
}

/// A template that a processed one needs is processed.
proof fn lemma_selected_step(
    tpls: Seq<TemplateInfo>,
    only: Seq<Seq<char>>,
    skip: Seq<Seq<char>>,
    h: int,
    j: int,
)
    requires
        selected(tpls, only, skip, h),
        depends_on(tpls, h, j),
    ensures
        selected(tpls, only, skip, j),
{
    let c = choose|c: Seq<int>| #[trigger] is_chain(tpls, only, skip, c) && c.last() == h;
    let c2 = c.push(j);
    assert forall|k: int| 0 <= k < c2.len() - 1 implies #[trigger] depends_on(tpls, c2[k], c2[k + 1]) by {
        if k < c.len() - 1 {
            assert(c2[k] == c[k] && c2[k + 1] == c[k + 1]);
        } else {
            assert(c2[k] == h && c2[k + 1] == j);
        }
    }
    assert(is_chain(tpls, only, skip, c2));
}

/// In a set of templates that holds every root and what each of its
/// members needs, every processed template is.
proof fn lemma_chain_closed(
    tpls: Seq<TemplateInfo>,
    only: Seq<Seq<char>>,
    skip: Seq<Seq<char>>,
    seen: Seq<bool>,
    c: Seq<int>,
)
    requires
        seen.len() == tpls.len(),
        names_distinct(tpls),
        is_chain(tpls, only, skip, c),
        forall|i: int| 0 <= i < tpls.len() && is_root(tpls[i], only, skip) ==> seen[i],
        forall|i: int, d: int|
            0 <= i < tpls.len() && seen[i] && 0 <= d < tpls[i].cfg.depends@.len() ==> #[trigger] dep_found(
                tpls,
                seen,
                i,
                d,
            ),
    ensures
        seen[c.last()],
    decreases c.len(),
{
    if c.len() > 1 {
        let init = c.drop_last();
        assert forall|k: int| 0 <= k < init.len() - 1 implies #[trigger] depends_on(tpls, init[k], init[k + 1]) by {
            assert(depends_on(tpls, c[k], c[k + 1]));
        }
        lemma_chain_closed(tpls, only, skip, seen, init);
        let m = c.len() - 2;
        let h = c[m];
        let j = c.last();
        assert(depends_on(tpls, c[m], c[m + 1]));
        assert(c[m + 1] == j);
        let d = choose|d: int| 0 <= d < tpls[h].cfg.depends@.len() && #[trigger] named(tpls, tpls[h].cfg.depends@[d]@, j);
        assert(dep_found(tpls, seen, h, d));
        let k = choose|k: int| #[trigger] named(tpls, tpls[h].cfg.depends@[d]@, k) && seen[k];
        assert(k == j);
    }
}

/// The templates to process, as positions in `tpls`, each once: those
/// processed for their own sake, and every template that a processed one
/// needs. It fails when a processed template needs a template that does
/// not exist.
pub fn select_templates(tpls: &Vec<TemplateInfo>, only: &Vec<String>, skip: &Vec<String>) -> (r: Result<
    Vec<usize>,
    SelectError,
>)
    requires
        names_distinct(tpls@),
    ensures
        match r {
            Err(_) => dependency_missing(tpls@, texts(only@), texts(skip@)),
            Ok(v) => {
                &&& !dependency_missing(tpls@, texts(only@), texts(skip@))
                &&& forall|k: int| 0 <= k < v@.len() ==> #[trigger] v@[k] < tpls@.len()
                &&& forall|j: int|
                    0 <= j < tpls@.len() ==> (v@.contains(j as usize) <==> selected(
                        tpls@,
                        texts(only@),
                        texts(skip@),
                        j,
                    ))
                &&& v@.no_duplicates()
            },
        },
{
    let ghost o = texts(only@);
    let ghost sk = texts(skip@);
    let ghost t = tpls@;
    let n = tpls.len();
    let mut seen: Vec<bool> = Vec::new();
    let mut queue: Vec<usize> = Vec::new();
    let mut i: usize = 0;
    while i < n
        invariant
            n == t.len(),
            t == tpls@,
            o == texts(only@),
            sk == texts(skip@),
            0 <= i <= n,
            seen@.len() == i,
            forall|k: int| 0 <= k < i ==> (seen@[k] <==> is_root(t[k], o, sk)),
            forall|k: int| 0 <= k < queue@.len() ==> #[trigger] queue@[k] < i && seen@[queue@[k] as int],
            forall|k: int| 0 <= k < i && seen@[k] ==> queue@.contains(k as usize),
            queue@.no_duplicates(),
            queue@.len() == count_true(seen@),
        decreases n - i,
    {
        let name = tpls[i].name.as_str();
        let root = if only.len() > 0 {
            contains_text(only, name)
        } else if skip.len() > 0 {
            !contains_text(skip, name)
        } else {
            true
        };
        let ghost s0 = seen@;
        let ghost q0 = queue@;
        seen.push(root);
        proof {
            assert(seen@.drop_last() =~= s0);
        }
        if root {
            queue.push(i);
            proof {
                assert forall|a: int, b: int| 0 <= a < queue@.len() && 0 <= b < queue@.len() && a != b implies queue@[a]
                    != queue@[b] by {
                    if a < q0.len() && b < q0.len() {
                    } else if a < q0.len() {
                        assert(q0[a] < i);
                    } else {
                        assert(q0[b] < i);
                    }
                }
                assert forall|k: int| 0 <= k < i + 1 && seen@[k] implies queue@.contains(k as usize) by {
                    if k < i {
                        assert(s0[k]);
                        let m = choose|m: int| 0 <= m < q0.len() && q0[m] == k as usize;
                        assert(queue@[m] == k as usize);
                    } else {
                        assert(queue@[q0.len() as int] == i);
                    }
                }
            }
        } else {
            proof {
                assert forall|k: int| 0 <= k < i + 1 && seen@[k] implies queue@.contains(k as usize) by {
                    assert(s0[k]);
                }
            }
        }
        i = i + 1;
    }
    proof {
        lemma_count_le(seen@);
        assert forall|k: int| 0 <= k < queue@.len() implies selected(t, o, sk, #[trigger] queue@[k] as int) by {
            let j = queue@[k] as int;
            assert(is_chain(t, o, sk, seq![j]));
        }
    }
    let mut qi: usize = 0;
    while qi < queue.len()
        invariant
            n == t.len(),
            t == tpls@,
            o == texts(only@),
            sk == texts(skip@),
            names_distinct(t),
            seen@.len() == n,
            0 <= qi <= queue@.len(),
            queue@.len() == count_true(seen@),
            count_true(seen@) <= n,
            queue@.no_duplicates(),
            forall|k: int| 0 <= k < n && is_root(t[k], o, sk) ==> seen@[k],
            forall|k: int| 0 <= k < queue@.len() ==> #[trigger] queue@[k] < n && seen@[queue@[k] as int],
            forall|k: int| 0 <= k < n && seen@[k] ==> queue@.contains(k as usize),
            forall|k: int| 0 <= k < queue@.len() ==> selected(t, o, sk, #[trigger] queue@[k] as int),
            forall|m: int, d: int|
                0 <= m < qi && 0 <= d < t[queue@[m] as int].cfg.depends@.len() ==> #[trigger] dep_found(
                    t,
                    seen@,
                    queue@[m] as int,
                    d,
                ),
        decreases n - qi,
    {
        let h = queue[qi];
        let deps = &tpls[h].cfg.depends;
        let mut d: usize = 0;
        while d < deps.len()
            invariant
                n == t.len(),
                t == tpls@,
                o == texts(only@),
                sk == texts(skip@),
                names_distinct(t),
                h == queue@[qi as int],
                deps == t[h as int].cfg.depends,
                seen@.len() == n,
                0 <= qi < queue@.len(),
                0 <= d <= deps@.len(),
                queue@.len() == count_true(seen@),
                count_true(seen@) <= n,
                queue@.no_duplicates(),
                forall|k: int| 0 <= k < n && is_root(t[k], o, sk) ==> seen@[k],
                forall|k: int| 0 <= k < queue@.len() ==> #[trigger] queue@[k] < n && seen@[queue@[k] as int],
                forall|k: int| 0 <= k < n && seen@[k] ==> queue@.contains(k as usize),
                forall|k: int| 0 <= k < queue@.len() ==> selected(t, o, sk, #[trigger] queue@[k] as int),
                forall|m: int, e: int|
                    0 <= m < qi && 0 <= e < t[queue@[m] as int].cfg.depends@.len() ==> #[trigger] dep_found(
                        t,
                        seen@,
                        queue@[m] as int,
                        e,
                    ),
                forall|e: int| 0 <= e < d ==> #[trigger] dep_found(t, seen@, h as int, e),
            decreases deps@.len() - d,
        {
            match find_template(tpls, deps[d].as_str()) {
                None => {
                    proof {
                        assert(selected(t, o, sk, h as int));
                        assert(needs_missing(t, h as int, d as int));
                    }
                    return Err(SelectError::DependencyNotFound);
                },
                Some(j) => {
                    proof {
                        assert(depends_on(t, h as int, j as int)) by {
                            assert(named(t, t[h as int].cfg.depends@[d as int]@, j as int));
                        }
                        lemma_selected_step(t, o, sk, h as int, j as int);
                    }
                    if !seen[j] {
                        let ghost s0 = seen@;
                        let ghost q0 = queue@;
                        proof {
                            lemma_count_true(s0, j as int);
                            assert(!q0.contains(j));
                        }
                        seen.set(j, true);
                        queue.push(j);
                        proof {
                            assert forall|a: int, b: int|
                                0 <= a < queue@.len() && 0 <= b < queue@.len() && a != b implies queue@[a] != queue@[b] by {
                                if a < q0.len() && b < q0.len() {
                                } else if a < q0.len() {
                                    assert(q0.contains(q0[a]));
                                } else {
                                    assert(q0.contains(q0[b]));
                                }
                            }
                            assert forall|k: int| 0 <= k < n && seen@[k] implies queue@.contains(k as usize) by {
                                if k != j {
                                    assert(s0[k]);
                                    let m = choose|m: int| 0 <= m < q0.len() && q0[m] == k as usize;
                                    assert(queue@[m] == k as usize);
                                } else {
                                    assert(queue@[q0.len() as int] == j);
                                }
                            }
                            assert forall|k: int| 0 <= k < queue@.len() implies selected(t, o, sk, #[trigger] queue@[k] as int) by {
                                if k < q0.len() {
                                    assert(queue@[k] == q0[k]);
                                }
                            }
                            assert forall|m: int, e: int|
                                0 <= m < qi && 0 <= e < t[queue@[m] as int].cfg.depends@.len() implies #[trigger] dep_found(
                                    t,
                                    seen@,
                                    queue@[m] as int,
                                    e,
                                ) by {
                                assert(queue@[m] == q0[m]);
                                assert(dep_found(t, s0, q0[m] as int, e));
                                let k = choose|k: int| #[trigger] named(t, t[q0[m] as int].cfg.depends@[e]@, k) && s0[k];
                                assert(seen@[k]);
                            }
                            assert forall|e: int| 0 <= e < d + 1 implies #[trigger] dep_found(t, seen@, h as int, e) by {
                                if e < d {
                                    assert(dep_found(t, s0, h as int, e));
                                    let k = choose|k: int| #[trigger] named(t, deps@[e]@, k) && s0[k];
                                    assert(seen@[k]);
                                } else {
                                    assert(named(t, deps@[e]@, j as int) && seen@[j as int]);
                                }
                            }
                        }
                    } else {
                        proof {
                            assert(named(t, deps@[d as int]@, j as int) && seen@[j as int]);
                            assert(dep_found(t, seen@, h as int, d as int));
                        }
                    }
                },
            }
            d = d + 1;
        }
        proof {
            assert forall|m: int, e: int|
                0 <= m < qi + 1 && 0 <= e < t[queue@[m] as int].cfg.depends@.len() implies #[trigger] dep_found(
                    t,
                    seen@,
                    queue@[m] as int,
                    e,
                ) by {
                if m == qi {
                    assert(queue@[m] == h);
                }
            }
        }
        qi = qi + 1;
    }
    proof {
        assert forall|i: int, e: int|
            0 <= i < t.len() && seen@[i] && 0 <= e < t[i].cfg.depends@.len() implies #[trigger] dep_found(
                t,
                seen@,
                i,
                e,
            ) by {
            let m = choose|m: int| 0 <= m < queue@.len() && queue@[m] == i as usize;
            assert(queue@[m] as int == i);
            assert(dep_found(t, seen@, queue@[m] as int, e));
        }
        assert forall|j: int| 0 <= j < n implies (queue@.contains(j as usize) <==> selected(t, o, sk, j)) by {
            if selected(t, o, sk, j) {
                let c = choose|c: Seq<int>| #[trigger] is_chain(t, o, sk, c) && c.last() == j;
                lemma_chain_closed(t, o, sk, seen@, c);
            }
            if queue@.contains(j as usize) {
                let m = choose|m: int| 0 <= m < queue@.len() && queue@[m] == j as usize;
                assert(selected(t, o, sk, queue@[m] as int));
            }
        }
        if dependency_missing(t, o, sk) {
            let (i, e) = choose|i: int, e: int| selected(t, o, sk, i) && #[trigger] needs_missing(t, i, e);
            let c = choose|c: Seq<int>| #[trigger] is_chain(t, o, sk, c) && c.last() == i;
            lemma_chain_closed(t, o, sk, seen@, c);
            assert(dep_found(t, seen@, i, e));
            let k = choose|k: int| #[trigger] named(t, t[i].cfg.depends@[e]@, k) && seen@[k];
            assert(false);
        }
    }
    Ok(queue)
}

/// Argument `a` is the path `p`, as text.
pub open spec fn arg_is_path(a: PathArg, p: Seq<char>) -> bool {
    match a {
        PathArg::Text(q) => q@ == p,
        _ => false,
    }
}

/// The trace event of kind `kind` for system call `name` with arguments
/// `args`, failed or not.
pub open spec fn syscall_event(kind: String, name: String, args: Vec<PathArg>, failed: bool) -> TraceItem {
    TraceItem::Event {
        kind,
        data: Some(SyscallInfo { name: Field::Value(name), args: Field::Value(args), failed }),
    }
}

/// A successful `execve`, `access`, `open` or `lstat`, seen on entry or on
/// exit, whose first argument is a path names that path as a file the
/// toolchain uses: the collector keeps it. So does a successful `openat`
/// with its second argument.
pub proof fn lemma_file_calls_collect_their_path(kind: String, name: String, args: Vec<PathArg>, p: Seq<char>)
    requires
        kind@ == "sysenter"@ || kind@ == "sysexit"@,
        ((name@ == "execve"@ || name@ == "access"@ || name@ == "open"@ || name@ == "lstat"@) && args@.len() > 0
            && arg_is_path(args@[0], p)) || (name@ == "openat"@ && args@.len() > 1 && arg_is_path(args@[1], p)),
    ensures
        item_outcome(syscall_event(kind, name, args, false)) == Ok::<Option<Seq<char>>, DepErrorView>(Some(p)),
        item_has_path_arg(syscall_event(kind, name, args, false)),
{
    reveal_strlit("attach");
    reveal_strlit("exit");
    reveal_strlit("signal");
    reveal_strlit("sysenter");
    reveal_strlit("sysexit");
    reveal_strlit("execve");
    reveal_strlit("access");
    reveal_strlit("open");
    reveal_strlit("lstat");
    reveal_strlit("openat");
    assert("attach"@.len() == 6 && "exit"@.len() == 4 && "signal"@.len() == 6);
    assert("sysenter"@.len() == 8 && "sysexit"@.len() == 7);
    assert("sysexit"@[1] == 'y' && "signal"@[1] == 'i');
    assert("execve"@.len() == 6 && "access"@.len() == 6 && "open"@.len() == 4 && "lstat"@.len() == 5);
    assert("openat"@.len() == 6 && "openat"@[0] == 'o' && "execve"@[0] == 'e' && "access"@[0] == 'a');
    assert(kind@ != "attach"@ && kind@ != "exit"@ && kind@ != "signal"@);
    if name@ == "execve"@ || name@ == "access"@ || name@ == "open"@ || name@ == "lstat"@ {
        assert(path_index(name@) == Some(0int));
        assert(arg_is_path(args@[0], p));
    } else {
        assert(name@ == "openat"@);
        assert(path_index(name@) == Some(1int));
        assert(arg_is_path(args@[1], p));
    }
}

/// A system call that fails names no file, whatever it is.
pub proof fn lemma_failed_calls_collect_nothing(kind: String, name: String, args: Vec<PathArg>)
    requires
        kind@ == "sysenter"@ || kind@ == "sysexit"@,
    ensures
        item_outcome(syscall_event(kind, name, args, true)) == Ok::<Option<Seq<char>>, DepErrorView>(None),
{
    reveal_strlit("attach");
    reveal_strlit("exit");
    reveal_strlit("signal");
    reveal_strlit("sysenter");
    reveal_strlit("sysexit");
}

} // verus!
