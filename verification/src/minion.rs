//! Sandbox vocabulary: how a sandbox ("dominion") is configured, how a child
//! process gets its stdio, what a sandbox reports, and the few decisions the
//! Linux backend takes on plain values (flags sent back by the sandbox,
//! user ids derived from a jail id, quotas of a tmpfs).
use vstd::prelude::*;
use vstd::string::StringSliceAdditionalSpecFns;
use core::time::Duration;
use std::collections::hash_map::DefaultHasher;
use std::hash::Hasher;
use vstd::std_specs::hash::DefaultHasherAdditionalSpecFns;

verus! {

/// Access a sandboxed process gets to an exposed path.
///
/// Warning: this type is __unstable__ (i.e. not covered by SemVer) and __non-portable__
#[derive(Debug, Clone, Copy, PartialEq, Eq, Structural)]
pub enum DesiredAccess {
    Readonly,
    Full,
}

/// A directory of the host shown inside the sandbox.
#[derive(Debug, Clone)]
pub struct PathExpositionOptions {
    /// Path on system
    pub src: String,
    /// Path for child
    pub dest: String,
    pub access: DesiredAccess,
}

/// This struct is returned by `Dominion::query_usage_data`
/// It represents various resource usage
/// Some items can be absent or rounded
#[derive(Debug, Clone, Copy)]
pub struct ResourceUsageData {
    /// Total CPU time usage in nanoseconds
    pub time: Option<u64>,
    /// Max memory usage in bytes
    pub memory: Option<usize>,
}

/// Configuration of a sandbox.
#[derive(Debug)]
pub struct DominionOptions {
    pub max_alive_process_count: u32,
    /// Memory limit for all processes in cgroup, in bytes
    pub memory_limit: u64,
    /// Specifies total CPU time for whole dominion
    pub cpu_time_limit: Duration,
    /// Specifies total wall-clock timer limit for whole dominion
    pub real_time_limit: Duration,
    pub isolation_root: String,
    pub exposed_paths: Vec<PathExpositionOptions>,
}

/// Whether path `p` begins with the root directory: on Unix, whether it
/// begins with `/`.
pub open spec fn path_has_root(p: Seq<char>) -> bool {
    p.len() > 0 && p[0] == '/'
}

/// Path `p` without its root directory, as `std::path::Path` strips it.
pub uninterp spec fn path_without_root(p: Seq<char>) -> Seq<char>;

/// Calls `std::path::Path::starts_with` with `"/"`: whether the first
/// component of `p` is the root directory, which on Unix is whether `p`
/// begins with `/`.
#[verifier::external_body]
fn starts_with_root(p: &str) -> (r: bool)
    ensures
        r == path_has_root(p@),
{
    std::path::Path::new(p).starts_with("/")
}

/// Calls `std::path::Path::strip_prefix` with `"/"` and converts the rest
/// to a `String`. `std` documents that the call succeeds exactly when `p`
/// starts with `"/"`, which `requires` demands. The contract names the
/// result.
#[verifier::external_body]
fn strip_root(p: &str) -> (r: String)
    requires
        path_has_root(p@),
    ensures
        r@ == path_without_root(p@),
{
    match std::path::Path::new(p).strip_prefix("/") {
        Ok(rest) => rest.to_string_lossy().into_owned(),
        Err(_) => String::new(),
    }
}

/// `p` relative to the root: an absolute path loses its root.
pub open spec fn spec_make_relative(p: Seq<char>) -> Seq<char> {
    if path_has_root(p) {
        path_without_root(p)
    } else {
        p
    }
}

impl DominionOptions {
    /// `p` made relative: an absolute path loses its root directory.
    pub fn make_relative(&self, p: &str) -> (r: String)
        ensures
            r@ == spec_make_relative(p@),
    {
        if starts_with_root(p) {
            strip_root(p)
        } else {
            p.to_owned()
        }
    }

    /// Makes the destination of every exposed path relative.
    pub fn postprocess(&mut self)
        ensures
            final(self).max_alive_process_count == old(self).max_alive_process_count,
            final(self).memory_limit == old(self).memory_limit,
            final(self).cpu_time_limit == old(self).cpu_time_limit,
            final(self).real_time_limit == old(self).real_time_limit,
            final(self).isolation_root == old(self).isolation_root,
            final(self).exposed_paths@.len() == old(self).exposed_paths@.len(),
            forall|i: int|
                0 <= i < final(self).exposed_paths@.len() ==> {
                    &&& (#[trigger] final(self).exposed_paths@[i]).src == old(self).exposed_paths@[i].src
                    &&& final(self).exposed_paths@[i].access == old(self).exposed_paths@[i].access
                    &&& final(self).exposed_paths@[i].dest@ == spec_make_relative(old(self).exposed_paths@[i].dest@)
                },
    {
        let n = self.exposed_paths.len();
        let mut paths: Vec<PathExpositionOptions> = Vec::new();
        let mut i: usize = 0;
        while i < n
            invariant
                n == self.exposed_paths@.len(),
                *self == *old(self),
                0 <= i <= n,
                paths@.len() == i,
                forall|j: int|
                    0 <= j < i ==> {
                        &&& (#[trigger] paths@[j]).src == old(self).exposed_paths@[j].src
                        &&& paths@[j].access == old(self).exposed_paths@[j].access
                        &&& paths@[j].dest@ == spec_make_relative(old(self).exposed_paths@[j].dest@)
                    },
            decreases n - i,
        {
            let x = &self.exposed_paths[i];
            let dest = self.make_relative(x.dest.as_str());
            paths.push(PathExpositionOptions { src: x.src.clone(), dest, access: x.access });
            i = i + 1;
        }
        self.exposed_paths = paths;
    }
}

/// How stdin of a child is provided.
#[derive(Debug, Clone, Copy, PartialEq, Eq, Structural)]
pub enum InputSpecificationData {
    Null,
    Empty,
    Pipe,
    Handle(u64),
}

/// Configures stdin for child
#[derive(Debug, Clone, Copy)]
pub struct InputSpecification(pub InputSpecificationData);

impl InputSpecification {
    /// Stdin reads from the null device.
    pub fn null() -> (r: Self)
        ensures
            r.0 == InputSpecificationData::Null,
    {
        Self(InputSpecificationData::Null)
    }

    /// Stdin is empty.
    pub fn empty() -> (r: Self)
        ensures
            r.0 == InputSpecificationData::Empty,
    {
        Self(InputSpecificationData::Empty)
    }

    /// Stdin is a pipe the parent writes to.
    pub fn pipe() -> (r: Self)
        ensures
            r.0 == InputSpecificationData::Pipe,
    {
        Self(InputSpecificationData::Pipe)
    }
}

/// How stdout or stderr of a child is kept.
#[derive(Debug, Clone, Copy, PartialEq, Eq, Structural)]
pub enum OutputSpecificationData {
    Null,
    Ignore,
    Pipe,
    Buffer(Option<usize>),
    Handle(u64),
}

/// Configures stdout and stderr for child
#[derive(Debug, Clone, Copy)]
pub struct OutputSpecification(pub OutputSpecificationData);

impl OutputSpecification {
    /// Output goes to the null device.
    pub fn null() -> (r: Self)
        ensures
            r.0 == OutputSpecificationData::Null,
    {
        Self(OutputSpecificationData::Null)
    }

    /// Output is dropped.
    pub fn ignore() -> (r: Self)
        ensures
            r.0 == OutputSpecificationData::Ignore,
    {
        Self(OutputSpecificationData::Ignore)
    }

    /// Output is a pipe the parent reads from.
    pub fn pipe() -> (r: Self)
        ensures
            r.0 == OutputSpecificationData::Pipe,
    {
        Self(OutputSpecificationData::Pipe)
    }

    /// Output is kept in a buffer of `size` bytes.
    pub fn buffer(size: usize) -> (r: Self)
        ensures
            r.0 == OutputSpecificationData::Buffer(Some(size)),
    {
        Self(OutputSpecificationData::Buffer(Some(size)))
    }

    /// Output is kept in a buffer without limit.
    pub fn unbounded_buffer() -> (r: Self)
        ensures
            r.0 == OutputSpecificationData::Buffer(None),
    {
        Self(OutputSpecificationData::Buffer(None))
    }
}

/// Specifies how to provide child stdio
#[derive(Debug, Clone, Copy)]
pub struct StdioSpecification {
    pub stdin: InputSpecification,
    pub stdout: OutputSpecification,
    pub stderr: OutputSpecification,
}

/// Who is to blame for an error.
#[derive(Debug, Clone, Copy, PartialEq, Eq, Structural)]
pub enum ErrorKind {
    /// This error typically means that isolated process tried to break its sandbox
    Sandbox,
    /// Bug in code, using minion, or in minion itself
    System,
}

/// Error of a sandbox operation.
#[derive(Debug, Clone)]
pub enum Error {
    /// requested operation is not supported by backend
    NotSupported,
    /// system call failed in undesired fashion
    System { code: i32 },
    /// io error, with its description
    Io { message: String },
    /// sandbox interaction failed
    Sandbox,
    /// unknown error
    Unknown,
}

/// Who is to blame for error `e`.
pub open spec fn spec_error_kind(e: Error) -> ErrorKind {
    match e {
        Error::Sandbox => ErrorKind::Sandbox,
        _ => ErrorKind::System,
    }
}

impl Error {
    /// Who is to blame: only a failed sandbox interaction is the sandbox's.
    pub fn kind(&self) -> (r: ErrorKind)
        ensures
            r == spec_error_kind(*self),
    {
        match self {
            Error::NotSupported => ErrorKind::System,
            Error::System { .. } => ErrorKind::System,
            Error::Io { .. } => ErrorKind::System,
            Error::Sandbox => ErrorKind::Sandbox,
            Error::Unknown => ErrorKind::System,
        }
    }

    /// The error is a bug or a system failure.
    pub fn is_system(&self) -> (r: bool)
        ensures
            r == (spec_error_kind(*self) == ErrorKind::System),
    {
        self.kind() == ErrorKind::System
    }

    /// The isolated process misbehaved.
    pub fn is_sandbox(&self) -> (r: bool)
        ensures
            r == (spec_error_kind(*self) == ErrorKind::Sandbox),
    {
        self.kind() == ErrorKind::Sandbox
    }
}

/// Returned by [ChildProcess::wait_for_exit]
#[derive(Debug, Clone, Copy, PartialEq, Eq, Structural)]
pub enum WaitOutcome {
    /// Child process has exited during `wait_for_exit`
    Exited,
    /// Child process has exited before `wait_for_exit` and it is somehow already reported
    AlreadyFinished,
    /// Child process hasn't exited during `timeout` period
    Timeout,
}

/// Represents highly-isolated sandbox
pub trait Dominion {
    fn id(&self) -> String;

    /// Returns true if dominion exceeded CPU time limit
    fn check_cpu_tle(&self) -> Result<bool, Error>;

    /// Returns true if dominion exceeded wall-clock time limit
    fn check_real_tle(&self) -> Result<bool, Error>;
}

/// Represents child process.
pub trait ChildProcess {
    /// Returns exit code, if process had exited by the moment of call, or None otherwise.
    fn get_exit_code(&self) -> Result<Option<i64>, Error>;

    /// Waits for child process exit with timeout
    fn wait_for_exit(&self, timeout: Duration) -> Result<WaitOutcome, Error>;

    /// Refreshes information about process
    fn poll(&self) -> Result<(), Error>;

    /// Returns whether child process has exited by the moment of call
    /// This function doesn't blocks on waiting (see `wait_for_exit`).
    fn is_finished(&self) -> Result<bool, Error>;
}

/// What the sandbox reported about its time limits so far.
#[derive(Debug, Clone, Copy)]
pub struct DominionState {
    /// CPU time limit was exceeded
    pub was_cpu_tle: bool,
    /// Wall-clock time limit was exceeded
    pub was_wall_tle: bool,
}

impl DominionState {
    /// Takes a flag byte sent by the sandbox watchdog: `c` reports the CPU
    /// time limit, `r` the wall-clock one; anything else is a sandbox error.
    pub fn process_flag(&mut self, ch: u8) -> (r: Result<(), Error>)
        ensures
            ch == 99u8 ==> r is Ok && *final(self) == (DominionState { was_cpu_tle: true, ..*old(self) }),
            ch == 114u8 ==> r is Ok && *final(self) == (DominionState { was_wall_tle: true, ..*old(self) }),
            ch != 99u8 && ch != 114u8 ==> (r matches Err(Error::Sandbox)) && *final(self) == *old(self),
    {
        if ch == 99u8 {
            self.was_cpu_tle = true;
        } else if ch == 114u8 {
            self.was_wall_tle = true;
        } else {
            return Err(Error::Sandbox);
        }
        Ok(())
    }

    /// Takes the flag bytes that one read of the watchdog channel gave, in
    /// order, up to the first byte that is no flag.
    pub fn process_flags(&mut self, bytes: &Vec<u8>) -> (r: Result<(), Error>)
        ensures
            (r is Ok) == (flag_prefix(bytes@) == bytes@.len()),
            r is Err ==> r matches Err(Error::Sandbox),
            *final(self) == flags_after(*old(self), bytes@.take(flag_prefix(bytes@) as int)),
    {
        let n = bytes.len();
        let mut i: usize = 0;
        proof {
            assert(bytes@.take(0) =~= Seq::<u8>::empty());
        }
        while i < n
            invariant
                n == bytes@.len(),
                0 <= i <= n,
                forall|k: int| 0 <= k < i ==> is_flag(#[trigger] bytes@[k]),
                *self == flags_after(*old(self), bytes@.take(i as int)),
            decreases n - i,
        {
            let ghost s0 = *self;
            proof {
                assert(bytes@.take(i + 1).drop_last() =~= bytes@.take(i as int));
            }
            let res = self.process_flag(bytes[i]);
            if res.is_err() {
                proof {
                    lemma_flag_prefix(bytes@, i as int);
                }
                return res;
            }
            i = i + 1;
        }
        proof {
            lemma_flag_prefix(bytes@, n as int);
            assert(bytes@.take(n as int) =~= bytes@);
        }
        Ok(())
    }
}

impl DominionState {
    /// Takes the flag bytes `read` from the watchdog channel, then tells
    /// whether the CPU time limit was exceeded so far: it was once a `c`
    /// came, in this read or an earlier one.
    pub fn check_cpu_tle(&mut self, read: &Vec<u8>) -> (r: Result<bool, Error>)
        ensures
            *final(self) == flags_after(*old(self), read@.take(flag_prefix(read@) as int)),
            (r is Ok) == (flag_prefix(read@) == read@.len()),
            r is Err ==> r matches Err(Error::Sandbox),
            r matches Ok(b) ==> b == final(self).was_cpu_tle && b == (old(self).was_cpu_tle || read@.contains(99u8)),
    {
        match self.process_flags(read) {
            Ok(()) => {
                proof {
                    assert(read@.take(read@.len() as int) =~= read@);
                    lemma_tle_flags_stay_set(*old(self), read@);
                }
                Ok(self.was_cpu_tle)
            },
            Err(e) => Err(e),
        }
    }

    /// Takes the flag bytes `read` from the watchdog channel, then tells
    /// whether the wall-clock time limit was exceeded so far: it was once an
    /// `r` came, in this read or an earlier one.
    pub fn check_real_tle(&mut self, read: &Vec<u8>) -> (r: Result<bool, Error>)
        ensures
            *final(self) == flags_after(*old(self), read@.take(flag_prefix(read@) as int)),
            (r is Ok) == (flag_prefix(read@) == read@.len()),
            r is Err ==> r matches Err(Error::Sandbox),
            r matches Ok(b) ==> b == final(self).was_wall_tle && b == (old(self).was_wall_tle || read@.contains(
                114u8,
            )),
    {
        match self.process_flags(read) {
            Ok(()) => {
                proof {
                    assert(read@.take(read@.len() as int) =~= read@);
                    lemma_tle_flags_stay_set(*old(self), read@);
                }
                Ok(self.was_wall_tle)
            },
            Err(e) => Err(e),
        }
    }
}

/// `b` is a flag byte of the watchdog: `c` or `r`.
pub open spec fn is_flag(b: u8) -> bool {
    b == 99u8 || b == 114u8
}

/// How many bytes of `bs` are flags before the first one that is not.
pub open spec fn flag_prefix(bs: Seq<u8>) -> nat
    decreases bs.len(),
{
    if bs.len() == 0 {
        0
    } else if is_flag(bs[0]) {
        1 + flag_prefix(bs.drop_first())
    } else {
        0
    }
}

/// The state after taking the flag bytes `bs` in order.
pub open spec fn flags_after(s: DominionState, bs: Seq<u8>) -> DominionState
    decreases bs.len(),
{
    if bs.len() == 0 {
        s
    } else {
        let t = flags_after(s, bs.drop_last());
        if bs.last() == 99u8 {
            DominionState { was_cpu_tle: true, ..t }
        } else if bs.last() == 114u8 {
            DominionState { was_wall_tle: true, ..t }
        } else {
            t
        }
    }
}

/// The first `i` bytes are flags exactly when `i` is at most the flag
/// prefix, and the prefix ends at a byte that is no flag.
proof fn lemma_flag_prefix(bs: Seq<u8>, i: int)
    requires
        0 <= i <= bs.len(),
        forall|k: int| 0 <= k < i ==> is_flag(#[trigger] bs[k]),
        i < bs.len() ==> !is_flag(bs[i]),
    ensures
        flag_prefix(bs) == i,
    decreases i,
{
    if i > 0 {
        let t = bs.drop_first();
        assert forall|k: int| 0 <= k < i - 1 implies is_flag(#[trigger] t[k]) by {
            assert(t[k] == bs[k + 1]);
        }
        if i - 1 < t.len() {
            assert(t[i - 1] == bs[i]);
        }
        lemma_flag_prefix(t, i - 1);
        assert(is_flag(bs[0]));
    }
}

/// A time limit flag, once the watchdog set it, stays set whatever flags
/// come after: the check of a limit that reported it exceeded keeps
/// reporting it.
pub proof fn lemma_tle_flags_stay_set(s: DominionState, bs: Seq<u8>)
    ensures
        s.was_cpu_tle ==> flags_after(s, bs).was_cpu_tle,
        s.was_wall_tle ==> flags_after(s, bs).was_wall_tle,
        flags_after(s, bs).was_cpu_tle == (s.was_cpu_tle || bs.contains(99u8)),
        flags_after(s, bs).was_wall_tle == (s.was_wall_tle || bs.contains(114u8)),
    decreases bs.len(),
{
    if bs.len() > 0 {
        let init = bs.drop_last();
        lemma_tle_flags_stay_set(s, init);
        assert(bs == init.push(bs.last()));
        assert(bs[bs.len() - 1] == bs.last());
        if init.contains(99u8) {
            let k = choose|k: int| 0 <= k < init.len() && init[k] == 99u8;
            assert(bs[k] == 99u8);
        }
        if init.contains(114u8) {
            let k = choose|k: int| 0 <= k < init.len() && init[k] == 114u8;
            assert(bs[k] == 114u8);
        }
        if bs.contains(99u8) {
            let k = choose|k: int| 0 <= k < bs.len() && bs[k] == 99u8;
            if k < init.len() {
                assert(init[k] == 99u8);
            }
        }
        if bs.contains(114u8) {
            let k = choose|k: int| 0 <= k < bs.len() && bs[k] == 114u8;
            if k < init.len() {
                assert(init[k] == 114u8);
            }
        }
    }
}

/// A tmpfs size, in bytes.
#[derive(Debug, Clone, Copy)]
pub struct Quota(pub u64);

/// Bytes in a mebibyte.
pub const MEBIBYTE: u64 = 1048576u64;

impl Quota {
    /// A quota of `bytes` bytes.
    pub fn bytes(bytes: u64) -> (r: Quota)
        ensures
            r.0 == bytes,
    {
        Quota(bytes)
    }

    /// A quota of `mibs` mebibytes.
    pub fn mebibytes(mibs: u64) -> (r: Quota)
        requires
            mibs * MEBIBYTE <= u64::MAX,
        ensures
            r.0 == mibs * MEBIBYTE,
    {
        Quota(mibs * MEBIBYTE)
    }
}

/// The user id derived from `jail_id`.
pub open spec fn spec_user_id(jail_id: Seq<u8>) -> int {
    DefaultHasher::spec_finish(seq![jail_id]) % 2_000_000 + 1_000_000
}

/// Derives user_ids (in range 1_000_000 to 3_000_000) from jail_id in deterministic way
pub fn derive_user_ids(jail_id: &str) -> (r: u32)
    ensures
        r == spec_user_id(jail_id.spec_bytes()),
        1_000_000 <= r < 3_000_000,
{
    let bytes = jail_id.as_bytes();
    let mut hasher = DefaultHasher::new();
    hasher.write(bytes);
    proof {
        assert(hasher@ =~= seq![bytes@]);
    }
    let h = hasher.finish();
    (h % 2_000_000 + 1_000_000) as u32
}

} // verus!
