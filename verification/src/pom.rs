//! Problem object model: limits, test descriptions and test identifiers.
use vstd::prelude::*;

verus! {

/// Default process count limit.
pub const DEFAULT_NUM_PROCS: u64 = 16;

/// Default memory limit in bytes (256 MiB).
pub const DEFAULT_MEMORY: u64 = 268435456;

/// Default time limit in milliseconds.
pub const DEFAULT_TIME: u64 = 3000;

/// Default working dir size limit in bytes (16 MiB).
pub const DEFAULT_WORK_DIR_SIZE: u64 = 16777216;

/// Resource limits of a test run. `None` means "use the default".
#[derive(Debug, Clone, Copy, PartialEq, Eq, Structural)]
pub struct Limits {
    /// Memory limit in bytes
    pub memory: Option<u64>,
    /// Time limit in milliseconds
    pub time: Option<u64>,
    /// Process count limit
    pub process_count: Option<u64>,
    /// Working dir size limit in bytes
    pub work_dir_size: Option<u64>,
}

/// The value of an optional limit, falling back to `default`.
pub open spec fn limit_or(v: Option<u64>, default: u64) -> u64 {
    match v {
        Some(x) => x,
        None => default,
    }
}

impl Limits {
    fn default_num_procs() -> (r: u64)
        ensures
            r == DEFAULT_NUM_PROCS,
    {
        16
    }

    fn default_memory() -> (r: u64)
        ensures
            r == DEFAULT_MEMORY,
    {
        256 * 1024 * 1024
    }

    fn default_time() -> (r: u64)
        ensures
            r == DEFAULT_TIME,
    {
        3000
    }

    fn default_work_dir_size() -> (r: u64)
        ensures
            r == DEFAULT_WORK_DIR_SIZE,
    {
        16 * 1024 * 1024
    }

    /// Time limit in milliseconds.
    pub fn time(self) -> (r: u64)
        ensures
            r == limit_or(self.time, DEFAULT_TIME),
    {
        match self.time {
            Some(t) => t,
            None => Self::default_time(),
        }
    }

    /// Memory limit in bytes.
    pub fn memory(self) -> (r: u64)
        ensures
            r == limit_or(self.memory, DEFAULT_MEMORY),
    {
        match self.memory {
            Some(m) => m,
            None => Self::default_memory(),
        }
    }

    /// Process count limit.
    pub fn process_count(self) -> (r: u64)
        ensures
            r == limit_or(self.process_count, DEFAULT_NUM_PROCS),
    {
        match self.process_count {
            Some(p) => p,
            None => Self::default_num_procs(),
        }
    }

    /// Working directory size limit in bytes.
    pub fn work_dir_size(self) -> (r: u64)
        ensures
            r == limit_or(self.work_dir_size, DEFAULT_WORK_DIR_SIZE),
    {
        match self.work_dir_size {
            Some(w) => w,
            None => Self::default_work_dir_size(),
        }
    }
}

/// The limits that every run gets unless told otherwise.
pub open spec fn default_limits() -> Limits {
    Limits {
        memory: Some(DEFAULT_MEMORY),
        time: Some(DEFAULT_TIME),
        process_count: Some(DEFAULT_NUM_PROCS),
        work_dir_size: Some(DEFAULT_WORK_DIR_SIZE),
    }
}

impl Default for Limits {
    fn default() -> (r: Limits)
        ensures
            r == default_limits(),
            r.memory == Some(DEFAULT_MEMORY),
            r.time == Some(DEFAULT_TIME),
            r.process_count == Some(DEFAULT_NUM_PROCS),
            r.work_dir_size == Some(DEFAULT_WORK_DIR_SIZE),
    {
        Limits {
            memory: Some(Limits::default_memory()),
            time: Some(Limits::default_time()),
            process_count: Some(Limits::default_num_procs()),
            work_dir_size: Some(Limits::default_work_dir_size()),
        }
    }
}

/// Base directory that a [`FileRef`] is relative to.
#[derive(Debug, Clone, Copy, PartialEq, Eq, Structural)]
pub enum FileRefRoot {
    Problem,
    Root,
}

/// Reference to a file of a problem package.
#[derive(Debug, Clone)]
pub struct FileRef {
    pub root: FileRefRoot,
    pub path: String,
}

/// Description of one test of a compiled problem.
#[derive(Debug, Clone)]
pub struct Test {
    pub path: FileRef,
    pub correct: Option<FileRef>,
    pub limits: Limits,
    pub group: String,
}

/// Identifier of a test. Test ids start from 1.
#[derive(Debug, Copy, Clone, PartialEq, Eq, Structural, Hash, PartialOrd, Ord)]
pub struct TestId {
    id: u32,
}

impl TestId {
    #[verifier::type_invariant]
    spec fn non_zero(self) -> bool {
        self.id != 0
    }

    /// The numeric value of the id.
    pub closed spec fn value(self) -> u32 {
        self.id
    }

    /// Creates `TestId` from `id`. `id` must not be 0.
    pub fn make(id: u32) -> (r: Self)
        requires
            id != 0,
        ensures
            r.value() == id,
    {
        TestId { id }
    }

    /// The numeric value of the id.
    pub fn get(self) -> (r: u32)
        ensures
            r == self.value(),
            r != 0,
    {
        proof {
            use_type_invariant(&self);
        }
        self.id
    }

    /// Zero-based index of the test.
    pub fn to_idx(self) -> (r: usize)
        ensures
            r == self.value() - 1,
    {
        proof {
            use_type_invariant(&self);
        }
        (self.id - 1) as usize
    }
}

/// The numeric value of a test id.
impl From<TestId> for u32 {
    fn from(t: TestId) -> (r: u32) {
        t.get()
    }
}

impl vstd::std_specs::convert::FromSpecImpl<TestId> for u32 {
    open spec fn obeys_from_spec() -> bool {
        true
    }

    open spec fn from_spec(t: TestId) -> u32 {
        t.value()
    }
}

/// Ids are equal exactly when their values are.
pub proof fn lemma_test_id_eq(a: TestId, b: TestId)
    ensures
        (a == b) <==> (a.value() == b.value()),
{
}

/// Compiled problem manifest.
#[derive(Debug, Clone)]
pub struct Problem {
    pub title: String,
    pub name: String,
    pub tests: Vec<Test>,
    pub checker_exe: FileRef,
    pub checker_cmd: Vec<String>,
    pub valuer_exe: FileRef,
    pub valuer_cfg: FileRef,
}

impl Problem {
    /// The test with the given id; the id must name one of the tests.
    pub fn test(&self, id: TestId) -> (r: &Test)
        requires
            id.value() <= self.tests@.len(),
        ensures
            *r == self.tests@[id.value() - 1],
    {
        let idx = id.to_idx();
        &self.tests[idx]
    }
}

} // verus!
