//! Data exchanged between the invoker and a valuer: test statuses, judge
//! logs and the valuer's commands.
use vstd::prelude::*;
use crate::pom::TestId;

verus! {

/// Kind of a run or test outcome.
#[derive(Debug, Clone, Copy, PartialEq, Eq, Structural, Hash, PartialOrd, Ord)]
pub enum StatusKind {
    Queue,
    /// WA, TLE, rejected by teacher, etc
    Rejected,
    /// e.g. Coding Style Violation
    CompilationError,
    /// Accepted, Ok, Partial
    Accepted,
    InternalError,
    Skipped,
    NotSet,
}

impl StatusKind {
    /// Whether this kind denotes a successful outcome.
    pub open spec fn spec_is_success(self) -> bool {
        self == StatusKind::Accepted
    }

    /// Whether this kind denotes a successful outcome.
    pub fn is_success(self) -> (r: bool)
        ensures
            r == self.spec_is_success(),
    {
        match self {
            StatusKind::Accepted => true,
            _ => false,
        }
    }
}

/// Outcome of a test: a machine-readable code and its kind.
#[derive(Debug, Clone)]
pub struct Status {
    pub code: String,
    pub kind: StatusKind,
}

impl Status {
    /// An exact copy of this status.
    pub fn duplicate(&self) -> (r: Status)
        ensures
            r == *self,
    {
        Status { code: self.code.clone(), kind: self.kind }
    }

    /// Status codes are equal and kinds are equal.
    pub fn same_as(&self, other: &Status) -> (r: bool)
        ensures
            r == (self.code@ == other.code@ && self.kind == other.kind),
    {
        self.code == other.code && self.kind == other.kind
    }
}

/// Which components of a test row are shown in a judge log.
#[derive(Debug, Clone, Copy, PartialEq, Eq, Structural, Hash)]
pub struct TestVisibleComponents {
    pub test_data: bool,
    pub output: bool,
    pub answer: bool,
    pub status: bool,
    pub resource_usage: bool,
}

impl TestVisibleComponents {
    /// Nothing is shown.
    pub open spec fn spec_empty() -> Self {
        TestVisibleComponents {
            test_data: false,
            output: false,
            answer: false,
            status: false,
            resource_usage: false,
        }
    }

    /// Everything is shown.
    pub open spec fn spec_all() -> Self {
        TestVisibleComponents {
            test_data: true,
            output: true,
            answer: true,
            status: true,
            resource_usage: true,
        }
    }

    /// Only the status is shown.
    pub open spec fn spec_status_only() -> Self {
        TestVisibleComponents { status: true, ..Self::spec_empty() }
    }

    /// Nothing is shown.
    pub fn empty() -> (r: Self)
        ensures
            r == Self::spec_empty(),
    {
        TestVisibleComponents {
            test_data: false,
            output: false,
            answer: false,
            status: false,
            resource_usage: false,
        }
    }

    /// Everything is shown.
    pub fn all() -> (r: Self)
        ensures
            r == Self::spec_all(),
    {
        TestVisibleComponents {
            test_data: true,
            output: true,
            answer: true,
            status: true,
            resource_usage: true,
        }
    }

    /// Only the status is shown.
    pub fn status_only() -> (r: Self)
        ensures
            r == Self::spec_status_only(),
    {
        TestVisibleComponents {
            test_data: false,
            output: false,
            answer: false,
            status: true,
            resource_usage: false,
        }
    }

    /// Component-wise union.
    pub open spec fn spec_union(self, o: Self) -> Self {
        TestVisibleComponents {
            test_data: self.test_data || o.test_data,
            output: self.output || o.output,
            answer: self.answer || o.answer,
            status: self.status || o.status,
            resource_usage: self.resource_usage || o.resource_usage,
        }
    }

    /// Component-wise union.
    pub fn union(self, o: Self) -> (r: Self)
        ensures
            r == self.spec_union(o),
    {
        TestVisibleComponents {
            test_data: self.test_data || o.test_data,
            output: self.output || o.output,
            answer: self.answer || o.answer,
            status: self.status || o.status,
            resource_usage: self.resource_usage || o.resource_usage,
        }
    }
}

/// Which components of a subtask row are shown in a judge log.
#[derive(Debug, Clone, Copy, PartialEq, Eq, Structural, Hash)]
pub struct SubtaskVisibleComponents {
    pub score: bool,
}

impl SubtaskVisibleComponents {
    /// Nothing is shown.
    pub fn empty() -> (r: Self)
        ensures
            r == (SubtaskVisibleComponents { score: false }),
    {
        SubtaskVisibleComponents { score: false }
    }

    /// Everything is shown.
    pub fn all() -> (r: Self)
        ensures
            r == (SubtaskVisibleComponents { score: true }),
    {
        SubtaskVisibleComponents { score: true }
    }

    /// Only the score is shown.
    pub fn score_only() -> (r: Self)
        ensures
            r == (SubtaskVisibleComponents { score: true }),
    {
        SubtaskVisibleComponents { score: true }
    }

    /// Component-wise union.
    pub fn union(self, o: Self) -> (r: Self)
        ensures
            r.score == (self.score || o.score),
    {
        SubtaskVisibleComponents { score: self.score || o.score }
    }
}

/// Identifier of a subtask (valuer group). Subtask ids start from 1.
#[derive(Debug, Copy, Clone, PartialEq, Eq, Structural, Hash, PartialOrd, Ord)]
pub struct SubtaskId {
    id: u32,
}

impl SubtaskId {
    #[verifier::type_invariant]
    spec fn non_zero(self) -> bool {
        self.id != 0
    }

    /// The numeric value of the id.
    pub closed spec fn value(self) -> u32 {
        self.id
    }

    /// Creates `SubtaskId` from `id`. `id` must not be 0.
    pub fn make(id: u32) -> (r: Self)
        requires
            id != 0,
        ensures
            r.value() == id,
    {
        SubtaskId { id }
    }

    /// The numeric value of the id.
    pub fn get(self) -> (r: u32)
        ensures
            r == self.value(),
            r != 0,
    {
        proof {
            use_type_invariant(&self);
        }
        self.id
    }
}

/// Ids are equal exactly when their values are.
pub proof fn lemma_subtask_id_eq(a: SubtaskId, b: SubtaskId)
    ensures
        (a == b) <==> (a.value() == b.value()),
{
}

/// Audience of a judge log.
#[derive(Debug, Clone, Copy, PartialEq, Eq, Structural, Hash)]
pub enum JudgeLogKind {
    /// Full judge log, for judges.
    Full,
    /// Judge log shown to the contestant.
    Contestant,
}

/// One test of a judge log.
#[derive(Debug, Clone)]
pub struct JudgeLogTestRow {
    pub test_id: TestId,
    pub status: Status,
    pub components: TestVisibleComponents,
}

/// One subtask of a judge log.
#[derive(Debug, Clone)]
pub struct JudgeLogSubtaskRow {
    pub subtask_id: SubtaskId,
    pub score: u32,
    pub components: SubtaskVisibleComponents,
}

/// Result of judging, as shown to one audience.
#[derive(Debug, Clone)]
pub struct JudgeLog {
    pub kind: JudgeLogKind,
    pub tests: Vec<JudgeLogTestRow>,
    pub subtasks: Vec<JudgeLogSubtaskRow>,
    pub score: u32,
    pub is_full: bool,
}

/// What a valuer knows of the problem: the group tag of each test, in test order.
#[derive(Debug, Clone)]
pub struct ProblemInfo {
    pub tests: Vec<String>,
}

/// Sent to a valuer when a requested test finished.
#[derive(Debug, Clone)]
pub struct TestDoneNotification {
    pub test_id: TestId,
    pub test_status: Status,
}

/// Command of a valuer to the invoker.
#[derive(Debug, Clone)]
pub enum ValuerResponse {
    /// Run the solution on a test.
    Test { test_id: TestId, live: bool },
    /// Submit a judge log.
    JudgeLog(JudgeLog),
    /// Update the score shown while judging.
    LiveScore { score: u32 },
    /// Valuing is over.
    Finish,
}

} // verus!
