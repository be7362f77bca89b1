//! Requests and updates of the problem preparation service.
//!
//! All paths are relative to workspace root.
use vstd::prelude::*;

pub mod compile_problem;
pub mod import_problem;

verus! {

/// Route marker of the "compile problem" call; it has no values.
pub struct CompileProblem(pub core::convert::Infallible);

/// Route marker of the "import problem" call; it has no values.
pub struct ImportProblem(pub core::convert::Infallible);

/// Endpoint of the "compile problem" call.
pub const COMPILE_PROBLEM_ENDPOINT: &'static str = "/problems/compile";

/// Endpoint of the "import problem" call.
pub const IMPORT_PROBLEM_ENDPOINT: &'static str = "/problems/import";

/// An error carried as its message.
#[derive(Debug, Clone)]
pub struct StringError(pub String);

impl StringError {
    /// The message.
    pub fn message(&self) -> (r: &str)
        ensures
            r@ == self.0@,
    {
        self.0.as_str()
    }
}

/// Contains possible error or success
#[derive(Debug)]
pub struct SimpleFinish(pub Result<(), StringError>);

impl SimpleFinish {
    /// The outcome of an operation whose error is given by its message.
    pub fn from_outcome(r: Result<(), String>) -> (f: SimpleFinish)
        ensures
            r is Ok <==> f.0 is Ok,
            r matches Err(m) ==> f.0 matches Err(e) && e.0 == m,
    {
        match r {
            Ok(()) => SimpleFinish(Ok(())),
            Err(m) => SimpleFinish(Err(StringError(m))),
        }
    }
}

} // verus!
