//! Specifies that problem contained in workspace
//! should be compiled
use vstd::prelude::*;

verus! {

/// Compile a problem.
#[derive(Debug, Clone)]
pub struct Request {
    /// Path to problem source directory
    pub problem_path: String,
    /// Where to put compiled package
    pub out_path: String,
    /// Ignore existing files in out_path
    pub force: bool,
}

/// Progress of a compilation.
#[derive(Debug, Clone)]
pub enum Update {
    /// Contains some warnings that should be displayed to used.
    /// Appears at most once.
    Warnings(Vec<String>),
    /// Solution with given name is being built
    BuildSolution(String),
    /// Test generator with given name is being built
    BuildTestgen(String),
    /// Checker building started
    BuildChecker,
    /// Test generation started. `count` tests will be processed.
    /// Appears at most once before `GenerateTest` updates.
    GenerateTests { count: usize },
    /// Test `test_id` is being generated.
    /// `test_id`s are in range 1..=`count`.
    GenerateTest { test_id: usize },
    /// Valuer config is being copied
    CopyValuerConfig,
}

} // verus!
