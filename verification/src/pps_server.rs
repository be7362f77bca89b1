//! The problem preparation service: its state, and how it sorts the files
//! of an imported problem.
use vstd::prelude::*;
use crate::text::{starts_with, str_eq};

verus! {

/// Shared state of the service.
#[derive(Debug, Clone)]
pub struct ServiceState {
    /// JJS installation directory (used to find JTL binaries)
    pub jjs_dir: String,
}

/// The service.
#[derive(Debug, Clone)]
pub struct Service(pub ServiceState);

impl ServiceState {
    /// The state of a service installed in `jjs_dir`.
    pub fn new(jjs_dir: String) -> (r: ServiceState)
        ensures
            r.jjs_dir == jjs_dir,
    {
        ServiceState { jjs_dir }
    }
}

/// Role of a program file of an imported problem.
#[derive(Debug, Clone, Copy, PartialEq, Eq, Structural)]
pub enum FileCategory {
    Validator,
    Checker,
    Generator,
}

/// The role a file named `name` plays: `check` or `checker` checks,
/// `validator` validates, a name starting with `gen` generates.
pub open spec fn spec_category(name: Seq<char>) -> Option<FileCategory> {
    if name == "check"@ || name == "checker"@ {
        Some(FileCategory::Checker)
    } else if name == "validator"@ {
        Some(FileCategory::Validator)
    } else if name.len() >= 3 && name.subrange(0, 3) == "gen"@ {
        Some(FileCategory::Generator)
    } else {
        None
    }
}

impl FileCategory {
    /// The role a file named `name` plays, if any.
    pub fn derive(name: &str) -> (r: Option<FileCategory>)
        ensures
            r == spec_category(name@),
    {
        if str_eq(name, "check") || str_eq(name, "checker") {
            return Some(FileCategory::Checker);
        }
        if str_eq(name, "validator") {
            return Some(FileCategory::Validator);
        }
        let g = starts_with(name, "gen");
        proof {
            reveal_strlit("gen");
        }
        if g {
            return Some(FileCategory::Generator);
        }
        None
    }
}

} // verus!
