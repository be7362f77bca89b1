//! Import problem from some other format
use vstd::prelude::*;

verus! {

/// Import a problem.
#[derive(Debug, Clone)]
pub struct Request {
    /// this path specifies file or files that should be imported
    pub src_path: String,
    /// where to put generated problem source
    pub out_path: String,
    /// do not check that dest is empty
    pub force: bool,
}

/// Property of an imported problem.
#[derive(Debug, Clone, Copy, PartialEq, Eq, Structural)]
pub enum PropertyName {
    /// Value is time limit in milliseconds.
    TimeLimit,
    /// Value is memory limit in milliseconds.
    MemoryLimit,
    /// Value is printf-style pattern of input files.
    InputPathPattern,
    /// Value is printf-style pattern of output files.
    OutputPathPattern,
    /// Value is problem title.
    ProblemTitle,
}

/// Progress of an import.
#[derive(Debug, Clone)]
pub enum Update {
    /// Contains one property of discovered problem.
    /// Each `property_name` will be reported at most once.
    Property { property_name: PropertyName, property_value: String },
    /// Contains one warnings. May appear multiple times.
    Warning(String),
    /// Started importing checker
    ImportChecker,
    /// Started importing tests
    ImportTests,
    /// Finished importing tests. `count` tests imported.
    ImportTestsDone { count: usize },
    /// Started importing solutions
    ImportSolutions,
    /// Started importing solution with specific name
    ImportSolution(String),
    /// Valuer config is detected and will be imported
    ImportValuerConfig,
    /// Valuer config was not found, default will be used
    DefaultValuerConfig,
}

/// An update with its texts taken as characters.
pub enum UpdateView {
    Property(PropertyName, Seq<char>),
    Warning(Seq<char>),
    ImportChecker,
    ImportTests,
    ImportTestsDone(usize),
    ImportSolutions,
    ImportSolution(Seq<char>),
    ImportValuerConfig,
    DefaultValuerConfig,
}

impl View for Update {
    type V = UpdateView;

    open spec fn view(&self) -> UpdateView {
        match self {
            Update::Property { property_name, property_value } => UpdateView::Property(
                *property_name,
                property_value@,
            ),
            Update::Warning(m) => UpdateView::Warning(m@),
            Update::ImportChecker => UpdateView::ImportChecker,
            Update::ImportTests => UpdateView::ImportTests,
            Update::ImportTestsDone { count } => UpdateView::ImportTestsDone(*count),
            Update::ImportSolutions => UpdateView::ImportSolutions,
            Update::ImportSolution(s) => UpdateView::ImportSolution(s@),
            Update::ImportValuerConfig => UpdateView::ImportValuerConfig,
            Update::DefaultValuerConfig => UpdateView::DefaultValuerConfig,
        }
    }
}

} // verus!
