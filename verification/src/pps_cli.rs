//! Command line of the problem preparation service client.
use vstd::prelude::*;

verus! {

/// Arguments of `pps compile`.
#[derive(Debug, Clone)]
pub struct CompileArgs {
    /// Path to problem package root
    pub pkg_path: Vec<String>,
    /// Output path
    pub out_path: Vec<String>,
    /// Rewrite dir
    pub force: bool,
}

/// Arguments of `pps import`.
#[derive(Debug, Clone)]
pub struct ImportArgs {
    /// Path to package being imported
    pub in_path: String,
    /// Out path (will contain ppc package)
    pub out_path: String,
    /// Rewrite dir
    pub force: bool,
    /// Imported contest name
    /// This option can only be used when importing contest
    pub contest_name: Option<String>,
}

/// Subcommands of `pps`.
#[derive(Debug, Clone)]
pub enum Args {
    Compile(CompileArgs),
    Import(ImportArgs),
}

} // verus!
