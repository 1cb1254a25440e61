//! The command line as plain values: a sync in either direction over some
//! manifests, or a manifest utility. Parsing the arguments belongs to the
//! application.

use vstd::prelude::*;

verus! {

/// The parsed command line.
#[derive(Debug, PartialEq)]
pub struct Cli {
    pub command: Command,
}

/// What to run.
#[derive(Debug, PartialEq)]
pub enum Command {
    /// Copy from system to shed.
    Put(SyncArgs),
    /// Copy from shed to system.
    Get(SyncArgs),
    /// Manifest utilities.
    Manifest { command: ManifestCommand },
}

/// The options of a sync.
#[derive(Debug, PartialEq)]
pub struct SyncArgs {
    /// Print operations without executing.
    pub dry: bool,
    /// Print detailed output.
    pub verbose: bool,
    /// Disable the interactive progress display.
    pub no_progress: bool,
    /// Manifest YAML files.
    pub manifests: Vec<String>,
}

/// A manifest utility.
#[derive(Clone, Copy, Debug, PartialEq, Eq, Structural)]
pub enum ManifestCommand {
    /// Print the JSON Schema for manifest YAML.
    Schema,
}

} // verus!
