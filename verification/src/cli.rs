//! What a run of the tool is asked to do.
use vstd::prelude::*;

verus! {

/// Analyse web-server access logs and report statistics.
pub struct Cli {
    pub command: Commands,
    pub file_name: String,
    pub format: OutputFormat,
}

/// The reports the tool can produce.
#[derive(PartialEq, Eq, Debug, Clone, Copy)]
pub enum Commands {
    /// Traffic statistics for the log
    Summary,
    /// Top IP addresses by request count
    Top { number: usize },
    /// Breakdown by status code
    Status,
    /// Show lines matching a given status code
    Filter { status: u16 },
}

/// Desired output format.
#[derive(PartialEq, Eq, Debug, Clone, Copy)]
pub enum OutputFormat {
    Table,
    Json,
}

} // verus!
