//! The command line of `cargo testmap`, as plain values. Parsing the
//! arguments into these is the caller's business.

use vstd::prelude::*;

verus! {

/// cargo-testmap — which tests cover this line of code?
pub struct Cli {
    pub command: Command,
}

/// The subcommands.
pub enum Command {
    /// Collect per-test coverage and build a testmap.json database.
    Collect(CollectArgs),
    /// Generate an HTML report from a testmap.json database.
    Report(ReportArgs),
}

/// Options of `collect`.
pub struct CollectArgs {
    /// Collect across all workspace members.
    pub workspace: bool,
    /// Specific package to collect.
    pub package: Option<String>,
    /// Target filters.
    pub lib: bool,
    pub bins: bool,
    pub tests: bool,
    /// Extra arguments forwarded to `cargo test` for selecting targets.
    pub cargo_args: Vec<String>,
    /// Only collect tests whose full path matches this regex.
    pub filter: Option<String>,
    /// Skip tests whose full path matches this regex.
    pub skip: Option<String>,
    /// Omit lines covered by >= N tests (default: 10).
    pub threshold: u32,
    /// Number of parallel test runs (default: number of CPUs).
    pub jobs: Option<usize>,
    /// Database output path (default: target/testmap/testmap.json).
    pub output: String,
    /// Force a full re-collection, ignoring any staged results.
    pub clean: bool,
    /// Show cargo's own output.
    pub verbose: bool,
}

/// Options of `report`.
pub struct ReportArgs {
    /// Database input path (default: target/testmap/testmap.json).
    pub input: String,
    /// Report output directory (default: target/testmap/report).
    pub output_dir: String,
    /// Syntax-highlighting theme.
    pub theme: Option<String>,
    /// Generate a single self-contained HTML file instead of a directory.
    pub single_file: Option<String>,
}

/// The threshold that `collect` uses when none is given.
pub const DEFAULT_THRESHOLD: u32 = 10;

} // verus!
