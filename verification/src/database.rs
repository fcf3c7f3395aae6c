//! The testmap database (`testmap.json`): a table of tests, and per source
//! file a snapshot of its text with the tests that cover each line.

use vstd::prelude::*;
use crate::strmap::StrMap;

verus! {

/// The serialized testmap database.
pub struct Database {
    pub version: u32,
    pub metadata: Metadata,
    pub tests: Vec<TestEntry>,
    pub sources: StrMap<SourceFile>,
}

/// Collection context, kept for reproducibility.
pub struct Metadata {
    pub generated_at: String,
    pub workspace_root: String,
    pub cargo_testmap_version: String,
    pub collection_args: Vec<String>,
}

/// One collected test.
pub struct TestEntry {
    pub name: String,
    pub module: String,
    pub binary: String,
    pub kind: String,
    pub status: String,
    pub duration_ms: u64,
    /// Captured output (stderr+stdout) of a test that ran but failed.
    pub failure_output: Option<String>,
}

/// A source file: its text, and the tests that cover its lines.
pub struct SourceFile {
    pub content: String,
    /// line number (1-based, as a string) -> sorted test indices, for lines
    /// covered by fewer than `threshold` tests.
    pub lines: StrMap<Vec<u32>>,
    /// line number -> info for lines covered by at least `threshold` tests.
    pub above_threshold: StrMap<AboveThreshold>,
    /// Every executable (instrumented) line number in the file.
    pub executable: Vec<u32>,
}

/// Coverage summary for a line hit by at least `threshold` tests.
pub struct AboveThreshold {
    /// Total number of tests covering the line.
    pub total: u32,
    /// A deterministic sample of covering test indices.
    pub sample: Vec<u32>,
}

/// The only database version this build reads.
pub const DATABASE_VERSION: u32 = 1;

/// Whether a database of `version` can be read.
pub fn supported_version(version: u32) -> (r: bool)
    ensures
        r == (version == DATABASE_VERSION),
{
    version == DATABASE_VERSION
}

} // verus!
