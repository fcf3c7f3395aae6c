//! The optional `.testmap.toml` at the project root, as plain values.
//! Reading and parsing the file is the caller's business.

use vstd::prelude::*;

verus! {

/// The whole file. All fields are optional.
pub struct Config {
    pub collect: CollectConfig,
}

/// The `[collect]` table.
pub struct CollectConfig {
    pub filter: Option<String>,
    pub skip: Option<String>,
    pub jobs: Option<usize>,
    pub threshold: Option<u32>,
}

impl Default for CollectConfig {
    /// Nothing set.
    fn default() -> (r: Self)
        ensures
            r.filter is None,
            r.skip is None,
            r.jobs is None,
            r.threshold is None,
    {
        CollectConfig { filter: None, skip: None, jobs: None, threshold: None }
    }
}

impl Default for Config {
    /// Nothing set.
    fn default() -> (r: Self)
        ensures
            r.collect.filter is None,
            r.collect.skip is None,
            r.collect.jobs is None,
            r.collect.threshold is None,
    {
        Config { collect: CollectConfig::default() }
    }
}

} // verus!
