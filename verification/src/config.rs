use vstd::prelude::*;

use crate::cache;

verus! {

/// The user-level configuration: the cache budget and path-skip globs.
#[derive(Debug)]
pub struct Configuration {
    pub cache_size: u64,
    pub skips: Vec<String>,
}

impl Default for Configuration {
    /// The configuration an absent or empty configuration file means.
    fn default() -> (r: Self)
        ensures
            r.cache_size == cache::DEFAULT_SIZE,
            r.skips@.len() == 0,
    {
        Configuration { cache_size: cache::DEFAULT_SIZE, skips: Vec::new() }
    }
}

} // verus!
