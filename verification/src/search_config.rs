//! The budget of one search.

use crate::clock::seconds;
use std::time::Duration;
use vstd::prelude::*;

verus! {

/// How long a search may run and how many passes it may count before it
/// stops.
#[derive(Debug, Clone, Copy)]
pub struct SearchConfig {
    pub max_duration: Duration,
    pub max_iterations: u64,
}

impl SearchConfig {
    /// Whether the number of completed passes exceeds the cap, so that no
    /// further pass may start.
    pub fn is_spent(&self, completed: u64) -> (spent: bool)
        ensures
            spent == (completed > self.max_iterations),
    {
        completed > self.max_iterations
    }
}

impl Default for SearchConfig {
    /// One second and a thousand passes.
    fn default() -> (config: SearchConfig)
        ensures
            config.max_duration == seconds(1),
            config.max_iterations == 1_000,
    {
        SearchConfig { max_duration: Duration::from_secs(1), max_iterations: 1_000 }
    }
}

} // verus!
