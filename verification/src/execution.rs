//! What a run may use of the machine.

use vstd::prelude::*;
use crate::config::Config;

verus! {

/// What a run may use of the machine.
#[derive(Debug, Clone, Copy, PartialEq, Eq, Structural)]
pub struct ExecutionResources {
    pub local_threads: usize,
    pub memory_limit_mb: u64,
    pub parallel_execution_enabled: bool,
}

impl ExecutionResources {
    /// What the configuration allows: at least one thread.
    pub fn from_config(config: &Config) -> (resources: Self)
        ensures
            resources.local_threads == if config.resources.local_threads == 0 {
                1
            } else {
                config.resources.local_threads as int
            },
            resources.memory_limit_mb == config.resources.memory_limit_mb,
            !resources.parallel_execution_enabled,
            resources.local_threads >= 1,
    {
        let threads: usize = config.resources.local_threads;
        ExecutionResources {
            local_threads: if threads == 0 { 1 } else { threads },
            memory_limit_mb: config.resources.memory_limit_mb,
            parallel_execution_enabled: false,
        }
    }

    /// How many files may be open for writing at a time: at least one.
    pub fn open_writer_limit(&self) -> (limit: usize)
        ensures
            limit == if self.local_threads == 0 {
                1
            } else {
                self.local_threads as int
            },
    {
        if self.local_threads == 0 {
            1
        } else {
            self.local_threads
        }
    }
}

} // verus!
