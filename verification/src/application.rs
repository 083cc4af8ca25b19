//! Options of application bootstrap and shutdown.
use vstd::prelude::*;
use std::time::Duration;

verus! {

/// Options for application bootstrap.
///
/// `timeout` limits how long the whole bootstrap may take (`None`: no
/// limit). With `parallel_start`, the start hooks of all modules run
/// concurrently after every module is configured, and their failures are
/// reported together; otherwise each module is configured and started in
/// turn, imports first.
#[derive(Clone, Copy, Debug)]
pub struct BootstrapOptions {
    /// Maximum time allowed for the entire bootstrap process.
    pub timeout: Option<Duration>,
    /// Whether the modules' start hooks run in parallel.
    pub parallel_start: bool,
}

impl Default for BootstrapOptions {
    fn default() -> (r: Self)
        ensures
            r.timeout is None,
            !r.parallel_start,
    {
        BootstrapOptions { timeout: None, parallel_start: false }
    }
}

impl BootstrapOptions {
    /// Sets the bootstrap timeout.
    pub fn with_timeout(self, timeout: Duration) -> (r: Self)
        ensures
            r.timeout == Some(timeout),
            r.parallel_start == self.parallel_start,
    {
        BootstrapOptions { timeout: Some(timeout), parallel_start: self.parallel_start }
    }

    /// Chooses whether the modules' start hooks run in parallel.
    pub fn with_parallel_start(self, parallel: bool) -> (r: Self)
        ensures
            r.parallel_start == parallel,
            r.timeout == self.timeout,
    {
        BootstrapOptions { timeout: self.timeout, parallel_start: parallel }
    }
}

/// Options for application shutdown.
///
/// `timeout` is the time budget of the whole shutdown (`None`: no limit);
/// every started module is still asked to stop, each within what is left of
/// the budget.
#[derive(Clone, Copy, Debug)]
pub struct ShutdownOptions {
    /// Maximum time allowed for the entire shutdown process.
    pub timeout: Option<Duration>,
}

impl Default for ShutdownOptions {
    fn default() -> (r: Self)
        ensures
            r.timeout is None,
    {
        ShutdownOptions { timeout: None }
    }
}

impl ShutdownOptions {
    /// Sets the shutdown timeout.
    pub fn with_timeout(self, timeout: Duration) -> (r: Self)
        ensures
            r.timeout == Some(timeout),
    {
        ShutdownOptions { timeout: Some(timeout) }
    }
}

} // verus!
