use vstd::prelude::*;

verus! {

/// Wait after spawning the console subprocess before it is considered
/// usable (in seconds). There is no handshake: readiness is assumed from
/// elapsed time alone.
pub const MYTONCTRL_INIT_DELAY: u64 = 5;

/// Wait after sending a command before reading its output (in seconds).
pub const MYTONCTRL_CMD_DELAY: u64 = 1;

/// Prefix for every exported metric name.
pub const METRICS_PREFIX: &'static str = "tonetheus";

} // verus!
