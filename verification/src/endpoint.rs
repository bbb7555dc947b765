//! Endpoints: the registry's view of a single backend server instance.

use vstd::prelude::*;

verus! {

/// Role of a backend server within its shard.
#[derive(Clone, Copy, Debug, PartialEq, Eq, Structural)]
pub enum Role {
    Primary,
    Replica,
}

/// The registry's view of one backend server instance: its identity
/// (`id` together with `role`), the shard it belongs to, and two error
/// counters that the endpoint owns and the registry increments as a
/// side effect of banning.
#[derive(Clone, Copy, Debug, PartialEq, Eq, Structural)]
pub struct Endpoint {
    /// Identity of the server instance (stands for host and port).
    pub id: u64,
    /// Index of the shard this endpoint belongs to.
    pub shard: usize,
    /// Role of this endpoint within its shard.
    pub role: Role,
    /// Errors seen since the last successful checkout; used by external
    /// diagnostics to decide whether the whole shard is down.
    pub error_count: u64,
    /// Errors recorded against the endpoint's own statistics when a ban
    /// is reported to a stats sink.
    pub stat_error_count: u64,
}

/// Per-client statistics sink: collaborators hand one to `ban` so that a
/// ban-caused error is recorded against the client that triggered it.
#[derive(Clone, Copy, Debug, PartialEq, Eq, Structural)]
pub struct StatsSink {
    /// Ban-caused errors recorded so far.
    pub ban_errors: u64,
}

} // verus!
