//! Operator console library for a secure-gateway appliance.
//!
//! The crate reconciles declarative peer records with the live state of a
//! tunnel interface and derives operational telemetry (throughput rates, DNS
//! statistics, peer sessions) from the textual output of external daemons.
//! All interaction with the outside world happens through a thin command
//! executor kept outside this crate; the functions here work on plain values
//! and carry verified contracts.

use vstd::prelude::*;

pub mod blocklist;
pub mod pool;
pub mod reconcile;
pub mod record;
pub mod sessions;
pub mod telemetry;
pub mod text;

verus! {

/// Failure taxonomy for the gateway operations.
#[derive(Clone, Copy, Debug, PartialEq, Eq, Structural)]
pub enum GatewayError {
    /// No free address remains in the tunnel pool.
    AllocationExhausted,
    /// A peer record with the requested name does not exist.
    RecordNotFound,
    /// The command executor reported a non-zero exit or could not spawn.
    ExternalCommandFailed,
    /// A fetched blocklist failed the resolver syntax check.
    ValidationFailed,
    /// One of the reconciliation steps failed; kernel state may be stale.
    PartialReconciliation,
}

} // verus!
