//! Errors reported by the backend pool.
use vstd::prelude::*;

verus! {

/// What can go wrong while building, discovering or selecting backends.
#[derive(Clone, Copy, Debug, PartialEq, Eq, Structural)]
pub enum LbError {
    /// An address is not `host:port`.
    InvalidAddress,
    /// A discovery service was named by the empty string.
    EmptyService,
    /// An explicit resolver list was empty.
    EmptyResolverList,
    /// A resolver entry is not `a.b.c.d:port`.
    InvalidResolverAddress,
    /// A discovery round failed on the network or in the DNS protocol.
    DiscoveryError,
    /// No healthy backend was found within the attempt budget.
    NoHealthyBackends,
    /// A selection algorithm was built for an empty pool.
    NoBackendsAvailable,
}

} // verus!
