//! Key-to-node mapping engines ("hash rings"): consistent hashing, multi-probe consistent
//! hashing, rendezvous hashing, Maglev hashing and jump hashing, with tracking clients that
//! keep every point assigned to the node the underlying ring would pick for it.

pub mod consistent;
pub mod jump;
pub mod maglev;
pub mod mpc;
pub mod rendezvous;
pub mod util;
mod wheel;

use vstd::prelude::*;

verus! {

/// The ways an operation on a ring or a client can fail.
#[derive(Clone, Copy, Debug, PartialEq, Eq, Structural)]
pub enum RingError {
    /// A lookup or a point operation on a ring or client without nodes.
    EmptyRing,
    /// Removing the node would leave a client without nodes.
    EmptyRingAfterRemoval,
    /// The node is not in the ring.
    UnknownNode,
    /// A construction parameter is out of range.
    InvalidConfig,
    /// A weight is not a number.
    InvalidWeight,
}

} // verus!
