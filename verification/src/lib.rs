//! All-gather among `2^L` parties over point-to-point links.
//!
//! Every party holds one block of bytes. After one call of
//! [`Tree::share`] at every party, every party holds the blocks of all
//! parties, in the order of their ids. The parties form a hypercube: in
//! round `d` a party exchanges what it holds with its neighbour along
//! dimension `d`, so that what it holds doubles with every round.

use vstd::prelude::*;

pub mod hypercube;
pub mod net_io;
pub mod topology;

pub use net_io::{Role, TransportError, TreeNetIO};
pub use topology::{Participant, Tree};

verus! {

/// Identifier of a party: its position in the list of participants.
pub type Id = u32;

} // verus!
