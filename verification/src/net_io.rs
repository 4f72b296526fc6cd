//! What a link between two parties is to the engine.

use vstd::prelude::*;

verus! {

/// Orientation of one end of a link.
///
/// The server end waited for the connection and, in a round, receives the
/// block above the one it holds. The client end dialled and receives the
/// block below.
#[derive(Debug, Clone, Copy, PartialEq, Eq, Structural)]
pub enum Role {
    Server,
    Client,
}

/// A failure of the transport under a link, with its cause in words.
#[derive(Debug)]
pub struct TransportError {
    pub cause: String,
}

/// One end of a reliable, ordered, full-duplex byte channel to a peer.
///
/// An implementation moves the bytes; the library decides which. Whether
/// an exchange succeeds, and which bytes arrive, is the transport's affair:
/// the one thing stated of an exchange is that the buffer keeps its length,
/// as every slice does.
pub trait TreeNetIO {
    /// Writes all of `data` to the peer and fills all of `buf` from it,
    /// both at once, and returns when both directions are done.
    fn share(&mut self, data: &[u8], buf: &mut [u8]) -> (r: Result<(), TransportError>)
        ensures
            final(buf)@.len() == old(buf)@.len(),
    ;
}

} // verus!
