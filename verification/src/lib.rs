//! Peer-tracking and connection-admission core of a peer-to-peer layer.
//!
//! The library decides which peers are authorized to participate, which are
//! dialable, and enforces that at most one connection attempt is in flight
//! per peer. It is a pure state machine: the surrounding runtime delivers
//! requests one at a time and performs the resulting actions.

use vstd::prelude::*;

pub mod order;
pub mod idset;
pub mod store;
pub mod tracker;
pub mod laws;

verus! {

/// A peer's public identity: opaque bytes, compared lexicographically.
///
/// All nodes must agree on this ordering for gossip bit positions to be
/// meaningful across the network.
pub struct Identity {
    pub bytes: Vec<u8>,
}

impl View for Identity {
    type V = Seq<u8>;

    open spec fn view(&self) -> Seq<u8> {
        self.bytes@
    }
}

impl Identity {
    /// Wrap raw identity bytes.
    pub fn new(bytes: Vec<u8>) -> (r: Identity)
        ensures
            r@ == bytes@,
    {
        Identity { bytes }
    }

    /// An independent copy of the identity.
    pub fn duplicate(&self) -> (r: Identity)
        ensures
            r@ == self@,
    {
        let mut out: Vec<u8> = Vec::new();
        let mut i: usize = 0;
        while i < self.bytes.len()
            invariant
                i <= self.bytes.len(),
                out@ == self.bytes@.subrange(0, i as int),
            decreases self.bytes.len() - i,
        {
            out.push(self.bytes[i]);
            i = i + 1;
        }
        proof {
            assert(out@ =~= self.bytes@);
        }
        Identity { bytes: out }
    }
}

} // verus!
