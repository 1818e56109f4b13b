use vstd::prelude::*;

verus! {

/// Network request id.
pub type RequestId = u32;

/// Peer is indexed using this type.
pub type PeerIndex = usize;

/// Height of a block: its distance from the genesis block.
pub type BlockHeight = u32;

} // verus!
