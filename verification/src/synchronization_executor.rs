use crate::chain::{BlockHeader, BlockView, IndexedBlock};
use crate::message::{Headers, Inv, InventoryVector, NotFound};
use crate::types::{PeerIndex, RequestId};
use vstd::prelude::*;

verus! {

/// A message that the node is asked to send to a peer.
#[derive(Debug, PartialEq)]
pub enum Task {
    /// Send a block.
    Block(PeerIndex, IndexedBlock),
    /// Send an inventory.
    Inventory(PeerIndex, Inv),
    /// Send headers, in answer to the request with the given id if there is one.
    Headers(PeerIndex, Headers, Option<RequestId>),
    /// Send the list of requested objects that are not known.
    NotFound(PeerIndex, NotFound),
}

/// Mathematical value of a [`Task`].
pub enum TaskView {
    Block(PeerIndex, BlockView),
    Inventory(PeerIndex, Seq<InventoryVector>),
    Headers(PeerIndex, Seq<BlockHeader>, Option<RequestId>),
    NotFound(PeerIndex, Seq<InventoryVector>),
}

impl View for Task {
    type V = TaskView;

    open spec fn view(&self) -> TaskView {
        match *self {
            Task::Block(peer_index, block) => TaskView::Block(peer_index, block@),
            Task::Inventory(peer_index, inv) => TaskView::Inventory(peer_index, inv@),
            Task::Headers(peer_index, headers, id) => TaskView::Headers(peer_index, headers@, id),
            Task::NotFound(peer_index, notfound) => TaskView::NotFound(peer_index, notfound@),
        }
    }
}

} // verus!
