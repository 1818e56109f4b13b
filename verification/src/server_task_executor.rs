use crate::block_provider::{BlockProvider, BlockRef, StoreView};
use crate::chain::BlockHeader;
use crate::hash::H256;
use crate::message::{
    GetBlocks, GetData, GetHeaders, Headers, Inv, InventoryType, InventoryVector, LocatorView,
    NotFound, GETBLOCKS_MAX_RESPONSE_HASHES, GETHEADERS_MAX_RESPONSE_HEADERS,
};
use crate::synchronization_executor::{Task, TaskView};
use crate::synchronization_server::{ServerTask, ServerTaskView};
use crate::types::{BlockHeight, PeerIndex, RequestId};
use vstd::prelude::*;

verus! {

/// What serving a task asks of the node, besides serving what is left of it.
#[derive(Debug, PartialEq)]
pub enum Effect {
    /// Nothing.
    Nothing,
    /// Send a message to a peer.
    Send(Task),
    /// Report that a peer broke the protocol, with the reason.
    Misbehaving(PeerIndex, &'static str),
}

/// Mathematical value of an [`Effect`].
pub enum EffectView {
    Nothing,
    Send(TaskView),
    Misbehaving(PeerIndex, Seq<char>),
}

impl View for Effect {
    type V = EffectView;

    open spec fn view(&self) -> EffectView {
        match *self {
            Effect::Nothing => EffectView::Nothing,
            Effect::Send(task) => EffectView::Send(task@),
            Effect::Misbehaving(peer_index, reason) => EffectView::Misbehaving(peer_index, reason@),
        }
    }
}

/// The inventory that names the blocks with the given hashes.
pub open spec fn blocks_inventory(hashes: Seq<H256>) -> Seq<InventoryVector> {
    Seq::new(hashes.len(), |i: int| InventoryVector::spec_block(hashes[i]))
}

/// The headers of the stored blocks with the given hashes.
pub open spec fn stored_headers(store: StoreView, hashes: Seq<H256>) -> Seq<BlockHeader> {
    Seq::new(hashes.len(), |i: int| store.blocks[hashes[i]].header.raw)
}

/// What becomes of a 'getdata' request: the same request with its inventory
/// reversed and nothing yet found missing.
pub open spec fn spec_serve_get_data(
    peer_index: PeerIndex,
    inventory: Seq<InventoryVector>,
) -> ServerTaskView {
    ServerTaskView::ReversedGetData(peer_index, inventory.reverse(), Seq::empty())
}

/// Serving the last item of a reversed 'getdata' request: what is left of the
/// request, and what the node is asked to do.
pub open spec fn spec_serve_reversed_get_data(
    store: StoreView,
    peer_index: PeerIndex,
    inventory: Seq<InventoryVector>,
    notfound: Seq<InventoryVector>,
) -> (Option<ServerTaskView>, EffectView) {
    if inventory.len() == 0 {
        if notfound.len() == 0 {
            (None, EffectView::Nothing)
        } else {
            (None, EffectView::Send(TaskView::NotFound(peer_index, notfound)))
        }
    } else {
        let item = inventory.last();
        let rest = inventory.drop_last();
        match item.inv_type {
            InventoryType::MessageBlock => match store.block(BlockRef::Hash(item.hash)) {
                Some(block) => (
                    Some(ServerTaskView::ReversedGetData(peer_index, rest, notfound)),
                    EffectView::Send(TaskView::Block(peer_index, block)),
                ),
                None => (
                    Some(ServerTaskView::ReversedGetData(peer_index, rest, notfound.push(item))),
                    EffectView::Nothing,
                ),
            },
            InventoryType::Error => (
                Some(ServerTaskView::ReversedGetData(peer_index, rest, notfound)),
                EffectView::Nothing,
            ),
        }
    }
}

/// The answer to a 'getblocks' request.
pub open spec fn spec_serve_get_blocks(
    store: StoreView,
    peer_index: PeerIndex,
    message: LocatorView,
) -> EffectView {
    match store.locate(message.candidates()) {
        Some(height) => {
            let hashes = store.successors(
                (height + 1) as nat,
                GETBLOCKS_MAX_RESPONSE_HASHES as nat,
                message.hash_stop,
            );
            if hashes.len() == 0 {
                EffectView::Nothing
            } else {
                EffectView::Send(TaskView::Inventory(peer_index, blocks_inventory(hashes)))
            }
        },
        None => EffectView::Misbehaving(
            peer_index,
            "Got 'getblocks' message without known blocks"@,
        ),
    }
}

/// The answer to a 'getheaders' request.
pub open spec fn spec_serve_get_headers(
    store: StoreView,
    peer_index: PeerIndex,
    message: LocatorView,
    request_id: RequestId,
) -> EffectView {
    match store.locate(message.candidates()) {
        Some(height) => {
            let hashes = store.successors(
                (height + 1) as nat,
                GETHEADERS_MAX_RESPONSE_HEADERS as nat,
                message.hash_stop,
            );
            EffectView::Send(
                TaskView::Headers(peer_index, stored_headers(store, hashes), Some(request_id)),
            )
        },
        None => EffectView::Misbehaving(peer_index, "Got 'headers' message without known blocks"@),
    }
}

/// Serving one task: what is left of it to serve, and what the node is asked
/// to do.
pub open spec fn spec_execute(store: StoreView, task: ServerTaskView) -> (
    Option<ServerTaskView>,
    EffectView,
) {
    match task {
        ServerTaskView::GetData(peer_index, inventory) => (
            Some(spec_serve_get_data(peer_index, inventory)),
            EffectView::Nothing,
        ),
        ServerTaskView::ReversedGetData(peer_index, inventory, notfound) => {
            spec_serve_reversed_get_data(store, peer_index, inventory, notfound)
        },
        ServerTaskView::GetBlocks(peer_index, message) => (
            None,
            spec_serve_get_blocks(store, peer_index, message),
        ),
        ServerTaskView::GetHeaders(peer_index, message, request_id) => (
            None,
            spec_serve_get_headers(store, peer_index, message, request_id),
        ),
        ServerTaskView::Mempool(_) => (None, EffectView::Nothing),
    }
}

/// Mathematical value of what [`ServerTaskExecutor::execute`] returns.
pub open spec fn served_view(served: (Option<ServerTask>, Effect)) -> (
    Option<ServerTaskView>,
    EffectView,
) {
    (
        match served.0 {
            Some(task) => Some(task@),
            None => None,
        },
        served.1@,
    )
}

/// Server tasks executor
pub struct ServerTaskExecutor<'a, S: BlockProvider> {
    /// Storage reference
    storage: &'a S,
}

impl<'a, S: BlockProvider> ServerTaskExecutor<'a, S> {
    /// The storage that requests are served from.
    pub closed spec fn storage_view(&self) -> S {
        *self.storage
    }

    /// The executor's invariant: its storage is valid.
    pub open spec fn wf(&self) -> bool {
        self.storage_view().valid()
    }

    /// Mathematical value of the storage that requests are served from.
    pub open spec fn store(&self) -> StoreView {
        self.storage_view().store()
    }

    pub fn new(storage: &'a S) -> (r: Self)
        ensures
            r.storage_view() == *storage,
    {
        ServerTaskExecutor { storage }
    }

    /// Serves one task. Returns what is left of it to serve, and what the
    /// node is asked to do.
    pub fn execute(&self, task: ServerTask) -> (r: (Option<ServerTask>, Effect))
        requires
            self.wf(),
        ensures
            served_view(r) == spec_execute(self.store(), task@),
    {
        match task {
            ServerTask::GetData(peer_index, message) => {
                let next = self.serve_get_data(peer_index, message);
                (Some(next), Effect::Nothing)
            },
            ServerTask::ReversedGetData(peer_index, message, notfound) => {
                self.serve_reversed_get_data(peer_index, message, notfound)
            },
            ServerTask::GetBlocks(peer_index, message) => {
                (None, self.serve_get_blocks(peer_index, message))
            },
            ServerTask::GetHeaders(peer_index, message, request_id) => {
                (None, self.serve_get_headers(peer_index, message, request_id))
            },
            ServerTask::Mempool(peer_index) => {
                self.serve_mempool(peer_index);
                (None, Effect::Nothing)
            },
        }
    }

    /// A 'getdata' request is served item by item, each taken from the back
    /// of the inventory: to answer in the given order, the inventory is
    /// reversed here.
    pub fn serve_get_data(&self, peer_index: PeerIndex, message: GetData) -> (r: ServerTask)
        ensures
            r@ == spec_serve_get_data(peer_index, message@),
    {
        let mut message = message;
        let mut reversed: Vec<InventoryVector> = Vec::new();
        let ghost inventory = message.inventory@;
        loop
            invariant
                message.inventory@.len() + reversed@.len() == inventory.len(),
                message.inventory@ == inventory.subrange(0, message.inventory@.len() as int),
                forall|i: int|
                    0 <= i < reversed@.len() ==> reversed@[i] == inventory[inventory.len() - 1
                        - i],
            ensures
                reversed@.len() == inventory.len(),
            decreases message.inventory@.len(),
        {
            match message.inventory.pop() {
                Some(item) => {
                    reversed.push(item);
                },
                None => {
                    break ;
                },
            }
        }
        assert(reversed@ =~= inventory.reverse());
        // while iterating by items, also accumulate unknown items to respond with notfound
        let notfound = NotFound { inventory: Vec::new() };
        ServerTask::ReversedGetData(peer_index, GetData { inventory: reversed }, notfound)
    }

    /// Serves the last item of a reversed 'getdata' request.
    pub fn serve_reversed_get_data(
        &self,
        peer_index: PeerIndex,
        message: GetData,
        notfound: NotFound,
    ) -> (r: (Option<ServerTask>, Effect))
        requires
            self.wf(),
        ensures
            served_view(r) == spec_serve_reversed_get_data(
                self.store(),
                peer_index,
                message@,
                notfound@,
            ),
    {
        let mut message = message;
        let mut notfound = notfound;
        let next_item = match message.inventory.pop() {
            None => {
                if notfound.inventory.len() != 0 {
                    return (None, Effect::Send(Task::NotFound(peer_index, notfound)));
                }
                return (None, Effect::Nothing);
            },
            Some(next_item) => next_item,
        };
        let mut effect = Effect::Nothing;
        match next_item.inv_type {
            InventoryType::MessageBlock => {
                match self.storage.block(BlockRef::Hash(next_item.hash)) {
                    Some(block) => {
                        effect = Effect::Send(Task::Block(peer_index, block));
                    },
                    None => {
                        notfound.inventory.push(next_item);
                    },
                }
            },
            InventoryType::Error => (),
        }
        (Some(ServerTask::ReversedGetData(peer_index, message, notfound)), effect)
    }

    /// Answers a 'getblocks' request.
    pub fn serve_get_blocks(&self, peer_index: PeerIndex, message: GetBlocks) -> (r: Effect)
        requires
            self.wf(),
        ensures
            r@ == spec_serve_get_blocks(self.store(), peer_index, message@),
    {
        match self.locate_best_common_block(
            &message.hash_stop,
            message.block_locator_hashes.as_slice(),
        ) {
            Some(block_height) => {
                let hashes = self.successors(
                    block_height,
                    GETBLOCKS_MAX_RESPONSE_HASHES,
                    &message.hash_stop,
                );
                let mut inventory: Vec<InventoryVector> = Vec::new();
                let mut i: usize = 0;
                while i < hashes.len()
                    invariant
                        i <= hashes@.len(),
                        inventory@ == blocks_inventory(hashes@.subrange(0, i as int)),
                    decreases hashes@.len() - i,
                {
                    inventory.push(InventoryVector::block(hashes[i]));
                    assert(inventory@ =~= blocks_inventory(hashes@.subrange(0, i + 1)));
                    i += 1;
                }
                assert(hashes@.subrange(0, i as int) =~= hashes@);
                // empty inventory messages are invalid, while empty headers messages are valid
                if inventory.len() != 0 {
                    Effect::Send(Task::Inventory(peer_index, Inv::with_inventory(inventory)))
                } else {
                    Effect::Nothing
                }
            },
            None => Effect::Misbehaving(peer_index, "Got 'getblocks' message without known blocks"),
        }
    }

    /// Answers a 'getheaders' request.
    pub fn serve_get_headers(
        &self,
        peer_index: PeerIndex,
        message: GetHeaders,
        request_id: RequestId,
    ) -> (r: Effect)
        requires
            self.wf(),
        ensures
            r@ == spec_serve_get_headers(self.store(), peer_index, message@, request_id),
    {
        match self.locate_best_common_block(
            &message.hash_stop,
            message.block_locator_hashes.as_slice(),
        ) {
            Some(block_height) => {
                let hashes = self.successors(
                    block_height,
                    GETHEADERS_MAX_RESPONSE_HEADERS,
                    &message.hash_stop,
                );
                proof {
                    self.storage.lemma_valid_store();
                }
                let mut headers: Vec<BlockHeader> = Vec::new();
                let mut i: usize = 0;
                while i < hashes.len()
                    invariant
                        self.wf(),
                        self.store().wf(),
                        i <= hashes@.len(),
                        hashes@ == self.store().successors(
                            (block_height + 1) as nat,
                            GETHEADERS_MAX_RESPONSE_HEADERS as nat,
                            message.hash_stop,
                        ),
                        headers@ == stored_headers(self.store(), hashes@.subrange(0, i as int)),
                    ensures
                        i == hashes@.len(),
                    decreases hashes@.len() - i,
                {
                    assert(self.store().blocks.contains_key(hashes@[i as int]));
                    match self.storage.block_header(BlockRef::Hash(hashes[i])) {
                        Some(header) => {
                            headers.push(header.raw);
                        },
                        None => {
                            break ;
                        },
                    }
                    assert(headers@ =~= stored_headers(
                        self.store(),
                        hashes@.subrange(0, i + 1),
                    ));
                    i += 1;
                }
                assert(hashes@.subrange(0, i as int) =~= hashes@);
                Effect::Send(
                    Task::Headers(peer_index, Headers::with_headers(headers), Some(request_id)),
                )
            },
            None => Effect::Misbehaving(peer_index, "Got 'headers' message without known blocks"),
        }
    }

    /// A 'mempool' request is accepted and gets no answer.
    pub fn serve_mempool(&self, peer_index: PeerIndex) {
    }

    /// The hashes of the main chain that follow the block of height
    /// `block_height`: at most `limit` of them, and none from `hash_stop` on.
    fn successors(&self, block_height: BlockHeight, limit: usize, hash_stop: &H256) -> (r: Vec<
        H256,
    >)
        requires
            self.wf(),
        ensures
            r@ == self.store().successors((block_height + 1) as nat, limit as nat, *hash_stop),
    {
        proof {
            self.storage.lemma_valid_store();
        }
        let ghost store = self.store();
        let ghost from = (block_height + 1) as nat;
        let mut hashes: Vec<H256> = Vec::new();
        let mut next: u64 = block_height as u64 + 1;
        while hashes.len() < limit && next <= 0xffff_ffff
            invariant
                self.wf(),
                store == self.store(),
                store.wf(),
                from == block_height + 1,
                from <= next <= 0x1_0000_0000,
                hashes@.len() == next - from,
                hashes@.len() <= limit,
                from <= store.canon.len() ==> next <= store.canon.len() && hashes@
                    == store.canon.subrange(from as int, next as int),
                from > store.canon.len() ==> next == from,
                forall|k: int| from <= k < next ==> store.canon[k] != *hash_stop,
                hashes@.len() < limit && next <= 0xffff_ffff || hashes@ == store.successors(
                    from,
                    limit as nat,
                    *hash_stop,
                ),
            decreases 0x1_0000_0000 - next,
        {
            match self.storage.block_hash(next as u32) {
                Some(block_hash) => {
                    if block_hash == *hash_stop {
                        assert(store.is_canon(*hash_stop));
                        assert(hashes@ == store.successors(from, limit as nat, *hash_stop));
                        return hashes;
                    }
                    hashes.push(block_hash);
                    assert(hashes@ =~= store.canon.subrange(from as int, next + 1));
                },
                None => {
                    assert(hashes@ =~= store.successors(from, limit as nat, *hash_stop));
                    return hashes;
                },
            }
            next += 1;
            assert(hashes@.len() < limit && next <= 0xffff_ffff || hashes@ =~= store.successors(
                from,
                limit as nat,
                *hash_stop,
            ));
        }
        assert(hashes@ =~= store.successors(from, limit as nat, *hash_stop));
        hashes
    }

    /// What a block has in common with the main chain: the height of its
    /// nearest ancestor on it, the block itself included.
    pub fn common_block(&self, hash: &H256) -> (r: Option<BlockHeight>)
        requires
            self.wf(),
        ensures
            r == self.store().common_block(*hash),
    {
        proof {
            self.storage.lemma_valid_store();
        }
        let ghost store = self.store();
        if let Some(block_number) = self.storage.block_number(hash) {
            return Some(block_number);
        }
        // the block is not on the main chain, but it may be on a fork: then the
        // block where the fork left the main chain is the best common block
        let mut block_hash = *hash;
        loop
            invariant
                self.wf(),
                store == self.store(),
                store.wf(),
                !store.is_canon(block_hash),
                store.blocks.contains_key(block_hash) || block_hash == *hash,
                store.blocks.contains_key(block_hash) ==> store.blocks.contains_key(*hash)
                    && store.fork_height(block_hash) == store.fork_height(*hash),
            ensures
                !store.blocks.contains_key(*hash),
            decreases store.heights[block_hash],
        {
            let block_header = match self.storage.block_header(BlockRef::Hash(block_hash)) {
                None => {
                    break ;
                },
                Some(block_header) => block_header,
            };
            assert(store.heights[block_hash] > 0);
            assert(store.fork_height(block_hash) == store.fork_height(store.parent(block_hash)));
            if let Some(block_number) = self.storage.block_number(
                &block_header.raw.previous_header_hash,
            ) {
                return Some(block_number);
            }
            block_hash = block_header.raw.previous_header_hash;
        }
        None
    }

    /// Finds the best block that the main chain has in common with a peer
    /// that describes its own chain by a locator and a stop hash.
    pub fn locate_best_common_block(&self, hash_stop: &H256, locator: &[H256]) -> (r: Option<
        BlockHeight,
    >)
        requires
            self.wf(),
        ensures
            r == self.store().locate(locator@.push(*hash_stop)),
    {
        let ghost store = self.store();
        let ghost candidates = locator@.push(*hash_stop);
        assert(candidates.subrange(0, candidates.len() as int) =~= candidates);
        let mut i: usize = 0;
        while i < locator.len()
            invariant
                self.wf(),
                store == self.store(),
                candidates == locator@.push(*hash_stop),
                i <= locator@.len(),
                store.locate(candidates) == store.locate(
                    candidates.subrange(i as int, candidates.len() as int),
                ),
            decreases locator@.len() - i,
        {
            let ghost rest = candidates.subrange(i as int, candidates.len() as int);
            assert(rest[0] == locator@[i as int]);
            assert(rest.drop_first() =~= candidates.subrange(i + 1, candidates.len() as int));
            if let Some(block_number) = self.common_block(&locator[i]) {
                return Some(block_number);
            }
            i += 1;
        }
        let ghost rest = candidates.subrange(i as int, candidates.len() as int);
        assert(rest[0] == *hash_stop);
        assert(store.locate(rest.drop_first()).is_none());
        self.common_block(hash_stop)
    }
}

} // verus!
