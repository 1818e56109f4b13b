use crate::chain::{BlockView, IndexedBlock, IndexedBlockHeader};
use crate::hash::H256;
use vstd::prelude::*;

verus! {

/// Names a block either by its height on the main chain or by its hash.
#[derive(Clone, Copy, Debug, PartialEq, Eq, Structural)]
pub enum BlockRef {
    Number(u32),
    Hash(H256),
}

/// Mathematical value of a block store: the blocks it holds, the height of
/// each of them, and the main chain.
pub struct StoreView {
    /// Every stored block, on the main chain or not, under its hash.
    pub blocks: Map<H256, BlockView>,
    /// Distance of every stored block from the genesis block.
    pub heights: Map<H256, nat>,
    /// The main chain: at index `n` the hash of its block of height `n`.
    pub canon: Seq<H256>,
}

impl StoreView {
    /// Hash of the block that the stored block `hash` builds on.
    pub open spec fn parent(self, hash: H256) -> H256 {
        self.blocks[hash].parent()
    }

    /// The stored blocks form a tree rooted at the genesis block, each block
    /// one higher than its parent, and the main chain is a path of that tree
    /// from the genesis block upwards.
    pub open spec fn wf(self) -> bool {
        &&& 0 < self.canon.len() <= 0x1_0000_0000
        &&& forall|h: H256| #[trigger] self.heights.contains_key(h) <==> self.blocks.contains_key(h)
        &&& forall|h: H256| #[trigger]
            self.blocks.contains_key(h) ==> self.blocks[h].hash() == h && self.heights[h]
                <= 0xffff_ffff
        &&& forall|h: H256| #[trigger]
            self.blocks.contains_key(h) && self.heights[h] > 0 ==> self.blocks.contains_key(
                self.parent(h),
            ) && self.heights[self.parent(h)] + 1 == self.heights[h]
        &&& forall|h: H256| #[trigger]
            self.blocks.contains_key(h) && self.heights[h] == 0 ==> h == self.canon[0]
        &&& forall|i: int|
            0 <= i < self.canon.len() ==> self.blocks.contains_key(#[trigger] self.canon[i])
                && self.heights[self.canon[i]] == i
        &&& forall|i: int|
            0 < i < self.canon.len() ==> self.parent(#[trigger] self.canon[i]) == self.canon[i
                - 1]
    }

    /// The block `hash` is stored and lies on the main chain.
    pub open spec fn is_canon(self, hash: H256) -> bool {
        &&& self.blocks.contains_key(hash)
        &&& self.heights[hash] < self.canon.len()
        &&& self.canon[self.heights[hash] as int] == hash
    }

    /// Height of the best block, the last of the main chain.
    pub open spec fn best_number(self) -> nat {
        (self.canon.len() - 1) as nat
    }

    /// Hash of the best block, the last of the main chain.
    pub open spec fn best_hash(self) -> H256 {
        self.canon.last()
    }

    /// Cumulative work of the branch that ends with the stored block `hash`.
    /// Every block counts for one unit of work, the genesis block included.
    pub open spec fn chain_work(self, hash: H256) -> nat {
        self.heights[hash] + 1
    }

    /// Height of `hash` on the main chain, if it lies on it.
    pub open spec fn block_number(self, hash: H256) -> Option<u32> {
        if self.is_canon(hash) {
            Some(self.heights[hash] as u32)
        } else {
            None
        }
    }

    /// Hash of the main chain's block of the given height, if it is that long.
    pub open spec fn block_hash(self, number: u32) -> Option<H256> {
        if number < self.canon.len() {
            Some(self.canon[number as int])
        } else {
            None
        }
    }

    /// Hash of the stored block that `block_ref` names, if there is one.
    pub open spec fn resolve(self, block_ref: BlockRef) -> Option<H256> {
        match block_ref {
            BlockRef::Number(number) => self.block_hash(number),
            BlockRef::Hash(hash) => if self.blocks.contains_key(hash) {
                Some(hash)
            } else {
                None
            },
        }
    }

    /// Header of the stored block that `block_ref` names.
    pub open spec fn block_header(self, block_ref: BlockRef) -> Option<IndexedBlockHeader> {
        match self.resolve(block_ref) {
            Some(hash) => Some(self.blocks[hash].header),
            None => None,
        }
    }

    /// The stored block that `block_ref` names.
    pub open spec fn block(self, block_ref: BlockRef) -> Option<BlockView> {
        match self.resolve(block_ref) {
            Some(hash) => Some(self.blocks[hash]),
            None => None,
        }
    }

    /// Bytes of the header of the stored block that `block_ref` names.
    pub open spec fn block_header_bytes(self, block_ref: BlockRef) -> Option<Seq<u8>> {
        match self.resolve(block_ref) {
            Some(hash) => Some(self.blocks[hash].header.raw.spec_bytes()),
            None => None,
        }
    }

    /// The store holds the block that `block_ref` names.
    pub open spec fn contains_block(self, block_ref: BlockRef) -> bool {
        self.resolve(block_ref).is_some()
    }

    /// The hashes on the way from the genesis block up to the stored block
    /// `hash`, both included.
    pub open spec fn route(self, hash: H256) -> Seq<H256>
        decreases self.heights[hash],
    {
        if self.heights[hash] > 0 && self.heights[self.parent(hash)] < self.heights[hash] {
            self.route(self.parent(hash)).push(hash)
        } else {
            seq![hash]
        }
    }

    /// The stored block `hash` is the block `ancestor` or descends from it.
    pub open spec fn descends_from(self, hash: H256, ancestor: H256) -> bool {
        self.blocks.contains_key(hash) && self.route(hash).contains(ancestor)
    }

    /// The block `hash` is stored and is, or descends from, a block of the
    /// main chain.
    pub open spec fn meets_canon(self, hash: H256) -> bool {
        exists|ancestor: H256| self.descends_from(hash, ancestor) && self.is_canon(ancestor)
    }

    /// The candidate at place `i` is the first that is stored.
    pub open spec fn is_first_stored(self, candidates: Seq<H256>, i: int) -> bool {
        &&& 0 <= i < candidates.len()
        &&& self.blocks.contains_key(candidates[i])
        &&& forall|j: int| 0 <= j < i ==> !self.blocks.contains_key(#[trigger] candidates[j])
    }

    /// The candidate at place `i` is the first that is, or descends from, a
    /// block of the main chain.
    pub open spec fn is_first_meeting(self, candidates: Seq<H256>, i: int) -> bool {
        &&& 0 <= i < candidates.len()
        &&& self.meets_canon(candidates[i])
        &&& forall|j: int| 0 <= j < i ==> !self.meets_canon(#[trigger] candidates[j])
    }

    /// The main chain's block of height `height` lies on the way from the
    /// genesis block to the stored block `hash`, and no block further up that
    /// way lies on the main chain.
    pub open spec fn is_highest_common(self, hash: H256, height: u32) -> bool {
        &&& height < self.route(hash).len()
        &&& self.is_canon(self.route(hash)[height as int])
        &&& self.block_hash(height) == Some(self.route(hash)[height as int])
        &&& forall|k: int|
            height < k < self.route(hash).len() ==> !self.is_canon(#[trigger] self.route(hash)[k])
    }

    /// Height of the nearest ancestor of the stored block `hash`, the block
    /// itself included, that lies on the main chain.
    pub open spec fn fork_height(self, hash: H256) -> nat
        decreases self.heights[hash],
    {
        if !self.is_canon(hash) && self.heights[hash] > 0 && self.heights[self.parent(hash)]
            < self.heights[hash] {
            self.fork_height(self.parent(hash))
        } else {
            self.heights[hash]
        }
    }

    /// What `hash` has in common with the main chain: the height of its
    /// nearest ancestor on it, or nothing where the block is not stored.
    pub open spec fn common_block(self, hash: H256) -> Option<u32> {
        if self.blocks.contains_key(hash) {
            Some(self.fork_height(hash) as u32)
        } else {
            None
        }
    }

    /// The best common block of the main chain and a list of candidates: what
    /// the first candidate that is stored has in common with the main chain.
    pub open spec fn locate(self, candidates: Seq<H256>) -> Option<u32>
        decreases candidates.len(),
    {
        if candidates.len() == 0 {
            None
        } else if self.blocks.contains_key(candidates[0]) {
            self.common_block(candidates[0])
        } else {
            self.locate(candidates.drop_first())
        }
    }

    /// Height at which a run of main chain blocks ends that starts at height
    /// `from`, holds at most `limit` blocks and stops before `stop`.
    pub open spec fn run_end(self, from: nat, limit: nat, stop: H256) -> nat {
        let end = if from + limit < self.canon.len() {
            from + limit
        } else {
            self.canon.len()
        };
        if self.is_canon(stop) && from <= self.heights[stop] < end {
            self.heights[stop]
        } else {
            end
        }
    }

    /// The hashes of the main chain from height `from` on: at most `limit` of
    /// them, and none from `stop` on.
    pub open spec fn successors(self, from: nat, limit: nat, stop: H256) -> Seq<H256> {
        if from <= self.canon.len() {
            self.canon.subrange(from as int, self.run_end(from, limit, stop) as int)
        } else {
            Seq::empty()
        }
    }
}

/// The way to a stored block starts at the genesis block, rises by one
/// block at a time and ends at the block.
pub proof fn lemma_route(store: StoreView, hash: H256)
    requires
        store.wf(),
        store.blocks.contains_key(hash),
    ensures
        store.route(hash).len() == store.heights[hash] + 1,
        store.route(hash).last() == hash,
        store.route(hash)[0] == store.canon[0],
        forall|i: int|
            0 <= i < store.route(hash).len() ==> store.blocks.contains_key(
                #[trigger] store.route(hash)[i],
            ) && store.heights[store.route(hash)[i]] == i,
        forall|i: int|
            0 < i < store.route(hash).len() ==> store.parent(#[trigger] store.route(hash)[i])
                == store.route(hash)[i - 1],
    decreases store.heights[hash],
{
    if store.heights[hash] > 0 {
        lemma_route(store, store.parent(hash));
    }
}

/// The way to a block of the main chain is the main chain up to that block.
pub proof fn lemma_route_canon(store: StoreView, hash: H256)
    requires
        store.wf(),
        store.is_canon(hash),
    ensures
        store.route(hash) == store.canon.subrange(0, store.heights[hash] as int + 1),
    decreases store.heights[hash],
{
    let n = store.heights[hash] as int;
    if n > 0 {
        assert(store.parent(store.canon[n]) == store.canon[n - 1]);
        lemma_route_canon(store, store.parent(hash));
        assert(store.route(hash) =~= store.canon.subrange(0, n + 1));
    } else {
        assert(store.route(hash) =~= store.canon.subrange(0, n + 1));
    }
}

/// The nearest ancestor of a stored block on the main chain lies on the way
/// to the block, and no block further up that way lies on the main chain.
pub proof fn lemma_fork_height(store: StoreView, hash: H256)
    requires
        store.wf(),
        store.blocks.contains_key(hash),
    ensures
        store.fork_height(hash) <= store.heights[hash],
        store.is_canon(store.route(hash)[store.fork_height(hash) as int]),
        store.canon[store.fork_height(hash) as int] == store.route(hash)[store.fork_height(
            hash,
        ) as int],
        forall|k: int|
            store.fork_height(hash) < k < store.route(hash).len() ==> !store.is_canon(
                #[trigger] store.route(hash)[k],
            ),
    decreases store.heights[hash],
{
    lemma_route(store, hash);
    if store.is_canon(hash) {
    } else {
        assert(store.heights[hash] > 0) by {
            if store.heights[hash] == 0 {
                assert(store.blocks.contains_key(store.canon[0]));
            }
        }
        let parent = store.parent(hash);
        lemma_fork_height(store, parent);
        lemma_route(store, parent);
        let n = store.fork_height(hash) as int;
        assert(store.route(hash)[n] == store.route(parent)[n]);
        assert forall|k: int| n < k < store.route(hash).len() implies !store.is_canon(
            #[trigger] store.route(hash)[k],
        ) by {
            if k < store.route(parent).len() {
                assert(store.route(hash)[k] == store.route(parent)[k]);
            }
        }
    }
}

/// A block meets the main chain exactly if it is stored.
pub proof fn lemma_meets_canon(store: StoreView, hash: H256)
    requires
        store.wf(),
    ensures
        store.meets_canon(hash) <==> store.blocks.contains_key(hash),
{
    if store.blocks.contains_key(hash) {
        lemma_route(store, hash);
        let genesis = store.canon[0];
        assert(store.route(hash)[0] == genesis);
        assert(store.blocks.contains_key(store.canon[0]));
        assert(store.descends_from(hash, genesis) && store.is_canon(genesis));
    }
}

/// What a stored block has in common with the main chain is the highest
/// block on the way to it that lies on the main chain.
pub proof fn lemma_common_block(store: StoreView, hash: H256)
    requires
        store.wf(),
        store.blocks.contains_key(hash),
    ensures
        store.common_block(hash) matches Some(height) && store.is_highest_common(hash, height),
{
    lemma_fork_height(store, hash);
    lemma_route(store, hash);
}

/// The best common block is what the first candidate that is stored has in
/// common with the main chain.
proof fn lemma_locate_stored(store: StoreView, candidates: Seq<H256>)
    ensures
        store.locate(candidates).is_none() <==> forall|i: int|
            0 <= i < candidates.len() ==> !store.blocks.contains_key(#[trigger] candidates[i]),
        store.locate(candidates).is_some() ==> exists|i: int|
            #[trigger] store.is_first_stored(candidates, i) && store.locate(candidates)
                == store.common_block(candidates[i]),
    decreases candidates.len(),
{
    if candidates.len() > 0 {
        let rest = candidates.drop_first();
        if store.blocks.contains_key(candidates[0]) {
            assert(store.is_first_stored(candidates, 0));
        } else {
            lemma_locate_stored(store, rest);
            assert forall|i: int| 0 <= i < rest.len() implies rest[i] == candidates[i + 1] by {}
            if store.locate(rest).is_none() {
                assert forall|i: int| 0 <= i < candidates.len() implies !store.blocks.contains_key(
                    #[trigger] candidates[i],
                ) by {
                    if i > 0 {
                        assert(rest[i - 1] == candidates[i]);
                    }
                }
            } else {
                let i = choose|i: int|
                    #[trigger] store.is_first_stored(rest, i) && store.locate(rest)
                        == store.common_block(rest[i]);
                assert forall|j: int| 0 <= j < i + 1 implies !store.blocks.contains_key(
                    #[trigger] candidates[j],
                ) by {
                    if j > 0 {
                        assert(candidates[j] == rest[j - 1]);
                    }
                }
                assert(candidates[i + 1] == rest[i]);
                assert(store.is_first_stored(candidates, i + 1));
            }
        }
    }
}

/// No best common block is found exactly if no candidate is, or descends
/// from, a block of the main chain. One that is found is what the first such
/// candidate has in common with the main chain: the highest block on the way
/// from the genesis block to the candidate that lies on the main chain.
pub proof fn lemma_locate(store: StoreView, candidates: Seq<H256>)
    requires
        store.wf(),
    ensures
        store.locate(candidates).is_none() <==> forall|i: int|
            0 <= i < candidates.len() ==> !store.meets_canon(#[trigger] candidates[i]),
        store.locate(candidates) matches Some(height) ==> exists|i: int|
            #[trigger] store.is_first_meeting(candidates, i) && store.is_highest_common(
                candidates[i],
                height,
            ),
{
    lemma_locate_stored(store, candidates);
    assert forall|i: int| 0 <= i < candidates.len() implies store.meets_canon(
        #[trigger] candidates[i],
    ) == store.blocks.contains_key(candidates[i]) by {
        lemma_meets_canon(store, candidates[i]);
    }
    if store.locate(candidates).is_some() {
        let i = choose|i: int|
            #[trigger] store.is_first_stored(candidates, i) && store.locate(candidates)
                == store.common_block(candidates[i]);
        lemma_common_block(store, candidates[i]);
        assert(store.is_first_meeting(candidates, i));
    }
}

/// Read access to the headers of a block store.
pub trait BlockHeaderProvider {
    /// Mathematical value of the store.
    spec fn store(&self) -> StoreView;

    /// Validity of the store's representation.
    spec fn valid(&self) -> bool;

    /// A valid store holds a tree of blocks and a main chain in it.
    proof fn lemma_valid_store(&self)
        requires
            self.valid(),
        ensures
            self.store().wf(),
    ;

    /// resolves header bytes by block reference (number/hash)
    fn block_header_bytes(&self, block_ref: BlockRef) -> (r: Option<Vec<u8>>)
        requires
            self.valid(),
        ensures
            r.is_some() == self.store().contains_block(block_ref),
            r matches Some(bytes) ==> Some(bytes@) == self.store().block_header_bytes(block_ref),
    ;

    /// resolves header by block reference (number/hash)
    fn block_header(&self, block_ref: BlockRef) -> (r: Option<IndexedBlockHeader>)
        requires
            self.valid(),
        ensures
            r == self.store().block_header(block_ref),
    ;
}

/// Read access to a block store.
pub trait BlockProvider: BlockHeaderProvider {
    /// resolves number by block hash
    fn block_number(&self, hash: &H256) -> (r: Option<u32>)
        requires
            self.valid(),
        ensures
            r == self.store().block_number(*hash),
    ;

    /// resolves hash by block number
    fn block_hash(&self, number: u32) -> (r: Option<H256>)
        requires
            self.valid(),
        ensures
            r == self.store().block_hash(number),
    ;

    /// resolves block body by block reference (number/hash)
    fn block(&self, block_ref: BlockRef) -> (r: Option<IndexedBlock>)
        requires
            self.valid(),
        ensures
            r.is_some() == self.store().contains_block(block_ref),
            r matches Some(block) ==> Some(block@) == self.store().block(block_ref),
    ;

    /// returns true if store contains given block
    fn contains_block(&self, block_ref: BlockRef) -> (r: bool)
        requires
            self.valid(),
        ensures
            r == self.store().contains_block(block_ref),
    {
        self.block_header_bytes(block_ref).is_some()
    }
}

} // verus!
