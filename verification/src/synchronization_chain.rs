use crate::block_provider::{
    lemma_route, lemma_route_canon, BlockHeaderProvider, BlockProvider, BlockRef, StoreView,
};
use crate::chain::{BlockView, IndexedBlock, IndexedBlockHeader};
use crate::hash::H256;
use vstd::prelude::*;

verus! {

/// Why the store refused a block.
#[derive(Clone, Copy, Debug, PartialEq, Eq, Structural)]
pub enum StorageError {
    /// The block that it builds on is not stored.
    UnknownParent,
    /// The block that it builds on has the greatest height that can be numbered.
    HeightLimit,
}

/// Number and hash of the best block.
#[derive(Clone, Copy, Debug, PartialEq, Eq, Structural)]
pub struct BestBlock {
    pub number: u32,
    pub hash: H256,
}

impl StoreView {
    /// The store that holds the genesis block and nothing else.
    pub open spec fn genesis(block: BlockView) -> StoreView {
        StoreView {
            blocks: Map::empty().insert(block.hash(), block),
            heights: Map::empty().insert(block.hash(), 0nat),
            canon: seq![block.hash()],
        }
    }

    /// The store after `block` was offered to it. A block whose hash is
    /// stored already changes nothing. Another block is stored if the block
    /// that it builds on is. Where its branch then has more cumulative work
    /// than the main chain, the main chain becomes the way from the genesis
    /// block to the new block.
    pub open spec fn insert(self, block: BlockView) -> Result<StoreView, StorageError> {
        if self.blocks.contains_key(block.hash()) {
            Ok(self)
        } else if !self.blocks.contains_key(block.parent()) {
            Err(StorageError::UnknownParent)
        } else if self.heights[block.parent()] >= 0xffff_ffff {
            Err(StorageError::HeightLimit)
        } else {
            let stored = StoreView {
                blocks: self.blocks.insert(block.hash(), block),
                heights: self.heights.insert(block.hash(), self.heights[block.parent()] + 1),
                canon: self.canon,
            };
            if stored.chain_work(block.hash()) > self.chain_work(self.best_hash()) {
                Ok(StoreView { canon: self.route(block.parent()).push(block.hash()), ..stored })
            } else {
                Ok(stored)
            }
        }
    }
}

/// A store that takes in a block stays a tree of blocks with a main chain in it.
pub proof fn lemma_insert_wf(store: StoreView, block: BlockView)
    requires
        store.wf(),
        store.insert(block).is_ok(),
    ensures
        store.insert(block).unwrap().wf(),
{
    if !store.blocks.contains_key(block.hash()) {
        lemma_insert_new_wf(store, block);
    }
}

/// A store that takes in a block that it does not hold stays a tree of
/// blocks with a main chain in it.
proof fn lemma_insert_new_wf(store: StoreView, block: BlockView)
    requires
        store.wf(),
        !store.blocks.contains_key(block.hash()),
        store.insert(block).is_ok(),
    ensures
        store.insert(block).unwrap().wf(),
{
    let after = store.insert(block).unwrap();
    let hash = block.hash();
    let height = store.heights[block.parent()] + 1;
    lemma_route(store, block.parent());
    assert forall|h: H256| #[trigger]
        after.blocks.contains_key(h) && after.heights[h] > 0 implies after.blocks.contains_key(
        after.parent(h),
    ) && after.heights[after.parent(h)] + 1 == after.heights[h] by {
        if h != hash {
            assert(store.blocks.contains_key(h));
        }
    }
    assert forall|h: H256| #[trigger]
        after.blocks.contains_key(h) && after.heights[h] == 0 implies h == after.canon[0] by {
        assert(store.blocks.contains_key(h));
    }
    assert forall|i: int| 0 <= i < after.canon.len() implies after.blocks.contains_key(
        #[trigger] after.canon[i],
    ) && after.heights[after.canon[i]] == i by {
        if height > store.best_number() {
            if i < after.canon.len() - 1 {
                assert(after.canon[i] == store.route(block.parent())[i]);
            }
        } else {
            assert(store.blocks.contains_key(store.canon[i]));
        }
    }
    assert forall|i: int| 0 < i < after.canon.len() implies after.parent(
        #[trigger] after.canon[i],
    ) == after.canon[i - 1] by {
        if height > store.best_number() {
            if i < after.canon.len() - 1 {
                assert(after.canon[i] == store.route(block.parent())[i]);
                assert(after.canon[i - 1] == store.route(block.parent())[i - 1]);
                assert(store.blocks.contains_key(store.route(block.parent())[i]));
            } else {
                assert(after.canon[i - 1] == store.route(block.parent()).last());
            }
        } else {
            assert(store.blocks.contains_key(store.canon[i]));
        }
    }
}

/// A stored block with its height.
struct Entry {
    block: IndexedBlock,
    height: u32,
}

/// The blocks that the node knows, with the main chain among them.
pub struct Chain {
    /// Every stored block, in the order of arrival.
    entries: Vec<Entry>,
    /// The main chain: at index `n` the hash of its block of height `n`.
    canon: Vec<H256>,
    /// Mathematical value of the store.
    state: Ghost<StoreView>,
}

impl Chain {
    /// The representation agrees with the store's mathematical value, which
    /// is a tree of blocks with a main chain in it.
    pub closed spec fn wf(&self) -> bool {
        &&& self.state@.wf()
        &&& self.canon@ == self.state@.canon
        &&& forall|i: int|
            0 <= i < self.entries@.len() ==> {
                let entry = #[trigger] self.entries@[i];
                &&& self.state@.blocks.contains_key(entry.block@.hash())
                &&& self.state@.blocks[entry.block@.hash()] == entry.block@
                &&& self.state@.heights[entry.block@.hash()] == entry.height
            }
        &&& forall|h: H256| #[trigger]
            self.state@.blocks.contains_key(h) ==> exists|i: int|
                0 <= i < self.entries@.len() && (#[trigger] self.entries@[i]).block@.hash() == h
    }

    /// The store that holds the genesis block and nothing else.
    pub fn new(genesis: IndexedBlock) -> (r: Chain)
        ensures
            r.wf(),
            r.store() == StoreView::genesis(genesis@),
    {
        let ghost state = StoreView::genesis(genesis@);
        let mut canon: Vec<H256> = Vec::new();
        canon.push(genesis.hash());
        let mut entries: Vec<Entry> = Vec::new();
        entries.push(Entry { block: genesis, height: 0 });
        let r = Chain { entries, canon, state: Ghost(state) };
        assert(r.canon@ =~= state.canon);
        assert forall|h: H256| #[trigger] state.blocks.contains_key(h) implies exists|i: int|
            0 <= i < r.entries@.len() && (#[trigger] r.entries@[i]).block@.hash() == h by {
            assert(r.entries@[0].block@.hash() == h);
        }
        r
    }

    /// Place of the stored block with the given hash.
    fn find(&self, hash: &H256) -> (r: Option<usize>)
        requires
            self.wf(),
        ensures
            match r {
                Some(i) => i < self.entries@.len() && self.entries@[i as int].block@.hash()
                    == *hash && self.state@.blocks.contains_key(*hash),
                None => !self.state@.blocks.contains_key(*hash),
            },
    {
        let mut i: usize = 0;
        while i < self.entries.len()
            invariant
                self.wf(),
                i <= self.entries@.len(),
                forall|j: int| 0 <= j < i ==> (#[trigger] self.entries@[j]).block@.hash() != *hash,
            decreases self.entries@.len() - i,
        {
            if self.entries[i].block.header.hash == *hash {
                return Some(i);
            }
            i += 1;
        }
        None
    }

    /// Place of the stored block that `block_ref` names.
    fn find_ref(&self, block_ref: BlockRef) -> (r: Option<usize>)
        requires
            self.wf(),
        ensures
            match r {
                Some(i) => i < self.entries@.len() && self.state@.resolve(block_ref) == Some(
                    self.entries@[i as int].block@.hash(),
                ),
                None => self.state@.resolve(block_ref).is_none(),
            },
    {
        match block_ref {
            BlockRef::Number(number) => {
                if (number as usize) < self.canon.len() {
                    let hash = self.canon[number as usize];
                    assert(self.state@.blocks.contains_key(self.state@.canon[number as int]));
                    self.find(&hash)
                } else {
                    None
                }
            },
            BlockRef::Hash(hash) => self.find(&hash),
        }
    }

    /// Number and hash of the best block, the last of the main chain.
    pub fn best_block(&self) -> (r: BestBlock)
        requires
            self.wf(),
        ensures
            r.number == self.store().best_number(),
            r.hash == self.store().best_hash(),
    {
        let number = self.canon.len() - 1;
        BestBlock { number: number as u32, hash: self.canon[number] }
    }

    /// Takes in a block, unless a block with its hash is stored already.
    pub fn insert_best_block(&mut self, block: IndexedBlock) -> (r: Result<(), StorageError>)
        requires
            old(self).wf(),
        ensures
            final(self).wf(),
            match r {
                Ok(_) => old(self).store().insert(block@) == Ok::<StoreView, StorageError>(
                    final(self).store(),
                ),
                Err(e) => old(self).store().insert(block@) == Err::<StoreView, StorageError>(e)
                    && final(self).store() == old(self).store(),
            },
            r.is_ok() ==> final(self).store().blocks.contains_key(block@.hash()),
            old(self).store().blocks.contains_key(block@.hash()) ==> r.is_ok() && final(self).store()
                == old(self).store(),
    {
        let ghost store = self.state@;
        let hash = block.hash();
        if self.find(&hash).is_some() {
            return Ok(());
        }
        let parent = block.parent_hash();
        let parent_height = match self.find(&parent) {
            Some(i) => self.entries[i].height,
            None => {
                return Err(StorageError::UnknownParent);
            },
        };
        if parent_height == 0xffff_ffff {
            return Err(StorageError::HeightLimit);
        }
        let height = parent_height + 1;
        let ghost after = store.insert(block@).unwrap();
        proof {
            lemma_insert_wf(store, block@);
            lemma_route(store, parent);
        }
        if height as usize >= self.canon.len() {
            // the branch of the new block holds more blocks than the main chain
            let mut side: Vec<H256> = Vec::new();
            let mut cursor = parent;
            let mut cursor_height = parent_height;
            loop
                invariant
                    self.wf(),
                    self.state@ == store,
                    store.blocks.contains_key(cursor),
                    store.heights[cursor] == cursor_height,
                    store.route(parent) == store.route(cursor) + side@.reverse(),
                ensures
                    store.is_canon(cursor),
                decreases cursor_height,
            {
                if (cursor_height as usize) < self.canon.len() && self.canon[cursor_height as usize]
                    == cursor {
                    break ;
                }
                let i = match self.find(&cursor) {
                    Some(i) => i,
                    None => {
                        break ;
                    },
                };
                assert(cursor_height > 0);
                let ghost before = side@;
                side.push(cursor);
                let next = self.entries[i].block.header.raw.previous_header_hash;
                assert(store.route(cursor) == store.route(next).push(cursor));
                assert(store.route(next).push(cursor) + before.reverse() =~= store.route(next)
                    + side@.reverse());
                cursor = next;
                cursor_height = cursor_height - 1;
            }
            proof {
                lemma_route_canon(store, cursor);
            }
            self.canon.truncate(cursor_height as usize + 1);
            assert(self.canon@ =~= store.route(cursor));
            let ghost whole = side@;
            while side.len() > 0
                invariant
                    side@.len() <= whole.len(),
                    side@ == whole.subrange(0, side@.len() as int),
                    self.canon@ + side@.reverse() == store.route(cursor) + whole.reverse(),
                    self.entries == old(self).entries,
                    self.state == old(self).state,
                decreases side@.len(),
            {
                let ghost before = side@;
                let ghost canon_before = self.canon@;
                let next = side.pop().unwrap();
                self.canon.push(next);
                assert(canon_before.push(next) + side@.reverse() =~= canon_before
                    + before.reverse());
            }
            assert(self.canon@ =~= store.route(parent));
            self.canon.push(hash);
        }
        self.entries.push(Entry { block, height });
        self.state = Ghost(after);
        assert(self.canon@ =~= after.canon);
        assert forall|h: H256| #[trigger] after.blocks.contains_key(h) implies exists|i: int|
            0 <= i < self.entries@.len() && (#[trigger] self.entries@[i]).block@.hash() == h by {
            if h == block@.hash() {
                assert(self.entries@[self.entries@.len() - 1].block@.hash() == h);
            } else {
                assert(store.blocks.contains_key(h));
                let i = choose|i: int|
                    0 <= i < old(self).entries@.len() && (#[trigger] old(
                        self,
                    ).entries@[i]).block@.hash() == h;
                assert(self.entries@[i].block@.hash() == h);
            }
        }
        Ok(())
    }
}

impl BlockHeaderProvider for Chain {
    closed spec fn store(&self) -> StoreView {
        self.state@
    }

    open spec fn valid(&self) -> bool {
        self.wf()
    }

    proof fn lemma_valid_store(&self) {
    }

    fn block_header_bytes(&self, block_ref: BlockRef) -> (r: Option<Vec<u8>>) {
        match self.find_ref(block_ref) {
            Some(i) => Some(self.entries[i].block.header.raw.to_bytes()),
            None => None,
        }
    }

    fn block_header(&self, block_ref: BlockRef) -> (r: Option<IndexedBlockHeader>) {
        match self.find_ref(block_ref) {
            Some(i) => Some(self.entries[i].block.header),
            None => None,
        }
    }
}

impl BlockProvider for Chain {
    fn block_number(&self, hash: &H256) -> (r: Option<u32>) {
        match self.find(hash) {
            Some(i) => {
                let height = self.entries[i].height;
                if (height as usize) < self.canon.len() && self.canon[height as usize] == *hash {
                    Some(height)
                } else {
                    None
                }
            },
            None => None,
        }
    }

    fn block_hash(&self, number: u32) -> (r: Option<H256>) {
        if (number as usize) < self.canon.len() {
            Some(self.canon[number as usize])
        } else {
            None
        }
    }

    fn block(&self, block_ref: BlockRef) -> (r: Option<IndexedBlock>) {
        match self.find_ref(block_ref) {
            Some(i) => Some(self.entries[i].block.clone()),
            None => None,
        }
    }
}

} // verus!
