use crate::block_provider::{BlockHeaderProvider, BlockProvider, BlockRef, StoreView};
use crate::chain::{BlockView, IndexedBlock};
use crate::hash::H256;
use crate::orphan_blocks_pool::{
    block_views, distinct_hashes, drained, holds_hash, lemma_drained_nothing,
    lemma_filter_blocks, not_among, OrphanBlocksPool,
};
use crate::synchronization_chain::{lemma_insert_wf, Chain, StorageError};
use crate::synchronization_verifier::{
    rules_of, ChainVerifier, SyncVerifier, VerificationParameters, VerifierView,
};
use std::collections::VecDeque;
use vstd::prelude::*;

verus! {

broadcast use vstd::std_specs::vecdeque::group_vec_dequeue_axioms;

/// Maximum number of orphaned in-memory blocks
pub const MAX_ORPHANED_BLOCKS: usize = 1024;

/// Why a block was not appended.
#[derive(Debug, PartialEq)]
pub enum Error {
    /// The orphan pool is full.
    TooManyOrphanBlocks,
    /// The rules refused the block, for the given reason.
    Verification(String),
    /// The store refused the block.
    Database(StorageError),
}

/// Mathematical value of an [`Error`].
pub enum ErrorView {
    TooManyOrphanBlocks,
    Verification(Seq<char>),
    Database(StorageError),
}

impl View for Error {
    type V = ErrorView;

    open spec fn view(&self) -> ErrorView {
        match *self {
            Error::TooManyOrphanBlocks => ErrorView::TooManyOrphanBlocks,
            Error::Verification(reason) => ErrorView::Verification(reason@),
            Error::Database(e) => ErrorView::Database(e),
        }
    }
}

/// Mathematical value of an optional error.
pub open spec fn error_view(err: Option<Error>) -> Option<ErrorView> {
    match err {
        Some(e) => Some(e@),
        None => None,
    }
}

/// Mathematical value of what appending returns.
pub open spec fn result_view(r: Result<(), Error>) -> Result<(), ErrorView> {
    match r {
        Ok(_) => Ok(()),
        Err(e) => Err(e@),
    }
}

/// Mathematical value of the receiver of verification events: the store
/// and the error that has not been taken yet.
pub struct SinkView {
    pub store: StoreView,
    pub err: Option<ErrorView>,
}

impl SinkView {
    /// The receiver after a block has passed verification: the block was
    /// offered to the store, and a refusal is the pending error.
    pub open spec fn on_success(self, block: BlockView) -> SinkView {
        match self.store.insert(block) {
            Ok(store) => SinkView { store, err: self.err },
            Err(e) => SinkView { store: self.store, err: Some(ErrorView::Database(e)) },
        }
    }

    /// The receiver after a block failed verification for the given reason.
    pub open spec fn on_error(self, reason: Seq<char>) -> SinkView {
        SinkView { store: self.store, err: Some(ErrorView::Verification(reason)) }
    }
}

/// Blocks writer data
pub struct BlocksWriterSinkData {
    /// Synchronization chain.
    chain: Chain,
    /// Last verification error
    err: Option<Error>,
}

impl View for BlocksWriterSinkData {
    type V = SinkView;

    closed spec fn view(&self) -> SinkView {
        SinkView { store: self.chain.store(), err: error_view(self.err) }
    }
}

impl BlocksWriterSinkData {
    /// The store is valid.
    pub closed spec fn wf(&self) -> bool {
        self.chain.wf()
    }

    /// The store.
    pub closed spec fn chain_view(&self) -> Chain {
        self.chain
    }

    /// Create new blocks writer data
    pub fn new(storage: Chain) -> (r: Self)
        requires
            storage.wf(),
        ensures
            r.wf(),
            r.chain_view() == storage,
            r@ == (SinkView { store: storage.store(), err: None }),
    {
        BlocksWriterSinkData { chain: storage, err: None }
    }

    /// Take last verification error
    pub fn error(&mut self) -> (r: Option<Error>)
        ensures
            error_view(r) == old(self)@.err,
            final(self)@ == (SinkView { store: old(self)@.store, err: None }),
            final(self).wf() == old(self).wf(),
            final(self).chain_view() == old(self).chain_view(),
    {
        self.err.take()
    }

    /// The store.
    pub fn chain(&self) -> (r: &Chain)
        ensures
            *r == self.chain_view(),
            self.wf() ==> r.wf(),
            r.store() == self@.store,
    {
        &self.chain
    }
}

/// Verification events receiver
pub struct BlocksWriterSink {
    /// Blocks writer data
    data: BlocksWriterSinkData,
}

impl View for BlocksWriterSink {
    type V = SinkView;

    closed spec fn view(&self) -> SinkView {
        self.data@
    }
}

impl BlocksWriterSink {
    /// The store is valid.
    pub closed spec fn wf(&self) -> bool {
        self.data.wf()
    }

    /// The data behind the receiver.
    pub closed spec fn data_view(&self) -> BlocksWriterSinkData {
        self.data
    }

    /// Create new verification events receiver
    pub fn new(data: BlocksWriterSinkData) -> (r: Self)
        ensures
            r.data_view() == data,
            r@ == data@,
            r.wf() == data.wf(),
    {
        BlocksWriterSink { data }
    }

    /// The data behind the receiver.
    pub fn data(&self) -> (r: &BlocksWriterSinkData)
        ensures
            *r == self.data_view(),
            r@ == self@,
            r.wf() == self.wf(),
    {
        &self.data
    }

    /// Take last verification error
    pub fn error(&mut self) -> (r: Option<Error>)
        ensures
            error_view(r) == old(self)@.err,
            final(self)@ == (SinkView { store: old(self)@.store, err: None }),
            final(self).wf() == old(self).wf(),
    {
        self.data.error()
    }

    /// A block has passed verification: it is handed to the store, and a
    /// refusal is kept as the pending error.
    pub fn on_block_verification_success(&mut self, block: IndexedBlock)
        requires
            old(self).wf(),
        ensures
            final(self).wf(),
            final(self)@ == old(self)@.on_success(block@),
    {
        if let Err(err) = self.data.chain.insert_best_block(block) {
            self.data.err = Some(Error::Database(err));
        }
    }

    /// A block was verified with the given outcome: on success it is handed
    /// to the store, else the reason is kept as the pending error.
    pub fn on_block_verified(&mut self, outcome: Result<(), String>, block: IndexedBlock)
        requires
            old(self).wf(),
        ensures
            final(self).wf(),
            final(self)@ == (match outcome {
                Ok(_) => old(self)@.on_success(block@),
                Err(reason) => old(self)@.on_error(reason@),
            }),
    {
        match outcome {
            Ok(_) => {
                self.on_block_verification_success(block);
            },
            Err(reason) => {
                let hash = block.hash();
                self.on_block_verification_error(reason.as_str(), &hash);
            },
        }
    }

    /// A block failed verification: the reason is kept as the pending error.
    pub fn on_block_verification_error(&mut self, err: &str, _hash: &H256)
        ensures
            final(self).wf() == old(self).wf(),
            final(self)@ == old(self)@.on_error(err@),
    {
        self.data.err = Some(Error::Verification(err.to_owned()));
    }
}

/// The hashes of a run of blocks.
pub open spec fn block_hashes(blocks: Seq<BlockView>) -> Seq<H256> {
    Seq::new(blocks.len(), |i: int| blocks[i].hash())
}

impl StoreView {
    /// The store after it has taken in a run of blocks, one after the other,
    /// or the first refusal.
    pub open spec fn insert_all(self, blocks: Seq<BlockView>) -> Result<StoreView, StorageError>
        decreases blocks.len(),
    {
        if blocks.len() == 0 {
            Ok(self)
        } else {
            match self.insert_all(blocks.drop_last()) {
                Ok(store) => store.insert(blocks.last()),
                Err(e) => Err(e),
            }
        }
    }
}

/// Mathematical value of a [`BlocksWriter`].
pub struct WriterView {
    /// The store.
    pub store: StoreView,
    /// The orphaned blocks, in the order of arrival.
    pub orphans: Seq<BlockView>,
    /// The verifier.
    pub verifier: VerifierView,
}

impl WriterView {
    /// The store is a tree of blocks with its main chain; the pool holds at
    /// most `MAX_ORPHANED_BLOCKS` blocks, no two with one hash; and a block
    /// of the pool is not stored, nor is the block that it builds on.
    pub open spec fn wf(self) -> bool {
        &&& self.store.wf()
        &&& distinct_hashes(self.orphans)
        &&& self.orphans.len() <= MAX_ORPHANED_BLOCKS
        &&& forall|i: int|
            0 <= i < self.orphans.len() ==> !self.store.blocks.contains_key(
                (#[trigger] self.orphans[i]).hash(),
            ) && !self.store.blocks.contains_key(self.orphans[i].parent())
    }

    /// `store` holds what the writer's store holds and the first `accepted`
    /// blocks of `queue`.
    pub open spec fn stored(self, queue: Seq<BlockView>, accepted: int, store: StoreView) -> bool {
        &&& 0 <= accepted <= queue.len()
        &&& forall|h: H256|
            store.blocks.contains_key(h) <==> self.store.blocks.contains_key(h) || holds_hash(
                queue.subrange(0, accepted),
                h,
            )
    }

    /// The block at place `i` of `queue` passes verification when its turn
    /// comes, the blocks before it having been stored.
    pub open spec fn passes_at(self, queue: Seq<BlockView>, i: int) -> bool {
        match self.store.insert_all(queue.subrange(0, i)) {
            Ok(store) => self.verifier.after_all(block_hashes(queue.subrange(0, i))).passes(
                queue[i],
                store,
            ),
            Err(_) => false,
        }
    }

    /// The outcome of verifying the blocks of `queue` one after the other:
    /// the first `accepted` of them passed and were stored. If that is not
    /// all of them, the next one was refused: by the rules if it does not
    /// pass verification, else by the store.
    pub open spec fn verified(
        self,
        queue: Seq<BlockView>,
        accepted: int,
        post: WriterView,
        result: Result<(), ErrorView>,
    ) -> bool {
        &&& 0 <= accepted <= queue.len()
        &&& self.store.insert_all(queue.subrange(0, accepted)) == Ok::<StoreView, StorageError>(
            post.store,
        )
        &&& forall|i: int| 0 <= i < accepted ==> #[trigger] self.passes_at(queue, i)
        &&& if accepted == queue.len() {
            &&& result == Ok::<(), ErrorView>(())
            &&& post.verifier == self.verifier.after_all(block_hashes(queue))
        } else {
            let refused = queue[accepted];
            let verifier = self.verifier.after_all(block_hashes(queue.subrange(0, accepted)));
            &&& post.verifier == verifier.after(refused.hash())
            &&& if self.passes_at(queue, accepted) {
                result matches Err(ErrorView::Database(e)) && post.store.insert(refused) == Err::<
                    StoreView,
                    StorageError,
                >(e)
            } else {
                result matches Err(ErrorView::Verification(_))
            }
        }
    }

    /// `post` and `result` are a possible outcome of appending `block`.
    ///
    /// A block that is stored, or that waits in the pool, changes nothing.
    /// A block whose parent is not stored joins the pool, unless the pool is
    /// full. Any other block is verified, and after it the blocks of the pool
    /// that descend from it, which all leave the pool.
    pub open spec fn appended(
        self,
        block: BlockView,
        post: WriterView,
        result: Result<(), ErrorView>,
    ) -> bool {
        if self.store.blocks.contains_key(block.hash()) || holds_hash(self.orphans, block.hash()) {
            post == self && result == Ok::<(), ErrorView>(())
        } else if !self.store.blocks.contains_key(block.parent()) {
            if self.orphans.len() >= MAX_ORPHANED_BLOCKS {
                post == self && result == Err::<(), ErrorView>(ErrorView::TooManyOrphanBlocks)
            } else {
                post == (WriterView { orphans: self.orphans.push(block), ..self }) && result
                    == Ok::<(), ErrorView>(())
            }
        } else {
            exists|removed: Seq<BlockView>, accepted: int|
                {
                    &&& drained(self.orphans, block.hash(), removed, post.orphans)
                    &&& #[trigger] self.verified(seq![block] + removed, accepted, post, result)
                }
        }
    }
}

/// Synchronous block writer
pub struct BlocksWriter<V: ChainVerifier> {
    /// Orphaned blocks pool
    orphaned_blocks_pool: OrphanBlocksPool,
    /// Blocks verifier
    verifier: SyncVerifier<V>,
    /// Verification events receiver, with the blocks storage
    sink: BlocksWriterSink,
}

impl<V: ChainVerifier> View for BlocksWriter<V> {
    type V = WriterView;

    closed spec fn view(&self) -> WriterView {
        WriterView {
            store: self.sink@.store,
            orphans: self.orphaned_blocks_pool@,
            verifier: self.verifier@,
        }
    }
}

impl<V: ChainVerifier> BlocksWriter<V> {
    /// The writer's invariant: that of its value, with a valid store and no
    /// error waiting to be taken.
    pub closed spec fn wf(&self) -> bool {
        &&& self@.wf()
        &&& self.sink.wf()
        &&& self.sink@.err.is_none()
    }

    /// The store that the writer appends to.
    pub closed spec fn storage_view(&self) -> Chain {
        self.sink.data_view().chain_view()
    }

    /// Create new synchronous blocks writer
    pub fn new(storage: Chain, verifier: V, verification_params: VerificationParameters) -> (r:
        BlocksWriter<V>)
        requires
            storage.wf(),
        ensures
            r.wf(),
            r@.wf(),
            r.storage_view() == storage,
            r@ == (WriterView {
                store: storage.store(),
                orphans: Seq::empty(),
                verifier: VerifierView {
                    verification_level: verification_params.verification_level,
                    verification_edge: verification_params.verification_edge,
                    enforce_full_verification: storage.store().contains_block(
                        BlockRef::Hash(verification_params.verification_edge),
                    ),
                    rules: rules_of(verifier),
                },
            }),
    {
        proof {
            storage.lemma_valid_store();
        }
        let verifier = SyncVerifier::new(verifier, &storage, verification_params);
        let sink_data = BlocksWriterSinkData::new(storage);
        let sink = BlocksWriterSink::new(sink_data);
        BlocksWriter { orphaned_blocks_pool: OrphanBlocksPool::new(), verifier, sink }
    }

    /// The store that the writer appends to.
    pub fn storage(&self) -> (r: &Chain)
        ensures
            *r == self.storage_view(),
            self.wf() ==> r.wf(),
            r.store() == self@.store,
    {
        self.sink.data().chain()
    }

    /// Number of orphaned blocks.
    pub fn orphaned_blocks(&self) -> (r: usize)
        ensures
            r == self@.orphans.len(),
    {
        self.orphaned_blocks_pool.len()
    }

    /// Append new block
    pub fn append_block(&mut self, block: IndexedBlock) -> (r: Result<(), Error>)
        requires
            old(self).wf(),
        ensures
            final(self).wf(),
            old(self)@.appended(block@, final(self)@, result_view(r)),
            final(self)@.orphans.len() <= MAX_ORPHANED_BLOCKS,
            r.is_ok() ==> (final(self)@.store.blocks.contains_key(block@.hash()) != holds_hash(
                final(self)@.orphans,
                block@.hash(),
            )),
            r matches Err(Error::Database(e)) ==> e == StorageError::HeightLimit,
            final(self)@.wf(),
    {
        let ghost pre = self@;
        let hash = block.hash();
        // do not append block if it is already there
        if self.sink.data().chain().contains_block(BlockRef::Hash(hash)) {
            proof {
                lemma_pool_misses_stored(pre, hash);
            }
            return Ok(());
        }
        // a block that waits in the pool waits on
        if self.orphaned_blocks_pool.contains_unknown_block(&hash) {
            return Ok(());
        }
        // verify && insert only if parent block is already in the storage
        if !self.sink.data().chain().contains_block(BlockRef::Hash(block.parent_hash())) {
            // we can't hold many orphaned blocks in memory during import
            if self.orphaned_blocks_pool.len() >= MAX_ORPHANED_BLOCKS {
                return Err(Error::TooManyOrphanBlocks);
            }
            self.orphaned_blocks_pool.insert_orphaned_block(block);
            assert(self@.orphans[self@.orphans.len() - 1] == block@);
            assert forall|i: int| 0 <= i < self@.orphans.len() implies !self@.store.blocks.contains_key(
                (#[trigger] self@.orphans[i]).hash(),
            ) && !self@.store.blocks.contains_key(self@.orphans[i].parent()) by {
                if i < pre.orphans.len() {
                    assert(self@.orphans[i] == pre.orphans[i]);
                }
            }
            return Ok(());
        }
        // verify && insert block && all its orphan children
        let mut verification_queue: VecDeque<IndexedBlock> =
            self.orphaned_blocks_pool.remove_blocks_for_parent(&hash);
        let ghost removed = block_views(verification_queue@);
        let ghost queue = seq![block@] + removed;
        let ghost kept = self.orphaned_blocks_pool@;
        verification_queue.push_front(block);
        proof {
            assert(block_views(verification_queue@) =~= queue);
        }
        let ghost before = self@;
        let r = self.verify_queue(verification_queue);
        proof {
            let accepted = choose|accepted: int|
                before.stored(queue, accepted, self@.store) && #[trigger] before.verified(
                    queue,
                    accepted,
                    self@,
                    result_view(r),
                );
            lemma_kept_orphans(pre, block@, removed, kept, accepted, self@.store);
            assert forall|i: int| 0 <= i < queue.len() implies #[trigger] pre.passes_at(queue, i)
                == before.passes_at(queue, i) by {}
            assert(pre.verified(queue, accepted, self@, result_view(r)));
            if accepted < queue.len() {
                lemma_parent_is_stored(pre, block@, removed, kept, accepted, self@.store);
            }
            if r.is_ok() {
                assert(queue.subrange(0, accepted)[0].hash() == hash);
            }
        }
        r
    }

    /// Verifies the blocks of the queue one after the other, up to the first
    /// that is refused.
    fn verify_queue(&mut self, blocks: VecDeque<IndexedBlock>) -> (r: Result<
        (),
        Error,
    >)
        requires
            old(self).sink.wf(),
            old(self).orphaned_blocks_pool.wf(),
            old(self)@.store.wf(),
            old(self).sink@.err.is_none(),
        ensures
            final(self).sink.wf(),
            final(self).orphaned_blocks_pool.wf(),
            final(self)@.store.wf(),
            final(self).sink@.err.is_none(),
            final(self)@.orphans == old(self)@.orphans,
            exists|accepted: int|
                old(self)@.stored(block_views(blocks@), accepted, final(self)@.store)
                    && #[trigger] old(self)@.verified(
                    block_views(blocks@),
                    accepted,
                    final(self)@,
                    result_view(r),
                ),
    {
        let ghost pre = self@;
        let ghost queue = block_views(blocks@);
        let mut verification_queue = blocks;
        let ghost mut accepted: int = 0;
        proof {
            assert(queue.subrange(0, queue.len() as int) =~= queue);
            assert(queue.subrange(0, 0) =~= Seq::<BlockView>::empty());
            assert(block_hashes(queue.subrange(0, 0)) =~= Seq::<H256>::empty());
        }
        loop
            invariant
                pre == old(self)@,
                queue == block_views(blocks@),
                0 <= accepted <= queue.len(),
                verification_queue@.len() == queue.len() - accepted,
                block_views(verification_queue@) == queue.subrange(accepted, queue.len() as int),
                self.sink.wf(),
                self.sink@.err.is_none(),
                self@.orphans == pre.orphans,
                self.orphaned_blocks_pool.wf(),
                pre.store.insert_all(queue.subrange(0, accepted)) == Ok::<StoreView, StorageError>(
                    self@.store,
                ),
                forall|i: int| 0 <= i < accepted ==> #[trigger] pre.passes_at(queue, i),
                self@.verifier == pre.verifier.after_all(
                    block_hashes(queue.subrange(0, accepted)),
                ),
                pre.stored(queue, accepted, self@.store),
                self@.store.wf(),
            ensures
                accepted == queue.len(),
            decreases queue.len() - accepted,
        {
            let ghost rest = block_views(verification_queue@);
            let next = match verification_queue.pop_front() {
                Some(next) => next,
                None => {
                    break ;
                },
            };
            let ghost store = self@.store;
            let ghost verifier = self@.verifier;
            proof {
                assert(next@ == rest[0]);
                assert(rest[0] == queue[accepted]);
                assert forall|i: int| 0 <= i < verification_queue@.len() implies block_views(
                    verification_queue@,
                )[i] == queue[accepted + 1 + i] by {
                    assert(block_views(verification_queue@)[i] == rest[i + 1]);
                }
                assert(block_views(verification_queue@) =~= queue.subrange(
                    accepted + 1,
                    queue.len() as int,
                ));
                assert(queue.subrange(0, accepted + 1).drop_last() =~= queue.subrange(0, accepted));
                assert(block_hashes(queue.subrange(0, accepted + 1)).drop_last() =~= block_hashes(
                    queue.subrange(0, accepted),
                ));
                assert(block_hashes(queue.subrange(0, accepted + 1)).last() == next@.hash());
                assert(pre.passes_at(queue, accepted) == verifier.passes(queue[accepted], store));
            }
            self.verifier.verify_block(next, &mut self.sink);
            if let Some(err) = self.sink.error() {
                proof {
                    assert(pre.verified(queue, accepted, self@, Err::<(), ErrorView>(err@)));
                }
                return Err(err);
            }
            proof {
                lemma_insert_wf(store, queue[accepted]);
                lemma_stored_next(pre, queue, accepted, store, self@.store);
                accepted = accepted + 1;
            }
        }
        proof {
            assert(queue.subrange(0, accepted) =~= queue);
            assert(pre.verified(queue, accepted, self@, Ok::<(), ErrorView>(())));
        }
        Ok(())
    }
}

/// Once the next block of the queue is stored, the store holds one more of
/// the queue's blocks.
proof fn lemma_stored_next(
    pre: WriterView,
    queue: Seq<BlockView>,
    accepted: int,
    store: StoreView,
    after: StoreView,
)
    requires
        0 <= accepted < queue.len(),
        pre.stored(queue, accepted, store),
        store.insert(queue[accepted]) == Ok::<StoreView, StorageError>(after),
    ensures
        pre.stored(queue, accepted + 1, after),
{
    let before = queue.subrange(0, accepted);
    let now = queue.subrange(0, accepted + 1);
    assert forall|h: H256|
        after.blocks.contains_key(h) <==> pre.store.blocks.contains_key(h) || holds_hash(
            now,
            h,
        ) by {
        if holds_hash(before, h) {
            let j = choose|j: int| 0 <= j < before.len() && (#[trigger] before[j]).hash() == h;
            assert(now[j].hash() == h);
        }
        if h == queue[accepted].hash() {
            assert(now[accepted].hash() == h);
        }
        if holds_hash(now, h) {
            let j = choose|j: int| 0 <= j < now.len() && (#[trigger] now[j]).hash() == h;
            if j < accepted {
                assert(before[j].hash() == h);
            }
        }
    }
}

/// A block that is stored does not wait in the pool.
proof fn lemma_pool_misses_stored(w: WriterView, hash: H256)
    requires
        w.wf(),
        w.store.blocks.contains_key(hash),
    ensures
        !holds_hash(w.orphans, hash),
{
}

/// When a block of the queue has its turn, the block that it builds on is
/// stored.
proof fn lemma_parent_is_stored(
    pre: WriterView,
    block: BlockView,
    removed: Seq<BlockView>,
    kept: Seq<BlockView>,
    accepted: int,
    store: StoreView,
)
    requires
        pre.store.blocks.contains_key(block.parent()),
        drained(pre.orphans, block.hash(), removed, kept),
        0 <= accepted <= removed.len(),
        pre.stored(seq![block] + removed, accepted, store),
    ensures
        store.blocks.contains_key((seq![block] + removed)[accepted].parent()),
{
    let queue = seq![block] + removed;
    let done = queue.subrange(0, accepted);
    if accepted > 0 {
        let next = removed[accepted - 1];
        assert(queue[accepted] == next);
        if next.parent() == block.hash() {
            assert(done[0].hash() == next.parent());
        } else {
            let before = removed.subrange(0, accepted - 1);
            let j = choose|j: int| 0 <= j < before.len() && (#[trigger] before[j]).hash() == next.parent();
            assert(done[j + 1] == before[j]);
        }
        assert(holds_hash(done, next.parent()));
    }
}

/// The blocks that stay in the pool are not stored, nor are their parents,
/// once some of the blocks that were verified have been stored.
proof fn lemma_kept_orphans(
    pre: WriterView,
    block: BlockView,
    removed: Seq<BlockView>,
    kept: Seq<BlockView>,
    accepted: int,
    store: StoreView,
)
    requires
        pre.wf(),
        !holds_hash(pre.orphans, block.hash()),
        drained(pre.orphans, block.hash(), removed, kept),
        pre.stored(seq![block] + removed, accepted, store),
    ensures
        distinct_hashes(kept),
        kept.len() <= pre.orphans.len(),
        forall|i: int|
            0 <= i < kept.len() ==> !store.blocks.contains_key((#[trigger] kept[i]).hash())
                && !store.blocks.contains_key(kept[i].parent()),
{
    let queue = seq![block] + removed;
    let done = queue.subrange(0, accepted);
    lemma_filter_blocks(pre.orphans, not_among(removed));
    assert forall|i: int| 0 <= i < kept.len() implies !store.blocks.contains_key(
        (#[trigger] kept[i]).hash(),
    ) && !store.blocks.contains_key(kept[i].parent()) by {
        let b = kept[i];
        assert(kept.contains(b));
        let k = choose|k: int| 0 <= k < pre.orphans.len() && pre.orphans[k] == b;
        assert(!pre.store.blocks.contains_key(pre.orphans[k].hash()));
        if holds_hash(done, b.hash()) {
            let j = choose|j: int| 0 <= j < done.len() && (#[trigger] done[j]).hash() == b.hash();
            if j > 0 {
                assert(done[j] == removed[j - 1]);
                assert(pre.orphans.contains(removed[j - 1]));
                let m = choose|m: int| 0 <= m < pre.orphans.len() && pre.orphans[m] == removed[j - 1];
                assert(removed.contains(removed[j - 1]));
                assert(m != k);
            }
        }
        if holds_hash(done, b.parent()) {
            let j = choose|j: int| 0 <= j < done.len() && (#[trigger] done[j]).hash() == b.parent();
            if j > 0 {
                assert(done[j] == removed[j - 1]);
                assert(removed[j - 1].hash() == b.parent());
            }
        }
    }
}

/// A store that has taken in a run of blocks holds what it held and the
/// blocks of the run.
pub proof fn lemma_insert_all_holds(store: StoreView, blocks: Seq<BlockView>, after: StoreView)
    requires
        store.insert_all(blocks) == Ok::<StoreView, StorageError>(after),
    ensures
        forall|h: H256| #[trigger]
            after.blocks.contains_key(h) <==> store.blocks.contains_key(h) || holds_hash(blocks, h),
    decreases blocks.len(),
{
    if blocks.len() > 0 {
        let front = blocks.drop_last();
        let middle = store.insert_all(front).unwrap();
        lemma_insert_all_holds(store, front, middle);
        assert(middle.insert(blocks.last()) == Ok::<StoreView, StorageError>(after));
        assert forall|h: H256| #[trigger]
            after.blocks.contains_key(h) <==> store.blocks.contains_key(h) || holds_hash(
                blocks,
                h,
            ) by {
            assert(middle.blocks.contains_key(h) <==> store.blocks.contains_key(h) || holds_hash(
                front,
                h,
            ));
            if holds_hash(front, h) {
                let j = choose|j: int| 0 <= j < front.len() && (#[trigger] front[j]).hash() == h;
                assert(blocks[j].hash() == h);
            }
            if h == blocks.last().hash() {
                assert(blocks[blocks.len() - 1].hash() == h);
            }
            if holds_hash(blocks, h) {
                let j = choose|j: int| 0 <= j < blocks.len() && (#[trigger] blocks[j]).hash() == h;
                if j < front.len() {
                    assert(front[j].hash() == h);
                }
            }
        }
    } else {
        assert forall|h: H256| !holds_hash(blocks, h) by {}
    }
}

/// After a call in which the block itself was not refused, the block is
/// stored or waits in the pool, or the pool was full and nothing changed.
proof fn lemma_appended_known(
    pre: WriterView,
    block: BlockView,
    mid: WriterView,
    first: Result<(), ErrorView>,
)
    requires
        pre.wf(),
        pre.appended(block, mid, first),
        first.is_ok() || mid.store.blocks.contains_key(block.hash()) || first == Err::<
            (),
            ErrorView,
        >(ErrorView::TooManyOrphanBlocks),
    ensures
        mid.store.blocks.contains_key(block.hash()) || holds_hash(mid.orphans, block.hash()) || (
        mid == pre && !pre.store.blocks.contains_key(block.parent()) && pre.orphans.len()
            >= MAX_ORPHANED_BLOCKS),
        first.is_ok() ==> mid.store.blocks.contains_key(block.hash()) || holds_hash(
            mid.orphans,
            block.hash(),
        ),
{
    let hash = block.hash();
    if pre.store.blocks.contains_key(hash) || holds_hash(pre.orphans, hash) {
    } else if !pre.store.blocks.contains_key(block.parent()) {
        if pre.orphans.len() < MAX_ORPHANED_BLOCKS {
            assert(mid.orphans[mid.orphans.len() - 1].hash() == hash);
        }
    } else {
        let (removed, accepted) = choose|removed: Seq<BlockView>, accepted: int|
            {
                &&& drained(pre.orphans, hash, removed, mid.orphans)
                &&& #[trigger] pre.verified(seq![block] + removed, accepted, mid, first)
            };
        let queue = seq![block] + removed;
        if accepted > 0 {
            lemma_insert_all_holds(pre.store, queue.subrange(0, accepted), mid.store);
            assert(queue.subrange(0, accepted)[0].hash() == hash);
        } else {
            assert(queue.subrange(0, 0) =~= Seq::<BlockView>::empty());
        }
    }
}

/// The blocks that draining keeps were in the pool.
proof fn lemma_kept_were_held(
    pool: Seq<BlockView>,
    parent: H256,
    removed: Seq<BlockView>,
    kept: Seq<BlockView>,
    hash: H256,
)
    requires
        drained(pool, parent, removed, kept),
        !holds_hash(pool, hash),
    ensures
        !holds_hash(kept, hash),
{
    lemma_filter_blocks(pool, not_among(removed));
    if holds_hash(kept, hash) {
        let i = choose|i: int| 0 <= i < kept.len() && (#[trigger] kept[i]).hash() == hash;
        assert(kept.contains(kept[i]));
        let k = choose|k: int| 0 <= k < pool.len() && pool[k] == kept[i];
        assert(pool[k].hash() == hash);
    }
}

/// A block that was refused is refused again in the same way, and nothing
/// changes.
proof fn lemma_refused_again(
    pre: WriterView,
    block: BlockView,
    removed: Seq<BlockView>,
    mid: WriterView,
    first: Result<(), ErrorView>,
    post: WriterView,
    second: Result<(), ErrorView>,
)
    requires
        !pre.store.blocks.contains_key(block.hash()),
        !holds_hash(pre.orphans, block.hash()),
        pre.store.blocks.contains_key(block.parent()),
        drained(pre.orphans, block.hash(), removed, mid.orphans),
        pre.verified(seq![block] + removed, 0, mid, first),
        mid.appended(block, post, second),
    ensures
        post == mid,
        first matches Err(ErrorView::Database(_)) ==> second == first,
        first matches Err(ErrorView::Verification(_)) ==> second matches Err(
            ErrorView::Verification(_),
        ),
{
    let hash = block.hash();
    let queue = seq![block] + removed;
    assert(queue.subrange(0, 0) =~= Seq::<BlockView>::empty());
    assert(block_hashes(queue.subrange(0, 0)) =~= Seq::<H256>::empty());
    assert(mid.store == pre.store);
    assert(mid.verifier == pre.verifier.after(hash));
    assert(pre.passes_at(queue, 0) == pre.verifier.passes(block, pre.store));
    lemma_kept_were_held(pre.orphans, hash, removed, mid.orphans, hash);
    let (removed2, accepted2) = choose|removed2: Seq<BlockView>, accepted2: int|
        {
            &&& drained(mid.orphans, hash, removed2, post.orphans)
            &&& #[trigger] mid.verified(seq![block] + removed2, accepted2, post, second)
        };
    lemma_drained_nothing(mid.orphans, hash, removed2, post.orphans);
    let queue2 = seq![block] + removed2;
    assert(queue2 =~= seq![block]);
    assert(queue2.subrange(0, 0) =~= Seq::<BlockView>::empty());
    assert(block_hashes(queue2.subrange(0, 0)) =~= Seq::<H256>::empty());
    assert(mid.passes_at(queue2, 0) == mid.verifier.passes(block, mid.store));
    assert(mid.verifier.passes(block, mid.store) == pre.verifier.passes(block, pre.store));
    if accepted2 > 0 {
        assert(mid.passes_at(queue2, 0));
        assert(queue2.subrange(0, 1) =~= seq![block]);
        assert(seq![block].drop_last() =~= Seq::<BlockView>::empty());
        assert(mid.store.insert_all(seq![block]) == mid.store.insert(block));
    }
    assert(post.verifier == mid.verifier);
}

/// Appending a block once more changes nothing, and it ends as it ended the
/// first time: with success, or with the same refusal (the rules may word
/// their reason anew).
pub proof fn lemma_append_again(
    pre: WriterView,
    block: BlockView,
    mid: WriterView,
    first: Result<(), ErrorView>,
    post: WriterView,
    second: Result<(), ErrorView>,
)
    requires
        pre.wf(),
        pre.appended(block, mid, first),
        mid.appended(block, post, second),
    ensures
        post == mid,
        first.is_ok() ==> second.is_ok(),
        first == Err::<(), ErrorView>(ErrorView::TooManyOrphanBlocks) ==> second == first,
        first matches Err(ErrorView::Database(_)) && !mid.store.blocks.contains_key(block.hash())
            ==> second == first,
        first matches Err(ErrorView::Verification(_)) && !mid.store.blocks.contains_key(
            block.hash(),
        ) ==> second matches Err(ErrorView::Verification(_)),
        mid.store.blocks.contains_key(block.hash()) ==> second.is_ok(),
{
    let hash = block.hash();
    if first.is_ok() || mid.store.blocks.contains_key(hash) || first == Err::<(), ErrorView>(
        ErrorView::TooManyOrphanBlocks,
    ) {
        lemma_appended_known(pre, block, mid, first);
        if first == Err::<(), ErrorView>(ErrorView::TooManyOrphanBlocks) {
            lemma_too_many(pre, block, mid, first);
        }
    } else {
        lemma_refused_first(pre, block, mid, first);
        let removed = choose|removed: Seq<BlockView>|
            drained(pre.orphans, hash, removed, mid.orphans) && #[trigger] pre.verified(
                seq![block] + removed,
                0,
                mid,
                first,
            );
        lemma_refused_again(pre, block, removed, mid, first, post, second);
    }
}

/// Only a block that is unknown, with an unknown parent, finds the pool full.
proof fn lemma_too_many(
    pre: WriterView,
    block: BlockView,
    mid: WriterView,
    first: Result<(), ErrorView>,
)
    requires
        pre.appended(block, mid, first),
        first == Err::<(), ErrorView>(ErrorView::TooManyOrphanBlocks),
    ensures
        mid == pre,
        !pre.store.blocks.contains_key(block.hash()),
        !holds_hash(pre.orphans, block.hash()),
        !pre.store.blocks.contains_key(block.parent()),
        pre.orphans.len() >= MAX_ORPHANED_BLOCKS,
{
}

/// A call that ends in a refusal and leaves the block unstored has refused
/// the block itself.
proof fn lemma_refused_first(
    pre: WriterView,
    block: BlockView,
    mid: WriterView,
    first: Result<(), ErrorView>,
)
    requires
        pre.wf(),
        pre.appended(block, mid, first),
        first.is_err(),
        first != Err::<(), ErrorView>(ErrorView::TooManyOrphanBlocks),
        !mid.store.blocks.contains_key(block.hash()),
    ensures
        !pre.store.blocks.contains_key(block.hash()),
        !holds_hash(pre.orphans, block.hash()),
        pre.store.blocks.contains_key(block.parent()),
        exists|removed: Seq<BlockView>|
            drained(pre.orphans, block.hash(), removed, mid.orphans) && #[trigger] pre.verified(
                seq![block] + removed,
                0,
                mid,
                first,
            ),
{
    let hash = block.hash();
    let (removed, accepted) = choose|removed: Seq<BlockView>, accepted: int|
        {
            &&& drained(pre.orphans, hash, removed, mid.orphans)
            &&& #[trigger] pre.verified(seq![block] + removed, accepted, mid, first)
        };
    let queue = seq![block] + removed;
    if accepted > 0 {
        lemma_insert_all_holds(pre.store, queue.subrange(0, accepted), mid.store);
        assert(queue.subrange(0, accepted)[0].hash() == hash);
    }
    assert(drained(pre.orphans, block.hash(), removed, mid.orphans) && pre.verified(
        seq![block] + removed,
        0,
        mid,
        first,
    ));
}

} // verus!
