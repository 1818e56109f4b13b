use block_sync::block_provider::{BlockProvider, BlockRef, StoreView};
use block_sync::blocks_writer::{
    BlocksWriter, BlocksWriterSink, BlocksWriterSinkData, Error, MAX_ORPHANED_BLOCKS,
};
use block_sync::chain::{BlockHeader, BlockView, IndexedBlock, IndexedBlockHeader};
use block_sync::hash::H256;
use block_sync::synchronization_chain::{Chain, StorageError};
use block_sync::synchronization_verifier::{
    ChainVerifier, VerificationLevel, VerificationParameters,
};

/// Accepts a block exactly if its header claims some difficulty.
struct DifficultyRules;

impl ChainVerifier for DifficultyRules {
    fn accepts(&self, _level: VerificationLevel, block: BlockView, _store: StoreView) -> bool {
        block.header.raw.bits != 0
    }

    fn verify(
        &self,
        _level: VerificationLevel,
        block: &IndexedBlock,
        _storage: &Chain,
    ) -> Result<(), String> {
        if block.header.raw.bits == 0 {
            Err("invalid proof of work".to_owned())
        } else {
            Ok(())
        }
    }
}

fn hash(n: u64) -> H256 {
    H256 { w0: 0, w1: 0, w2: 0, w3: n }
}

fn block_with(id: u64, parent: H256, bits: u32, nonce: u32) -> IndexedBlock {
    IndexedBlock::new(
        IndexedBlockHeader::new(
            hash(id),
            BlockHeader {
                version: 1,
                previous_header_hash: parent,
                merkle_root_hash: H256::zero(),
                time: 0,
                bits,
                nonce,
            },
        ),
        Vec::new(),
    )
}

fn block(id: u64, parent: u64) -> IndexedBlock {
    block_with(id, hash(parent), 0x207f_ffff, 0)
}

fn genesis() -> IndexedBlock {
    block_with(1, H256::zero(), 0x207f_ffff, 0)
}

fn block_h1() -> IndexedBlock {
    block(2, 1)
}

/// `n` blocks, each building on the one before it, the first on the genesis block.
fn build_n_blocks_from_genesis(n: u64) -> Vec<IndexedBlock> {
    (2..n + 2).map(|id| block(id, id - 1)).collect()
}

fn default_verification_params() -> VerificationParameters {
    VerificationParameters {
        verification_level: VerificationLevel::Full,
        verification_edge: H256::zero(),
    }
}

fn no_verification_params() -> VerificationParameters {
    VerificationParameters {
        verification_level: VerificationLevel::NoVerification,
        verification_edge: H256::zero(),
    }
}

fn canon_of(writer: &BlocksWriter<DifficultyRules>) -> Vec<H256> {
    let mut canon = Vec::new();
    let mut number = 0u32;
    while let Some(hash) = writer.storage().block_hash(number) {
        canon.push(hash);
        number += 1;
    }
    canon
}

#[test]
fn blocks_writer_appends_blocks() {
    let db = Chain::new(genesis());
    let mut blocks_target = BlocksWriter::new(db, DifficultyRules, default_verification_params());
    blocks_target
        .append_block(block_h1())
        .expect("Expecting no error");
    assert_eq!(blocks_target.storage().best_block().number, 1);
    assert_eq!(blocks_target.orphaned_blocks(), 0);
}

#[test]
fn blocks_writer_verification_error() {
    let db = Chain::new(genesis());
    let blocks = build_n_blocks_from_genesis((MAX_ORPHANED_BLOCKS + 2) as u64);
    let mut blocks_target = BlocksWriter::new(db, DifficultyRules, default_verification_params());
    let mut refused = 0;
    for (index, block) in blocks.into_iter().skip(1).enumerate() {
        match blocks_target.append_block(block) {
            Err(Error::TooManyOrphanBlocks) if index == MAX_ORPHANED_BLOCKS => refused += 1,
            Ok(_) if index != MAX_ORPHANED_BLOCKS => (),
            _ => panic!("unexpected"),
        }
        assert_eq!(blocks_target.storage().best_block().number, 0);
        assert!(blocks_target.orphaned_blocks() <= MAX_ORPHANED_BLOCKS);
    }
    assert_eq!(refused, 1);
    assert_eq!(blocks_target.orphaned_blocks(), MAX_ORPHANED_BLOCKS);
    assert_eq!(blocks_target.storage().best_block().number, 0);
}

#[test]
fn blocks_writer_out_of_order_block() {
    let db = Chain::new(genesis());
    let mut blocks_target = BlocksWriter::new(db, DifficultyRules, default_verification_params());

    let wrong_block = block_with(2, genesis().hash(), 0, 0);
    match blocks_target.append_block(wrong_block).unwrap_err() {
        Error::Verification(_) => (),
        _ => panic!("Unexpected error"),
    };
    assert_eq!(blocks_target.storage().best_block().number, 0);
}

#[test]
fn blocks_writer_append_to_existing_db() {
    let db = Chain::new(genesis());

    let mut blocks_target = BlocksWriter::new(db, DifficultyRules, default_verification_params());

    assert!(blocks_target.append_block(genesis()).is_ok());
    assert_eq!(blocks_target.storage().best_block().number, 0);

    assert!(blocks_target.append_block(block_h1()).is_ok());
    assert_eq!(blocks_target.storage().best_block().number, 1);
}

#[test]
fn blocks_write_able_to_reorganize() {
    // (1) b0 ---> (2) b1
    //        \--> (3) b2 ---> (4 - reorg) b3
    let b0 = block_with(10, H256::zero(), 0, 0);
    let b1 = block_with(11, b0.hash(), 0, 1);
    let b2 = block_with(12, b0.hash(), 0, 2);
    let b3 = block_with(13, b2.hash(), 0, 0);

    let db = Chain::new(b0);
    let mut blocks_target = BlocksWriter::new(db, DifficultyRules, no_verification_params());
    assert_eq!(blocks_target.append_block(b1), Ok(()));
    assert_eq!(blocks_target.storage().block_number(&hash(11)), Some(1));
    assert_eq!(blocks_target.append_block(b2), Ok(()));
    assert_eq!(blocks_target.storage().block_number(&hash(11)), Some(1));
    assert_eq!(blocks_target.storage().block_number(&hash(12)), None);
    assert_eq!(blocks_target.append_block(b3), Ok(()));
    assert_eq!(blocks_target.storage().best_block().hash, hash(13));
    assert_eq!(blocks_target.storage().best_block().number, 2);
    assert_eq!(blocks_target.storage().block_number(&hash(11)), None);
    assert_eq!(blocks_target.storage().block_number(&hash(12)), Some(1));
    assert_eq!(canon_of(&blocks_target), vec![hash(10), hash(12), hash(13)]);
    assert!(blocks_target.storage().contains_block(BlockRef::Hash(hash(11))));
}

#[test]
fn blocks_writer_orphan_then_stored_is_in_exactly_one_place() {
    let mut writer = BlocksWriter::new(Chain::new(genesis()), DifficultyRules, default_verification_params());
    // the parent of block 3 is unknown: it waits
    assert_eq!(writer.append_block(block(3, 2)), Ok(()));
    assert_eq!(writer.orphaned_blocks(), 1);
    assert!(!writer.storage().contains_block(BlockRef::Hash(hash(3))));
    // its parent arrives: both are stored, none waits
    assert_eq!(writer.append_block(block(2, 1)), Ok(()));
    assert_eq!(writer.orphaned_blocks(), 0);
    assert!(writer.storage().contains_block(BlockRef::Hash(hash(2))));
    assert!(writer.storage().contains_block(BlockRef::Hash(hash(3))));
    assert_eq!(writer.storage().best_block().number, 2);
}

#[test]
fn blocks_writer_same_block_twice_changes_nothing() {
    let mut writer = BlocksWriter::new(Chain::new(genesis()), DifficultyRules, default_verification_params());
    assert_eq!(writer.append_block(block_h1()), Ok(()));
    let canon = canon_of(&writer);
    assert_eq!(writer.append_block(block_h1()), Ok(()));
    assert_eq!(canon_of(&writer), canon);
    assert_eq!(writer.orphaned_blocks(), 0);
    // an orphan offered twice waits once
    assert_eq!(writer.append_block(block(9, 8)), Ok(()));
    assert_eq!(writer.append_block(block(9, 8)), Ok(()));
    assert_eq!(writer.orphaned_blocks(), 1);
    assert_eq!(canon_of(&writer), canon);
}

#[test]
fn blocks_writer_any_order_gives_the_same_chain() {
    let expected: Vec<H256> = (1..=6).map(hash).collect();
    let orders: [[u64; 5]; 4] =
        [[2, 3, 4, 5, 6], [6, 5, 4, 3, 2], [4, 2, 6, 3, 5], [3, 6, 2, 5, 4]];
    for order in orders.iter() {
        let mut writer =
            BlocksWriter::new(Chain::new(genesis()), DifficultyRules, no_verification_params());
        for id in order.iter() {
            assert_eq!(writer.append_block(block(*id, *id - 1)), Ok(()));
        }
        assert_eq!(canon_of(&writer), expected);
        assert_eq!(writer.orphaned_blocks(), 0);
        assert_eq!(writer.storage().best_block().number, 5);
    }
}

#[test]
fn blocks_writer_stops_at_the_first_refused_block() {
    let mut writer = BlocksWriter::new(Chain::new(genesis()), DifficultyRules, default_verification_params());
    // 4 builds on 3, which is refused by the rules, which builds on 2
    assert_eq!(writer.append_block(block(4, 3)), Ok(()));
    assert_eq!(writer.append_block(block_with(3, hash(2), 0, 0)), Ok(()));
    assert_eq!(writer.orphaned_blocks(), 2);
    assert_eq!(
        writer.append_block(block(2, 1)),
        Err(Error::Verification("invalid proof of work".to_owned()))
    );
    // block 2 is stored, 3 and 4 have left the pool and are not stored
    assert_eq!(writer.storage().best_block().number, 1);
    assert_eq!(writer.storage().best_block().hash, hash(2));
    assert_eq!(writer.orphaned_blocks(), 0);
    assert!(!writer.storage().contains_block(BlockRef::Hash(hash(3))));
    assert!(!writer.storage().contains_block(BlockRef::Hash(hash(4))));
}

#[test]
fn blocks_writer_checks_in_full_from_the_edge_on() {
    // nothing is verified until the edge block is met
    let params = VerificationParameters {
        verification_level: VerificationLevel::NoVerification,
        verification_edge: hash(3),
    };
    let mut writer = BlocksWriter::new(Chain::new(genesis()), DifficultyRules, params);
    assert_eq!(writer.append_block(block_with(2, hash(1), 0, 0)), Ok(()));
    assert_eq!(writer.append_block(block(3, 2)), Ok(()));
    assert_eq!(
        writer.append_block(block_with(4, hash(3), 0, 0)),
        Err(Error::Verification("invalid proof of work".to_owned()))
    );
    assert_eq!(writer.storage().best_block().number, 2);
}

#[test]
fn chain_refuses_block_with_unknown_parent() {
    let mut chain = Chain::new(genesis());
    assert_eq!(chain.insert_best_block(block(5, 4)), Err(StorageError::UnknownParent));
    assert_eq!(chain.best_block().number, 0);
    assert!(!chain.contains_block(BlockRef::Hash(hash(5))));
}

#[test]
fn sink_keeps_the_last_error_until_it_is_taken() {
    let mut sink = BlocksWriterSink::new(BlocksWriterSinkData::new(Chain::new(genesis())));
    assert_eq!(sink.error(), None);
    // the store refuses a block whose parent it does not hold
    sink.on_block_verification_success(block(5, 4));
    assert_eq!(sink.error(), Some(Error::Database(StorageError::UnknownParent)));
    assert_eq!(sink.error(), None);
    sink.on_block_verification_error("bad-txns", &hash(5));
    assert_eq!(sink.error(), Some(Error::Verification("bad-txns".to_owned())));
    assert_eq!(sink.error(), None);
    // a block that the store takes in leaves no error
    sink.on_block_verification_success(block_h1());
    assert_eq!(sink.error(), None);
    assert_eq!(sink.data().chain().best_block().number, 1);
}

#[test]
fn sink_data_takes_the_error_once() {
    let mut data = BlocksWriterSinkData::new(Chain::new(genesis()));
    assert_eq!(data.error(), None);
    assert_eq!(data.chain().best_block().hash, hash(1));
}

/// Accepts a block exactly if it builds on the best block of the store.
struct ExtendsBestRules;

impl ChainVerifier for ExtendsBestRules {
    fn accepts(&self, _level: VerificationLevel, block: BlockView, store: StoreView) -> bool {
        store.best_hash() == block.parent()
    }

    fn verify(
        &self,
        _level: VerificationLevel,
        block: &IndexedBlock,
        storage: &Chain,
    ) -> Result<(), String> {
        if storage.best_block().hash == block.parent_hash() {
            Ok(())
        } else {
            Err("not on the best block".to_owned())
        }
    }
}

#[test]
fn blocks_writer_hands_the_store_to_the_rules() {
    let mut writer =
        BlocksWriter::new(Chain::new(genesis()), ExtendsBestRules, default_verification_params());
    assert_eq!(writer.append_block(block(2, 1)), Ok(()));
    assert_eq!(writer.append_block(block(3, 2)), Ok(()));
    // the best block is 3 now: a block on 1 is refused by these rules
    assert_eq!(
        writer.append_block(block(4, 1)),
        Err(Error::Verification("not on the best block".to_owned()))
    );
    assert_eq!(writer.storage().best_block().number, 2);
}

#[test]
fn sink_is_told_what_the_rules_said() {
    let mut sink = BlocksWriterSink::new(BlocksWriterSinkData::new(Chain::new(genesis())));
    sink.on_block_verified(Err("bad-merkle-root".to_owned()), block_h1());
    assert_eq!(sink.data().chain().best_block().number, 0);
    assert_eq!(sink.error(), Some(Error::Verification("bad-merkle-root".to_owned())));
    sink.on_block_verified(Ok(()), block_h1());
    assert_eq!(sink.error(), None);
    assert_eq!(sink.data().chain().best_block().number, 1);
    sink.on_block_verified(Ok(()), block(9, 8));
    assert_eq!(sink.error(), Some(Error::Database(StorageError::UnknownParent)));
}

#[test]
fn chain_takes_a_stored_block_once() {
    let mut chain = Chain::new(genesis());
    assert_eq!(chain.insert_best_block(block_h1()), Ok(()));
    // a block under a stored hash changes nothing, whatever it holds
    assert_eq!(chain.insert_best_block(block_h1()), Ok(()));
    assert_eq!(chain.insert_best_block(block_with(2, hash(77), 5, 5)), Ok(()));
    assert_eq!(chain.insert_best_block(genesis()), Ok(()));
    assert_eq!(chain.best_block().number, 1);
    assert_eq!(chain.block(BlockRef::Hash(hash(2))), Some(block_h1()));
    assert_eq!(chain.block_hash(2), None);
    // nor does the sink report an error for it
    let mut sink = BlocksWriterSink::new(BlocksWriterSinkData::new(chain));
    sink.on_block_verification_success(block_h1());
    assert_eq!(sink.error(), None);
    assert_eq!(sink.data().chain().best_block().number, 1);
}
