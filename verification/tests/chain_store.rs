use block_sync::block_provider::{BlockHeaderProvider, BlockProvider, BlockRef};
use block_sync::chain::{BlockHeader, IndexedBlock, IndexedBlockHeader, IndexedTransaction};
use block_sync::hash::H256;
use block_sync::synchronization_chain::{BestBlock, Chain, StorageError};

fn store_hash(n: u64) -> H256 {
    H256 { w0: 0, w1: 0, w2: 0, w3: n }
}

fn stored(id: u64, parent: u64) -> IndexedBlock {
    IndexedBlock::new(
        IndexedBlockHeader::new(
            store_hash(id),
            BlockHeader {
                version: 2,
                previous_header_hash: store_hash(parent),
                merkle_root_hash: store_hash(500 + id),
                time: 7,
                bits: 0x1d00_ffff,
                nonce: id as u32,
            },
        ),
        vec![IndexedTransaction::new(store_hash(900 + id), vec![1, 2, 3])],
    )
}

#[test]
fn hash_bytes_most_significant_first() {
    let hash = H256 {
        w0: 0x0102_0304_0506_0708,
        w1: 0x1112_1314_1516_1718,
        w2: 0x2122_2324_2526_2728,
        w3: 0x3132_3334_3536_3738,
    };
    let mut out = vec![0xee];
    hash.write_to(&mut out);
    assert_eq!(
        out,
        vec![
            0xee, 0x01, 0x02, 0x03, 0x04, 0x05, 0x06, 0x07, 0x08, 0x11, 0x12, 0x13, 0x14, 0x15,
            0x16, 0x17, 0x18, 0x21, 0x22, 0x23, 0x24, 0x25, 0x26, 0x27, 0x28, 0x31, 0x32, 0x33,
            0x34, 0x35, 0x36, 0x37, 0x38
        ]
    );
    assert_eq!(H256::zero(), H256 { w0: 0, w1: 0, w2: 0, w3: 0 });
}

#[test]
fn header_bytes_are_eighty() {
    let header = BlockHeader {
        version: 0x0102_0304,
        previous_header_hash: H256 { w0: 0xa1 << 56, w1: 0, w2: 0, w3: 0xa2 },
        merkle_root_hash: H256 { w0: 0xb1 << 56, w1: 0, w2: 0, w3: 0xb2 },
        time: 0x1112_1314,
        bits: 0x2122_2324,
        nonce: 0x3132_3334,
    };
    let bytes = header.to_bytes();
    assert_eq!(bytes.len(), 80);
    let mut expected = vec![0x04, 0x03, 0x02, 0x01];
    expected.push(0xa1);
    expected.extend(vec![0u8; 30]);
    expected.push(0xa2);
    expected.push(0xb1);
    expected.extend(vec![0u8; 30]);
    expected.push(0xb2);
    expected.extend(vec![0x14, 0x13, 0x12, 0x11]);
    expected.extend(vec![0x24, 0x23, 0x22, 0x21]);
    expected.extend(vec![0x34, 0x33, 0x32, 0x31]);
    assert_eq!(bytes, expected);
}

#[test]
fn block_clone_is_equal() {
    let block = stored(3, 2);
    assert_eq!(block.clone(), block);
    assert_eq!(block.hash(), store_hash(3));
    assert_eq!(block.parent_hash(), store_hash(2));
}

#[test]
fn chain_of_genesis_alone() {
    let chain = Chain::new(stored(1, 0));
    assert_eq!(chain.best_block(), BestBlock { number: 0, hash: store_hash(1) });
    assert_eq!(chain.block_number(&store_hash(1)), Some(0));
    assert_eq!(chain.block_number(&store_hash(2)), None);
    assert_eq!(chain.block_hash(0), Some(store_hash(1)));
    assert_eq!(chain.block_hash(1), None);
    assert_eq!(chain.block(BlockRef::Number(0)), Some(stored(1, 0)));
    assert_eq!(chain.block(BlockRef::Hash(store_hash(1))), Some(stored(1, 0)));
    assert_eq!(chain.block(BlockRef::Number(1)), None);
    assert_eq!(chain.block_header(BlockRef::Hash(store_hash(1))), Some(stored(1, 0).header));
    assert_eq!(chain.block_header(BlockRef::Hash(store_hash(9))), None);
    assert_eq!(
        chain.block_header_bytes(BlockRef::Number(0)),
        Some(stored(1, 0).header.raw.to_bytes())
    );
    assert_eq!(chain.block_header_bytes(BlockRef::Hash(store_hash(9))), None);
    assert!(chain.contains_block(BlockRef::Number(0)));
    assert!(!chain.contains_block(BlockRef::Number(1)));
    assert!(!chain.contains_block(BlockRef::Hash(H256::zero())));
}

#[test]
fn chain_switches_to_the_branch_with_more_blocks() {
    // 1 - 2 - 3 and 1 - 4 - 5 - 6
    let mut chain = Chain::new(stored(1, 0));
    for (id, parent) in [(2, 1), (3, 2), (4, 1), (5, 4)] {
        assert_eq!(chain.insert_best_block(stored(id, parent)), Ok(()));
    }
    // a side branch as long as the main chain does not overtake it
    assert_eq!(chain.best_block(), BestBlock { number: 2, hash: store_hash(3) });
    assert_eq!(chain.block_number(&store_hash(5)), None);
    assert!(chain.contains_block(BlockRef::Hash(store_hash(5))));
    assert_eq!(chain.insert_best_block(stored(6, 5)), Ok(()));
    assert_eq!(chain.best_block(), BestBlock { number: 3, hash: store_hash(6) });
    assert_eq!(
        (0..5).map(|n| chain.block_hash(n)).collect::<Vec<_>>(),
        vec![
            Some(store_hash(1)),
            Some(store_hash(4)),
            Some(store_hash(5)),
            Some(store_hash(6)),
            None
        ]
    );
    assert_eq!(chain.block_number(&store_hash(2)), None);
    assert_eq!(chain.block_number(&store_hash(3)), None);
    assert_eq!(chain.block_number(&store_hash(4)), Some(1));
    // the blocks that left the main chain are stored still
    assert_eq!(chain.block(BlockRef::Hash(store_hash(3))), Some(stored(3, 2)));
    // and the first branch may take over again
    assert_eq!(chain.insert_best_block(stored(7, 3)), Ok(()));
    assert_eq!(chain.best_block().hash, store_hash(6));
    assert_eq!(chain.insert_best_block(stored(8, 7)), Ok(()));
    assert_eq!(chain.best_block(), BestBlock { number: 4, hash: store_hash(8) });
    assert_eq!(chain.block_number(&store_hash(3)), Some(2));
    assert_eq!(chain.block_number(&store_hash(4)), None);
}

#[test]
fn chain_refuses_a_block_that_builds_on_itself() {
    let mut chain = Chain::new(stored(1, 0));
    assert_eq!(chain.insert_best_block(stored(5, 5)), Err(StorageError::UnknownParent));
    assert_eq!(chain.best_block().number, 0);
}
