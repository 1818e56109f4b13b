use block_sync::chain::{BlockHeader, IndexedBlock, IndexedBlockHeader, IndexedTransaction};
use block_sync::hash::H256;
use block_sync::orphan_blocks_pool::OrphanBlocksPool;

fn pool_hash(n: u64) -> H256 {
    H256 { w0: 0, w1: 0, w2: 0, w3: n }
}

fn orphan(id: u64, parent: u64) -> IndexedBlock {
    IndexedBlock::new(
        IndexedBlockHeader::new(
            pool_hash(id),
            BlockHeader {
                version: 1,
                previous_header_hash: pool_hash(parent),
                merkle_root_hash: H256::zero(),
                time: 0,
                bits: 0,
                nonce: 0,
            },
        ),
        vec![IndexedTransaction::new(pool_hash(1000 + id), vec![id as u8, 2, 3])],
    )
}

fn ids(blocks: &std::collections::VecDeque<IndexedBlock>) -> Vec<u64> {
    blocks.iter().map(|b| b.hash().w3).collect()
}

#[test]
fn pool_insert_is_idempotent_on_hash() {
    let mut pool = OrphanBlocksPool::new();
    assert_eq!(pool.len(), 0);
    assert!(pool.insert_orphaned_block(orphan(2, 1)));
    assert!(!pool.insert_orphaned_block(orphan(2, 1)));
    // the hash decides, not what the block holds
    assert!(!pool.insert_orphaned_block(orphan(2, 7)));
    assert_eq!(pool.len(), 1);
    assert!(pool.contains_unknown_block(&pool_hash(2)));
    assert!(!pool.contains_unknown_block(&pool_hash(1)));
}

#[test]
fn pool_removes_whole_subtree_ancestors_first() {
    // 1 <- 2 <- 3 <- 4, 2 <- 5, and apart from them 10 <- 11
    let mut pool = OrphanBlocksPool::new();
    for (id, parent) in [(4, 3), (11, 10), (5, 2), (3, 2), (2, 1)] {
        assert!(pool.insert_orphaned_block(orphan(id, parent)));
    }
    let removed = pool.remove_blocks_for_parent(&pool_hash(1));
    let order = ids(&removed);
    let mut sorted = order.clone();
    sorted.sort();
    assert_eq!(sorted, vec![2, 3, 4, 5]);
    let place = |id: u64| order.iter().position(|x| *x == id).unwrap();
    assert!(place(2) < place(3));
    assert!(place(2) < place(5));
    assert!(place(3) < place(4));
    // what is removed is what was put in
    assert_eq!(removed[place(4)], orphan(4, 3));
    // the rest stays
    assert_eq!(pool.len(), 1);
    assert!(pool.contains_unknown_block(&pool_hash(11)));
    assert!(!pool.contains_unknown_block(&pool_hash(4)));
}

#[test]
fn pool_removes_nothing_for_a_parent_without_children() {
    let mut pool = OrphanBlocksPool::new();
    pool.insert_orphaned_block(orphan(3, 2));
    // the block itself does not leave when its own hash is asked for
    assert_eq!(pool.remove_blocks_for_parent(&pool_hash(9)).len(), 0);
    assert_eq!(ids(&pool.remove_blocks_for_parent(&pool_hash(3))), Vec::<u64>::new());
    assert_eq!(pool.len(), 1);
    assert_eq!(ids(&pool.remove_blocks_for_parent(&pool_hash(2))), vec![3]);
    assert_eq!(pool.len(), 0);
}

#[test]
fn pool_drains_a_cycle_of_blocks_once() {
    // 20 builds on 21 and 21 on 20; 22 builds on 20
    let mut pool = OrphanBlocksPool::new();
    pool.insert_orphaned_block(orphan(20, 21));
    pool.insert_orphaned_block(orphan(21, 20));
    pool.insert_orphaned_block(orphan(22, 20));
    let removed = ids(&pool.remove_blocks_for_parent(&pool_hash(21)));
    assert_eq!(removed.len(), 3);
    assert_eq!(removed[0], 20);
    assert_eq!(pool.len(), 0);
}
