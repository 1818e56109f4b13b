use block_sync::chain::{BlockHeader, IndexedBlock, IndexedBlockHeader};
use block_sync::hash::H256;
use block_sync::message::{
    GetBlocks, GetData, GetHeaders, Headers, Inv, InventoryType, InventoryVector, NotFound,
};
use block_sync::server_task_executor::{Effect, ServerTaskExecutor};
use block_sync::synchronization_chain::Chain;
use block_sync::synchronization_executor::Task;
use block_sync::synchronization_server::{Server, ServerImpl, ServerTask, WorkerStep};

fn id_hash(n: u64) -> H256 {
    H256 { w0: 0, w1: 0, w2: 0, w3: n }
}

fn test_block(id: u64, parent: H256) -> IndexedBlock {
    IndexedBlock::new(
        IndexedBlockHeader::new(
            id_hash(id),
            BlockHeader {
                version: 1,
                previous_header_hash: parent,
                merkle_root_hash: H256::zero(),
                time: id as u32,
                bits: 0x207f_ffff,
                nonce: 0,
            },
        ),
        Vec::new(),
    )
}

fn test_genesis() -> IndexedBlock {
    test_block(1, H256::zero())
}

fn test_block_h1() -> IndexedBlock {
    test_block(2, id_hash(1))
}

/// A server with the store that it answers from.
struct TestServer {
    storage: Chain,
    server: ServerImpl,
}

impl TestServer {
    fn execute(&mut self, task: ServerTask) {
        self.server.execute(task)
    }

    fn on_disconnect(&mut self, peer_index: usize) {
        self.server.on_disconnect(peer_index)
    }

    fn stop(&mut self) {
        self.server.stop()
    }

    fn serve_next(&mut self) -> WorkerStep {
        self.server.serve_next(&self.storage)
    }
}

fn create_synchronization_server(blocks: Vec<IndexedBlock>) -> TestServer {
    let mut storage = Chain::new(test_genesis());
    for block in blocks {
        storage.insert_best_block(block).expect("Db write error");
    }
    TestServer { storage, server: ServerImpl::new() }
}

/// Lets the worker serve until nothing is pending, and collects what it was asked to do.
fn wait_effects(server: &mut TestServer) -> Vec<Effect> {
    let mut effects = Vec::new();
    loop {
        match server.serve_next() {
            WorkerStep::Served(Effect::Nothing) => (),
            WorkerStep::Served(effect) => effects.push(effect),
            WorkerStep::Wait | WorkerStep::Stop => return effects,
        }
    }
}

fn wait_tasks(server: &mut TestServer) -> Vec<Task> {
    wait_effects(server)
        .into_iter()
        .map(|effect| match effect {
            Effect::Send(task) => task,
            other => panic!("unexpected {:?}", other),
        })
        .collect()
}

#[test]
fn server_getdata_responds_notfound_when_block_not_found() {
    let mut server = create_synchronization_server(vec![]);
    // when asking for unknown block
    let inventory = vec![InventoryVector {
        inv_type: InventoryType::MessageBlock,
        hash: H256::zero(),
    }];
    server.execute(ServerTask::GetData(
        0,
        GetData::with_inventory(inventory.clone()),
    ));
    // => respond with notfound
    let tasks = wait_tasks(&mut server);
    assert_eq!(
        tasks,
        vec![Task::NotFound(0, NotFound::with_inventory(inventory))]
    );
}

#[test]
fn server_getdata_responds_block_when_block_is_found() {
    let mut server = create_synchronization_server(vec![]);
    // when asking for known block
    let inventory = vec![InventoryVector {
        inv_type: InventoryType::MessageBlock,
        hash: test_genesis().hash(),
    }];
    server.execute(ServerTask::GetData(
        0,
        GetData::with_inventory(inventory.clone()),
    ));
    // => respond with block
    let tasks = wait_tasks(&mut server);
    assert_eq!(tasks, vec![Task::Block(0, test_genesis())]);
}

#[test]
fn server_getblocks_do_not_responds_inventory_when_synchronized() {
    let mut server = create_synchronization_server(vec![]);
    // when asking for blocks hashes
    let genesis_block_hash = test_genesis().hash();
    server.execute(ServerTask::GetBlocks(
        0,
        GetBlocks {
            version: 0,
            block_locator_hashes: vec![genesis_block_hash.clone()],
            hash_stop: H256::zero(),
        },
    ));
    // => empty response
    let tasks = wait_effects(&mut server);
    assert_eq!(tasks, vec![]);
}

#[test]
fn server_getblocks_responds_inventory_when_have_unknown_blocks() {
    let mut server = create_synchronization_server(vec![test_block_h1()]);
    // when asking for blocks hashes
    server.execute(ServerTask::GetBlocks(
        0,
        GetBlocks {
            version: 0,
            block_locator_hashes: vec![test_genesis().hash()],
            hash_stop: H256::zero(),
        },
    ));
    // => responds with inventory
    let inventory = vec![InventoryVector {
        inv_type: InventoryType::MessageBlock,
        hash: test_block_h1().hash(),
    }];
    let tasks = wait_tasks(&mut server);
    assert_eq!(
        tasks,
        vec![Task::Inventory(0, Inv::with_inventory(inventory))]
    );
}

#[test]
fn server_getheaders_do_not_responds_headers_when_synchronized() {
    let mut server = create_synchronization_server(vec![]);
    // when asking for blocks hashes
    let genesis_block_hash = test_genesis().hash();
    let dummy_id = 6;
    server.execute(ServerTask::GetHeaders(
        0,
        GetHeaders {
            version: 0,
            block_locator_hashes: vec![genesis_block_hash.clone()],
            hash_stop: H256::zero(),
        },
        dummy_id,
    ));
    // => no response
    let tasks = wait_tasks(&mut server);
    assert_eq!(
        tasks,
        vec![Task::Headers(
            0,
            Headers::with_headers(vec![]),
            Some(dummy_id)
        )]
    );
}

#[test]
fn server_getheaders_responds_headers_when_have_unknown_blocks() {
    let mut server = create_synchronization_server(vec![test_block_h1()]);
    // when asking for blocks hashes
    let dummy_id = 0;
    server.execute(ServerTask::GetHeaders(
        0,
        GetHeaders {
            version: 0,
            block_locator_hashes: vec![test_genesis().hash()],
            hash_stop: H256::zero(),
        },
        dummy_id,
    ));
    // => responds with headers
    let headers = vec![test_block_h1().header.raw];
    let tasks = wait_tasks(&mut server);
    assert_eq!(
        tasks,
        vec![Task::Headers(
            0,
            Headers::with_headers(headers),
            Some(dummy_id)
        )]
    );
}

#[test]
fn server_mempool_do_not_responds_inventory_when_empty_memory_pool() {
    let mut server = create_synchronization_server(vec![]);
    // when asking for memory pool transactions ids
    server.execute(ServerTask::Mempool(0));
    // => no response
    let tasks = wait_effects(&mut server);
    assert_eq!(tasks, vec![]);
}

#[test]
fn server_responds_with_nonempty_inventory_when_getdata_stop_hash_filled() {
    let mut server = create_synchronization_server(vec![test_block_h1()]);
    // when asking with stop_hash
    server.execute(ServerTask::GetBlocks(
        0,
        GetBlocks {
            version: 0,
            block_locator_hashes: vec![],
            hash_stop: test_genesis().hash(),
        },
    ));
    // => respond with next block
    let inventory = vec![InventoryVector {
        inv_type: InventoryType::MessageBlock,
        hash: test_block_h1().hash(),
    }];
    let tasks = wait_tasks(&mut server);
    assert_eq!(
        tasks,
        vec![Task::Inventory(0, Inv::with_inventory(inventory))]
    );
}

#[test]
fn server_responds_with_nonempty_headers_when_getdata_stop_hash_filled() {
    let mut server = create_synchronization_server(vec![test_block_h1()]);
    // when asking with stop_hash
    let dummy_id = 6;
    server.execute(ServerTask::GetHeaders(
        0,
        GetHeaders {
            version: 0,
            block_locator_hashes: vec![],
            hash_stop: test_genesis().hash(),
        },
        dummy_id,
    ));
    // => respond with next block
    let headers = vec![test_block_h1().header.raw];
    let tasks = wait_tasks(&mut server);
    assert_eq!(
        tasks,
        vec![Task::Headers(
            0,
            Headers::with_headers(headers),
            Some(dummy_id)
        )]
    );
}

#[test]
fn server_getblocks_without_known_blocks_is_misbehaving() {
    let mut server = create_synchronization_server(vec![]);
    server.execute(ServerTask::GetBlocks(
        3,
        GetBlocks {
            version: 0,
            block_locator_hashes: vec![id_hash(77)],
            hash_stop: id_hash(78),
        },
    ));
    assert_eq!(
        wait_effects(&mut server),
        vec![Effect::Misbehaving(3, "Got 'getblocks' message without known blocks")]
    );
    server.execute(ServerTask::GetHeaders(
        4,
        GetHeaders { version: 0, block_locator_hashes: vec![], hash_stop: id_hash(78) },
        1,
    ));
    assert_eq!(
        wait_effects(&mut server),
        vec![Effect::Misbehaving(4, "Got 'headers' message without known blocks")]
    );
}

#[test]
fn server_getdata_answers_in_the_order_asked() {
    let mut server = create_synchronization_server(vec![test_block_h1()]);
    let block_item = |hash: H256| InventoryVector { inv_type: InventoryType::MessageBlock, hash };
    let unknown_a = block_item(id_hash(50));
    let unknown_b = block_item(id_hash(51));
    let skipped = InventoryVector { inv_type: InventoryType::Error, hash: id_hash(1) };
    server.execute(ServerTask::GetData(
        0,
        GetData::with_inventory(vec![
            block_item(id_hash(2)),
            unknown_a,
            skipped,
            block_item(id_hash(1)),
            unknown_b,
        ]),
    ));
    assert_eq!(
        wait_tasks(&mut server),
        vec![
            Task::Block(0, test_block_h1()),
            Task::Block(0, test_genesis()),
            Task::NotFound(0, NotFound::with_inventory(vec![unknown_a, unknown_b])),
        ]
    );
}

#[test]
fn server_serves_peers_in_turn() {
    let mut server = create_synchronization_server(vec![test_block_h1()]);
    let ask = |hash: H256| {
        GetData::with_inventory(vec![
            InventoryVector { inv_type: InventoryType::MessageBlock, hash },
            InventoryVector { inv_type: InventoryType::MessageBlock, hash },
        ])
    };
    server.execute(ServerTask::GetData(0, ask(id_hash(1))));
    server.execute(ServerTask::GetData(1, ask(id_hash(2))));
    assert_eq!(
        wait_tasks(&mut server),
        vec![
            Task::Block(0, test_genesis()),
            Task::Block(1, test_block_h1()),
            Task::Block(0, test_genesis()),
            Task::Block(1, test_block_h1()),
        ]
    );
}

#[test]
fn server_drops_tasks_of_disconnected_peer() {
    let mut server = create_synchronization_server(vec![]);
    server.execute(ServerTask::Mempool(7));
    server.execute(ServerTask::GetData(
        8,
        GetData::with_inventory(vec![InventoryVector::block(id_hash(1))]),
    ));
    server.execute(ServerTask::Mempool(7));
    server.on_disconnect(8);
    // a peer without tasks may disconnect as well
    server.on_disconnect(9);
    assert_eq!(server.serve_next(), WorkerStep::Served(Effect::Nothing));
    assert_eq!(server.serve_next(), WorkerStep::Served(Effect::Nothing));
    assert_eq!(server.serve_next(), WorkerStep::Wait);
}

#[test]
fn server_stops_when_asked() {
    let mut server = create_synchronization_server(vec![]);
    server.execute(ServerTask::Mempool(0));
    server.stop();
    assert_eq!(server.serve_next(), WorkerStep::Stop);
}

#[test]
fn executor_locates_the_fork_point_of_a_side_branch() {
    // 1 - 2 - 3 - 4 is the main chain; 5 and 6 branch off at 2
    let mut storage = Chain::new(test_genesis());
    for (id, parent) in [(2, 1), (3, 2), (4, 3), (5, 2), (6, 5)] {
        storage.insert_best_block(test_block(id, id_hash(parent))).unwrap();
    }
    let executor = ServerTaskExecutor::new(&storage);
    assert_eq!(executor.locate_best_common_block(&H256::zero(), &[id_hash(6)]), Some(1));
    assert_eq!(executor.locate_best_common_block(&H256::zero(), &[id_hash(4)]), Some(3));
    // the first locator entry that is known decides
    assert_eq!(
        executor.locate_best_common_block(&id_hash(4), &[id_hash(99), id_hash(5), id_hash(3)]),
        Some(1)
    );
    // the stop hash is tried last
    assert_eq!(executor.locate_best_common_block(&id_hash(3), &[id_hash(99)]), Some(2));
    assert_eq!(executor.locate_best_common_block(&id_hash(98), &[id_hash(99)]), None);
    assert_eq!(executor.locate_best_common_block(&id_hash(98), &[]), None);
}

#[test]
fn executor_getblocks_stops_at_limit_and_at_stop_hash() {
    let mut storage = Chain::new(test_genesis());
    for id in 2..=600u64 {
        storage.insert_best_block(test_block(id, id_hash(id - 1))).unwrap();
    }
    let executor = ServerTaskExecutor::new(&storage);
    let ask = |hash_stop: H256| GetBlocks {
        version: 0,
        block_locator_hashes: vec![id_hash(10)],
        hash_stop,
    };
    let expected = |ids: std::ops::RangeInclusive<u64>| {
        Effect::Send(Task::Inventory(
            9,
            Inv::with_inventory(ids.map(|id| InventoryVector::block(id_hash(id))).collect()),
        ))
    };
    // at most 500 hashes
    assert_eq!(executor.serve_get_blocks(9, ask(H256::zero())), expected(11..=510));
    // none from the stop hash on
    assert_eq!(executor.serve_get_blocks(9, ask(id_hash(14))), expected(11..=13));
    // a stop hash before the common block stops nothing
    assert_eq!(executor.serve_get_blocks(9, ask(id_hash(5))), expected(11..=510));
    // the stop hash right behind the common block leaves nothing to send
    assert_eq!(executor.serve_get_blocks(9, ask(id_hash(11))), Effect::Nothing);
}
