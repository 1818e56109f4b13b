use block_sync::message::{GetData, InventoryVector, NotFound};
use block_sync::hash::H256;
use block_sync::synchronization_server::{ServerQueue, ServerTask};

fn marked(peer_index: usize, mark: u64) -> ServerTask {
    ServerTask::GetData(
        peer_index,
        GetData::with_inventory(vec![InventoryVector::block(H256 { w0: 0, w1: 0, w2: 0, w3: mark })]),
    )
}

fn drain(queue: &mut ServerQueue) -> Vec<ServerTask> {
    let mut tasks = Vec::new();
    while let Some(task) = queue.next_task() {
        tasks.push(task);
    }
    tasks
}

#[test]
fn queue_is_empty_at_first() {
    let mut queue = ServerQueue::new();
    assert!(!queue.is_stopping());
    assert_eq!(queue.next_task(), None);
}

#[test]
fn queue_peer_index_of_every_task() {
    let inventory = || GetData::with_inventory(vec![]);
    assert_eq!(ServerTask::GetData(1, inventory()).peer_index(), 1);
    assert_eq!(
        ServerTask::ReversedGetData(2, inventory(), NotFound::with_inventory(vec![])).peer_index(),
        2
    );
    assert_eq!(
        ServerTask::GetBlocks(
            3,
            block_sync::message::GetBlocks {
                version: 0,
                block_locator_hashes: vec![],
                hash_stop: H256::zero()
            }
        )
        .peer_index(),
        3
    );
    assert_eq!(
        ServerTask::GetHeaders(
            4,
            block_sync::message::GetHeaders {
                version: 0,
                block_locator_hashes: vec![],
                hash_stop: H256::zero()
            },
            9
        )
        .peer_index(),
        4
    );
    assert_eq!(ServerTask::Mempool(5).peer_index(), 5);
}

#[test]
fn queue_serves_peers_round_robin() {
    let mut queue = ServerQueue::new();
    queue.add_task(marked(0, 1));
    queue.add_task(marked(0, 2));
    queue.add_task(marked(0, 3));
    queue.add_task(marked(1, 4));
    queue.add_task(marked(2, 5));
    queue.add_task(marked(1, 6));
    assert_eq!(
        drain(&mut queue),
        vec![marked(0, 1), marked(1, 4), marked(2, 5), marked(0, 2), marked(1, 6), marked(0, 3)]
    );
    assert_eq!(queue.next_task(), None);
}

#[test]
fn queue_front_task_goes_before_the_tasks_of_its_peer() {
    let mut queue = ServerQueue::new();
    queue.add_task(marked(0, 1));
    queue.add_task(marked(1, 2));
    queue.add_task_front(marked(1, 3));
    queue.add_task_front(marked(0, 4));
    // a peer that was not queued goes behind the others
    queue.add_task_front(marked(2, 5));
    assert_eq!(
        drain(&mut queue),
        vec![marked(0, 4), marked(1, 3), marked(2, 5), marked(0, 1), marked(1, 2)]
    );
}

#[test]
fn queue_peer_with_more_tasks_moves_behind_the_others() {
    let mut queue = ServerQueue::new();
    queue.add_task(marked(0, 1));
    queue.add_task(marked(0, 2));
    assert_eq!(queue.next_task(), Some(marked(0, 1)));
    // peer 1 comes after peer 0 was put back
    queue.add_task(marked(1, 3));
    assert_eq!(queue.next_task(), Some(marked(0, 2)));
    assert_eq!(queue.next_task(), Some(marked(1, 3)));
    assert_eq!(queue.next_task(), None);
}

#[test]
fn queue_remove_peer_tasks_leaves_the_others_in_order() {
    let mut queue = ServerQueue::new();
    queue.add_task(marked(0, 1));
    queue.add_task(marked(1, 2));
    queue.add_task(marked(2, 3));
    queue.add_task(marked(1, 4));
    queue.remove_peer_tasks(1);
    // removing a peer without tasks changes nothing
    queue.remove_peer_tasks(1);
    queue.remove_peer_tasks(7);
    assert_eq!(drain(&mut queue), vec![marked(0, 1), marked(2, 3)]);
    // the peer may come back
    queue.add_task(marked(1, 5));
    assert_eq!(drain(&mut queue), vec![marked(1, 5)]);
}

#[test]
fn queue_stop_keeps_the_tasks() {
    let mut queue = ServerQueue::new();
    queue.add_task(marked(0, 1));
    queue.stop();
    assert!(queue.is_stopping());
    assert_eq!(queue.next_task(), Some(marked(0, 1)));
}
