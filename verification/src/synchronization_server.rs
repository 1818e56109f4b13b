use crate::block_provider::{BlockHeaderProvider, BlockProvider, StoreView};
use crate::message::{GetBlocks, GetData, GetHeaders, InventoryVector, LocatorView, NotFound};
use crate::server_task_executor::{spec_execute, Effect, EffectView, ServerTaskExecutor};
use crate::types::{PeerIndex, RequestId};
use std::collections::{HashMap, VecDeque};
use vstd::prelude::*;

verus! {

broadcast use {
    vstd::std_specs::hash::group_hash_axioms,
    vstd::std_specs::vecdeque::group_vec_dequeue_axioms,
};

/// Synchronization server task
#[derive(Debug, PartialEq)]
pub enum ServerTask {
    /// Serve 'getdata' request
    GetData(PeerIndex, GetData),
    /// Serve reversed 'getdata' request
    ReversedGetData(PeerIndex, GetData, NotFound),
    /// Serve 'getblocks' request
    GetBlocks(PeerIndex, GetBlocks),
    /// Serve 'getheaders' request
    GetHeaders(PeerIndex, GetHeaders, RequestId),
    /// Serve 'mempool' request
    Mempool(PeerIndex),
}

/// Mathematical value of a [`ServerTask`].
pub enum ServerTaskView {
    GetData(PeerIndex, Seq<InventoryVector>),
    ReversedGetData(PeerIndex, Seq<InventoryVector>, Seq<InventoryVector>),
    GetBlocks(PeerIndex, LocatorView),
    GetHeaders(PeerIndex, LocatorView, RequestId),
    Mempool(PeerIndex),
}

impl ServerTaskView {
    /// The peer that asked.
    pub open spec fn peer_index(self) -> PeerIndex {
        match self {
            ServerTaskView::GetData(peer_index, _) => peer_index,
            ServerTaskView::ReversedGetData(peer_index, _, _) => peer_index,
            ServerTaskView::GetBlocks(peer_index, _) => peer_index,
            ServerTaskView::GetHeaders(peer_index, _, _) => peer_index,
            ServerTaskView::Mempool(peer_index) => peer_index,
        }
    }
}

impl View for ServerTask {
    type V = ServerTaskView;

    open spec fn view(&self) -> ServerTaskView {
        match *self {
            ServerTask::GetData(peer_index, message) => ServerTaskView::GetData(
                peer_index,
                message@,
            ),
            ServerTask::ReversedGetData(peer_index, message, notfound) => {
                ServerTaskView::ReversedGetData(peer_index, message@, notfound@)
            },
            ServerTask::GetBlocks(peer_index, message) => ServerTaskView::GetBlocks(
                peer_index,
                message@,
            ),
            ServerTask::GetHeaders(peer_index, message, request_id) => ServerTaskView::GetHeaders(
                peer_index,
                message@,
                request_id,
            ),
            ServerTask::Mempool(peer_index) => ServerTaskView::Mempool(peer_index),
        }
    }
}

impl ServerTask {
    /// The peer that asked.
    pub fn peer_index(&self) -> (r: PeerIndex)
        ensures
            r == self@.peer_index(),
    {
        match self {
            ServerTask::GetData(peer_index, _) => *peer_index,
            ServerTask::ReversedGetData(peer_index, _, _) => *peer_index,
            ServerTask::GetBlocks(peer_index, _) => *peer_index,
            ServerTask::GetHeaders(peer_index, _, _) => *peer_index,
            ServerTask::Mempool(peer_index) => *peer_index,
        }
    }
}

/// The peers of a sequence in their order, but for every occurrence of `p`.
pub open spec fn without_peer(peers: Seq<PeerIndex>, p: PeerIndex) -> Seq<PeerIndex> {
    peers.filter(|q: PeerIndex| q != p)
}

/// Mathematical value of a [`ServerQueue`].
pub struct QueueView {
    /// The peers with pending tasks, in the order in which they are served.
    pub peers_queue: Seq<PeerIndex>,
    /// The pending tasks of each such peer, in the order in which they are served.
    pub tasks_queue: Map<PeerIndex, Seq<ServerTaskView>>,
}

impl QueueView {
    /// A peer is queued exactly if it has pending tasks, no peer is queued
    /// twice, and every task is filed under the peer that asked.
    pub open spec fn wf(self) -> bool {
        &&& forall|p: PeerIndex| #[trigger]
            self.peers_queue.contains(p) <==> self.tasks_queue.contains_key(p)
        &&& forall|p: PeerIndex| #[trigger]
            self.tasks_queue.contains_key(p) ==> self.tasks_queue[p].len() > 0
        &&& self.peers_queue.no_duplicates()
        &&& forall|p: PeerIndex, i: int|
            self.tasks_queue.contains_key(p) && 0 <= i < self.tasks_queue[p].len() ==> (
            #[trigger] self.tasks_queue[p][i]).peer_index() == p
    }

    /// The queue with no task.
    pub open spec fn empty() -> QueueView {
        QueueView { peers_queue: Seq::empty(), tasks_queue: Map::empty() }
    }

    /// The queue after `task` was put behind the tasks of its peer.
    pub open spec fn add_task(self, task: ServerTaskView) -> QueueView {
        let p = task.peer_index();
        if self.tasks_queue.contains_key(p) {
            QueueView {
                peers_queue: self.peers_queue,
                tasks_queue: self.tasks_queue.insert(p, self.tasks_queue[p].push(task)),
            }
        } else {
            QueueView {
                peers_queue: self.peers_queue.push(p),
                tasks_queue: self.tasks_queue.insert(p, seq![task]),
            }
        }
    }

    /// The queue after `task` was put before the tasks of its peer.
    pub open spec fn add_task_front(self, task: ServerTaskView) -> QueueView {
        let p = task.peer_index();
        if self.tasks_queue.contains_key(p) {
            QueueView {
                peers_queue: self.peers_queue,
                tasks_queue: self.tasks_queue.insert(p, seq![task] + self.tasks_queue[p]),
            }
        } else {
            QueueView {
                peers_queue: self.peers_queue.push(p),
                tasks_queue: self.tasks_queue.insert(p, seq![task]),
            }
        }
    }

    /// The task that is served next: the first task of the first peer.
    pub open spec fn front(self) -> Option<ServerTaskView> {
        if self.peers_queue.len() == 0 {
            None
        } else {
            Some(self.tasks_queue[self.peers_queue[0]][0])
        }
    }

    /// The queue after its next task was taken: the first peer has lost its
    /// first task and, if it has more, has moved behind the other peers.
    pub open spec fn pop_front(self) -> QueueView {
        if self.peers_queue.len() == 0 {
            self
        } else {
            let p = self.peers_queue[0];
            let rest = self.tasks_queue[p].drop_first();
            if rest.len() == 0 {
                QueueView {
                    peers_queue: self.peers_queue.drop_first(),
                    tasks_queue: self.tasks_queue.remove(p),
                }
            } else {
                QueueView {
                    peers_queue: self.peers_queue.drop_first().push(p),
                    tasks_queue: self.tasks_queue.insert(p, rest),
                }
            }
        }
    }

    /// The queue after its next `n` tasks were taken.
    pub open spec fn pop_front_times(self, n: nat) -> QueueView
        decreases n,
    {
        if n == 0 {
            self
        } else {
            self.pop_front().pop_front_times((n - 1) as nat)
        }
    }

    /// The queue without the peer `p` and its tasks.
    pub open spec fn remove_peer_tasks(self, p: PeerIndex) -> QueueView {
        QueueView {
            peers_queue: without_peer(self.peers_queue, p),
            tasks_queue: self.tasks_queue.remove(p),
        }
    }
}

/// Server tasks queue
pub struct ServerQueue {
    is_stopping: bool,
    peers_queue: VecDeque<usize>,
    tasks_queue: HashMap<usize, VecDeque<ServerTask>>,
}

impl View for ServerQueue {
    type V = QueueView;

    closed spec fn view(&self) -> QueueView {
        QueueView {
            peers_queue: self.peers_queue@,
            tasks_queue: Map::new(
                |p: PeerIndex| self.tasks_queue@.contains_key(p),
                |p: PeerIndex| self.tasks_queue@[p]@.map_values(|t: ServerTask| t@),
            ),
        }
    }
}

impl ServerQueue {
    /// The queue's invariant.
    pub open spec fn wf(&self) -> bool {
        self@.wf()
    }

    /// The server has been asked to stop.
    pub closed spec fn stopping(&self) -> bool {
        self.is_stopping
    }

    pub fn new() -> (r: Self)
        ensures
            r.wf(),
            r@ == QueueView::empty(),
            !r.stopping(),
    {
        let r = ServerQueue {
            is_stopping: false,
            peers_queue: VecDeque::new(),
            tasks_queue: HashMap::new(),
        };
        assert(r@.tasks_queue =~= Map::empty());
        r
    }

    pub fn next_task(&mut self) -> (r: Option<ServerTask>)
        requires
            old(self).wf(),
        ensures
            final(self).wf(),
            final(self).stopping() == old(self).stopping(),
            final(self)@ == old(self)@.pop_front(),
            match r {
                Some(task) => Some(task@) == old(self)@.front(),
                None => old(self)@.front().is_none(),
            },
    {
        let peer_index = match self.peers_queue.pop_front() {
            None => {
                return None;
            },
            Some(peer_index) => peer_index,
        };
        assert(old(self)@.peers_queue.contains(peer_index));
        // a queued peer has tasks, so neither of the two `None` arms is reached
        let removed = self.tasks_queue.remove(&peer_index);
        let mut peer_tasks = match removed {
            Some(peer_tasks) => peer_tasks,
            None => {
                return None;
            },
        };
        assert(peer_tasks@.map_values(|t: ServerTask| t@) == old(self)@.tasks_queue[peer_index]);
        let peer_task = match peer_tasks.pop_front() {
            Some(peer_task) => peer_task,
            None => {
                return None;
            },
        };
        let ghost rest = peer_tasks@.map_values(|t: ServerTask| t@);
        assert(rest =~= old(self)@.tasks_queue[peer_index].drop_first());
        // remove if no tasks left || schedule otherwise
        if peer_tasks.len() != 0 {
            self.peers_queue.push_back(peer_index);
            self.tasks_queue.insert(peer_index, peer_tasks);
            assert(self@.tasks_queue =~= old(self)@.tasks_queue.insert(peer_index, rest));
        } else {
            assert(self@.tasks_queue =~= old(self)@.tasks_queue.remove(peer_index));
        }
        proof {
            lemma_pop_front_wf(old(self)@);
        }
        Some(peer_task)
    }

    pub fn add_task(&mut self, task: ServerTask)
        requires
            old(self).wf(),
        ensures
            final(self).wf(),
            final(self).stopping() == old(self).stopping(),
            final(self)@ == old(self)@.add_task(task@),
    {
        let peer_index = task.peer_index();
        let removed = self.tasks_queue.remove(&peer_index);
        match removed {
            Some(mut peer_tasks) => {
                let add_to_peers_queue = peer_tasks.len() == 0;
                let ghost before = peer_tasks@.map_values(|t: ServerTask| t@);
                assert(before == old(self)@.tasks_queue[peer_index]);
                peer_tasks.push_back(task);
                assert(peer_tasks@.map_values(|t: ServerTask| t@) =~= before.push(task@));
                self.tasks_queue.insert(peer_index, peer_tasks);
                if add_to_peers_queue {
                    self.peers_queue.push_back(peer_index);
                }
            },
            None => {
                let mut new_tasks: VecDeque<ServerTask> = VecDeque::new();
                new_tasks.push_back(task);
                assert(new_tasks@.map_values(|t: ServerTask| t@) =~= seq![task@]);
                self.tasks_queue.insert(peer_index, new_tasks);
                self.peers_queue.push_back(peer_index);
            },
        }
        assert(self@.tasks_queue =~= old(self)@.add_task(task@).tasks_queue);
        proof {
            lemma_add_task_wf(old(self)@, task@);
        }
    }

    pub fn add_task_front(&mut self, task: ServerTask)
        requires
            old(self).wf(),
        ensures
            final(self).wf(),
            final(self).stopping() == old(self).stopping(),
            final(self)@ == old(self)@.add_task_front(task@),
    {
        let peer_index = task.peer_index();
        let removed = self.tasks_queue.remove(&peer_index);
        match removed {
            Some(mut peer_tasks) => {
                let add_to_peers_queue = peer_tasks.len() == 0;
                let ghost before = peer_tasks@.map_values(|t: ServerTask| t@);
                assert(before == old(self)@.tasks_queue[peer_index]);
                peer_tasks.push_front(task);
                assert(peer_tasks@.map_values(|t: ServerTask| t@) =~= seq![task@] + before);
                self.tasks_queue.insert(peer_index, peer_tasks);
                if add_to_peers_queue {
                    self.peers_queue.push_back(peer_index);
                }
            },
            None => {
                let mut new_tasks: VecDeque<ServerTask> = VecDeque::new();
                new_tasks.push_back(task);
                assert(new_tasks@.map_values(|t: ServerTask| t@) =~= seq![task@]);
                self.tasks_queue.insert(peer_index, new_tasks);
                self.peers_queue.push_back(peer_index);
            },
        }
        assert(self@.tasks_queue =~= old(self)@.add_task_front(task@).tasks_queue);
        proof {
            lemma_add_task_front_wf(old(self)@, task@);
        }
    }

    pub fn remove_peer_tasks(&mut self, peer_index: PeerIndex)
        requires
            old(self).wf(),
        ensures
            final(self).wf(),
            final(self).stopping() == old(self).stopping(),
            final(self)@ == old(self)@.remove_peer_tasks(peer_index),
            !final(self)@.peers_queue.contains(peer_index),
            !final(self)@.tasks_queue.contains_key(peer_index),
    {
        let removed = self.tasks_queue.remove(&peer_index);
        assert(self@.tasks_queue =~= old(self)@.tasks_queue.remove(peer_index));
        if removed.is_some() {
            assert(old(self)@.peers_queue.contains(peer_index));
            let mut position: usize = 0;
            while position < self.peers_queue.len() && self.peers_queue[position] != peer_index
                invariant
                    position <= self.peers_queue@.len(),
                    self.peers_queue@ == old(self)@.peers_queue,
                    self.tasks_queue@ == old(self).tasks_queue@.remove(peer_index),
                    self.is_stopping == old(self).is_stopping,
                    forall|i: int| 0 <= i < position ==> self.peers_queue@[i] != peer_index,
                decreases self.peers_queue@.len() - position,
            {
                position += 1;
            }
            proof {
                lemma_remove_peer_tasks(old(self)@, peer_index, position as int);
            }
            self.peers_queue.remove(position);
        } else {
            proof {
                lemma_remove_absent_peer(old(self)@, peer_index);
            }
        }
    }

    /// Asks the worker to stop.
    pub fn stop(&mut self)
        ensures
            final(self).stopping(),
            final(self)@ == old(self)@,
    {
        self.is_stopping = true;
    }

    /// The worker has been asked to stop.
    pub fn is_stopping(&self) -> (r: bool)
        ensures
            r == self.stopping(),
    {
        self.is_stopping
    }
}

/// Filing a task behind the others of its peer keeps the queue's invariant.
pub proof fn lemma_add_task_wf(q: QueueView, task: ServerTaskView)
    requires
        q.wf(),
    ensures
        q.add_task(task).wf(),
{
    let p = task.peer_index();
    let r = q.add_task(task);
    if q.tasks_queue.contains_key(p) {
        assert forall|x: PeerIndex, i: int|
            r.tasks_queue.contains_key(x) && 0 <= i < r.tasks_queue[x].len() implies (
            #[trigger] r.tasks_queue[x][i]).peer_index() == x by {
            if x == p && i < q.tasks_queue[p].len() {
                assert(r.tasks_queue[x][i] == q.tasks_queue[p][i]);
            }
        }
    } else {
        lemma_push_new_peer(q.peers_queue, p);
    }
}

/// Filing a task before the others of its peer keeps the queue's invariant.
pub proof fn lemma_add_task_front_wf(q: QueueView, task: ServerTaskView)
    requires
        q.wf(),
    ensures
        q.add_task_front(task).wf(),
{
    let p = task.peer_index();
    let r = q.add_task_front(task);
    if q.tasks_queue.contains_key(p) {
        assert forall|x: PeerIndex, i: int|
            r.tasks_queue.contains_key(x) && 0 <= i < r.tasks_queue[x].len() implies (
            #[trigger] r.tasks_queue[x][i]).peer_index() == x by {
            if x == p && i > 0 {
                assert(r.tasks_queue[x][i] == q.tasks_queue[p][i - 1]);
            }
        }
    } else {
        lemma_push_new_peer(q.peers_queue, p);
    }
}

/// A sequence without duplicates that gets a new last element holds what it
/// held and that element, and still has no duplicates.
proof fn lemma_push_new_peer(peers: Seq<PeerIndex>, p: PeerIndex)
    requires
        peers.no_duplicates(),
        !peers.contains(p),
    ensures
        peers.push(p).no_duplicates(),
        forall|x: PeerIndex| #[trigger] peers.push(p).contains(x) <==> (peers.contains(x) || x == p),
{
    let pushed = peers.push(p);
    assert forall|x: PeerIndex| #[trigger] pushed.contains(x) <==> (peers.contains(x) || x == p) by {
        if pushed.contains(x) {
            let i = choose|i: int| 0 <= i < pushed.len() && pushed[i] == x;
            if i < peers.len() {
                assert(peers[i] == x);
            }
        }
        if peers.contains(x) {
            let i = choose|i: int| 0 <= i < peers.len() && peers[i] == x;
            assert(pushed[i] == x);
        }
        if x == p {
            assert(pushed[peers.len() as int] == x);
        }
    }
    assert forall|i: int, j: int|
        0 <= i < pushed.len() && 0 <= j < pushed.len() && i != j implies pushed[i] != pushed[j] by {
        if i < peers.len() && j < peers.len() {
        } else if i < peers.len() {
            assert(peers.contains(pushed[i]));
        } else if j < peers.len() {
            assert(peers.contains(pushed[j]));
        }
    }
}

/// In a sequence without duplicates, dropping every occurrence of a value
/// is removing the element at the one place where it stands.
pub proof fn lemma_filter_is_remove(peers: Seq<PeerIndex>, p: PeerIndex, position: int)
    requires
        peers.no_duplicates(),
        0 <= position < peers.len(),
        peers[position] == p,
    ensures
        without_peer(peers, p) == peers.remove(position),
    decreases peers.len(),
{
    reveal(Seq::filter);
    let front = peers.drop_last();
    if position == peers.len() - 1 {
        lemma_filter_absent(front, p);
        assert(peers.remove(position) =~= front);
    } else {
        lemma_filter_is_remove(front, p, position);
        assert(peers.last() != p);
        assert(peers.remove(position) =~= front.remove(position).push(peers.last()));
    }
}

/// Dropping every occurrence of a value that does not occur changes nothing.
pub proof fn lemma_filter_absent(peers: Seq<PeerIndex>, p: PeerIndex)
    requires
        !peers.contains(p),
    ensures
        without_peer(peers, p) == peers,
    decreases peers.len(),
{
    reveal(Seq::filter);
    if peers.len() > 0 {
        let front = peers.drop_last();
        assert forall|i: int| 0 <= i < front.len() implies front[i] != p by {
            assert(peers[i] == front[i]);
        }
        assert(peers.last() != p);
        lemma_filter_absent(front, p);
        assert(front.push(peers.last()) =~= peers);
    } else {
        assert(without_peer(peers, p) =~= peers);
    }
}

/// Removing a queued peer with its tasks keeps the queue's invariant.
proof fn lemma_remove_peer_tasks(q: QueueView, p: PeerIndex, position: int)
    requires
        q.wf(),
        q.peers_queue.contains(p),
        0 <= position <= q.peers_queue.len(),
        forall|i: int| 0 <= i < position ==> q.peers_queue[i] != p,
        position < q.peers_queue.len() ==> q.peers_queue[position] == p,
    ensures
        position < q.peers_queue.len(),
        q.remove_peer_tasks(p).peers_queue == q.peers_queue.remove(position),
        q.remove_peer_tasks(p).wf(),
        !q.remove_peer_tasks(p).peers_queue.contains(p),
{
    let i0 = choose|i: int| 0 <= i < q.peers_queue.len() && q.peers_queue[i] == p;
    assert(position < q.peers_queue.len());
    lemma_filter_is_remove(q.peers_queue, p, position);
    let r = q.remove_peer_tasks(p);
    let removed = q.peers_queue.remove(position);
    assert forall|x: PeerIndex| #[trigger] removed.contains(x) <==> (q.peers_queue.contains(x) && x != p) by {
        if removed.contains(x) {
            let i = choose|i: int| 0 <= i < removed.len() && removed[i] == x;
            if i < position {
                assert(q.peers_queue[i] == x);
            } else {
                assert(q.peers_queue[i + 1] == x);
            }
        }
        if q.peers_queue.contains(x) && x != p {
            let i = choose|i: int| 0 <= i < q.peers_queue.len() && q.peers_queue[i] == x;
            if i < position {
                assert(removed[i] == x);
            } else {
                assert(removed[i - 1] == x);
            }
        }
    }
    assert forall|i: int, j: int|
        0 <= i < removed.len() && 0 <= j < removed.len() && i != j implies removed[i] != removed[j] by {
        let a = if i < position { i } else { i + 1 };
        let b = if j < position { j } else { j + 1 };
        assert(removed[i] == q.peers_queue[a]);
        assert(removed[j] == q.peers_queue[b]);
    }
    assert(r.wf());
}

/// Removing a peer that has no task changes nothing.
proof fn lemma_remove_absent_peer(q: QueueView, p: PeerIndex)
    requires
        q.wf(),
        !q.tasks_queue.contains_key(p),
    ensures
        q.remove_peer_tasks(p) == q,
{
    lemma_filter_absent(q.peers_queue, p);
    assert(q.tasks_queue.remove(p) =~= q.tasks_queue);
}

/// Peers are served in turn: the first task of the peer at place `i` of the
/// peers queue is served once one task of each peer before it has been.
pub proof fn lemma_round_robin(q: QueueView, i: int)
    requires
        q.wf(),
        0 <= i < q.peers_queue.len(),
    ensures
        q.pop_front_times(i as nat).front() == Some(q.tasks_queue[q.peers_queue[i]][0]),
    decreases i,
{
    if i > 0 {
        let next = q.pop_front();
        lemma_pop_front_wf(q);
        assert(next.peers_queue[i - 1] == q.peers_queue[i]);
        assert(q.peers_queue[0] != q.peers_queue[i]);
        lemma_round_robin(next, i - 1);
    }
}

/// Taking the next task keeps the queue's invariant.
pub proof fn lemma_pop_front_wf(q: QueueView)
    requires
        q.wf(),
    ensures
        q.pop_front().wf(),
{
    if q.peers_queue.len() > 0 {
        let p = q.peers_queue[0];
        let r = q.pop_front();
        assert(q.peers_queue.contains(p));
        let tail = q.peers_queue.drop_first();
        assert forall|x: PeerIndex| tail.contains(x) <==> (q.peers_queue.contains(x) && x != p) by {
            if tail.contains(x) {
                let i = choose|i: int| 0 <= i < tail.len() && tail[i] == x;
                assert(q.peers_queue[i + 1] == x);
            }
            if q.peers_queue.contains(x) && x != p {
                let i = choose|i: int| 0 <= i < q.peers_queue.len() && q.peers_queue[i] == x;
                assert(tail[i - 1] == x);
            }
        }
        assert(tail.no_duplicates()) by {
            assert forall|i: int, j: int| 0 <= i < tail.len() && 0 <= j < tail.len() && i != j implies tail[i] != tail[j] by {
                assert(tail[i] == q.peers_queue[i + 1]);
                assert(tail[j] == q.peers_queue[j + 1]);
            }
        }
        let rest = q.tasks_queue[p].drop_first();
        if rest.len() == 0 {
            assert(r.wf());
        } else {
            let pushed = tail.push(p);
            assert forall|x: PeerIndex| pushed.contains(x) <==> q.peers_queue.contains(x) by {
                if pushed.contains(x) {
                    let i = choose|i: int| 0 <= i < pushed.len() && pushed[i] == x;
                    if i < tail.len() {
                        assert(tail.contains(x));
                    }
                }
                if q.peers_queue.contains(x) {
                    if x == p {
                        assert(pushed[tail.len() as int] == x);
                    } else {
                        assert(tail.contains(x));
                        let i = choose|i: int| 0 <= i < tail.len() && tail[i] == x;
                        assert(pushed[i] == x);
                    }
                }
            }
            assert(pushed.no_duplicates()) by {
                assert forall|i: int, j: int| 0 <= i < pushed.len() && 0 <= j < pushed.len() && i != j implies pushed[i] != pushed[j] by {
                    if i < tail.len() && j < tail.len() {
                    } else if i < tail.len() {
                        assert(tail.contains(pushed[i]));
                    } else if j < tail.len() {
                        assert(tail.contains(pushed[j]));
                    }
                }
            }
            assert forall|x: PeerIndex, i: int|
                r.tasks_queue.contains_key(x) && 0 <= i < r.tasks_queue[x].len() implies (
                #[trigger] r.tasks_queue[x][i]).peer_index() == x by {
                if x == p {
                    assert(r.tasks_queue[x][i] == q.tasks_queue[p][i + 1]);
                }
            }
            assert(r.wf());
        }
    }
}

/// Synchronization server
pub trait Server {
    /// Validity of the server's representation.
    spec fn valid(&self) -> bool;

    /// Execute single synchronization task
    fn execute(&mut self, task: ServerTask)
        requires
            old(self).valid(),
        ensures
            final(self).valid(),
    ;

    /// Called when connection is closed
    fn on_disconnect(&mut self, peer_index: PeerIndex)
        requires
            old(self).valid(),
        ensures
            final(self).valid(),
    ;
}

/// What the worker of a server does next.
#[derive(Debug, PartialEq)]
pub enum WorkerStep {
    /// The server is stopping: the worker ends.
    Stop,
    /// No task is pending: the worker waits for one.
    Wait,
    /// A task was served: the node is handed what it asks for.
    Served(Effect),
}

/// Mathematical value of a [`WorkerStep`].
pub enum WorkerStepView {
    Stop,
    Wait,
    Served(EffectView),
}

impl View for WorkerStep {
    type V = WorkerStepView;

    open spec fn view(&self) -> WorkerStepView {
        match *self {
            WorkerStep::Stop => WorkerStepView::Stop,
            WorkerStep::Wait => WorkerStepView::Wait,
            WorkerStep::Served(effect) => WorkerStepView::Served(effect@),
        }
    }
}

/// One step of the worker on a queue that is not stopping: the next task is
/// taken and served, and what is left of it goes before its peer's tasks.
pub open spec fn spec_serve_next(store: StoreView, queue: QueueView) -> (
    QueueView,
    WorkerStepView,
) {
    match queue.front() {
        None => (queue, WorkerStepView::Wait),
        Some(task) => {
            let (continuation, effect) = spec_execute(store, task);
            (
                match continuation {
                    Some(next) => queue.pop_front().add_task_front(next),
                    None => queue.pop_front(),
                },
                WorkerStepView::Served(effect),
            )
        },
    }
}

/// Synchronization requests server
pub struct ServerImpl {
    queue: ServerQueue,
}

impl ServerImpl {
    /// The pending tasks.
    pub closed spec fn queue(&self) -> ServerQueue {
        self.queue
    }

    /// The server's invariant: that of its queue.
    pub open spec fn wf(&self) -> bool {
        self.queue().wf()
    }

    /// A server with no pending task.
    pub fn new() -> (r: Self)
        ensures
            r.wf(),
            r.queue()@ == QueueView::empty(),
            !r.queue().stopping(),
    {
        ServerImpl { queue: ServerQueue::new() }
    }

    /// One step of the worker, which answers from `storage`.
    pub fn serve_next<S: BlockProvider>(&mut self, storage: &S) -> (r: WorkerStep)
        requires
            old(self).wf(),
            storage.valid(),
        ensures
            final(self).wf(),
            final(self).queue().stopping() == old(self).queue().stopping(),
            old(self).queue().stopping() ==> r@ == WorkerStepView::Stop && final(self).queue()@
                == old(self).queue()@,
            !old(self).queue().stopping() ==> (final(self).queue()@, r@) == spec_serve_next(
                storage.store(),
                old(self).queue()@,
            ),
    {
        if self.queue.is_stopping() {
            return WorkerStep::Stop;
        }
        match self.queue.next_task() {
            None => WorkerStep::Wait,
            Some(task) => {
                let executor = ServerTaskExecutor::new(storage);
                let (continuation, effect) = executor.execute(task);
                if let Some(next) = continuation {
                    self.queue.add_task_front(next);
                }
                WorkerStep::Served(effect)
            },
        }
    }

    /// Asks the worker to stop.
    pub fn stop(&mut self)
        ensures
            final(self).queue().stopping(),
            final(self).queue()@ == old(self).queue()@,
    {
        self.queue.stop();
    }
}

impl Server for ServerImpl {
    open spec fn valid(&self) -> bool {
        self.wf()
    }

    fn execute(&mut self, task: ServerTask)
        ensures
            final(self).queue()@ == old(self).queue()@.add_task(task@),
            final(self).queue().stopping() == old(self).queue().stopping(),
    {
        self.queue.add_task(task);
    }

    fn on_disconnect(&mut self, peer_index: PeerIndex)
        ensures
            final(self).queue()@ == old(self).queue()@.remove_peer_tasks(peer_index),
            !final(self).queue()@.peers_queue.contains(peer_index),
            !final(self).queue()@.tasks_queue.contains_key(peer_index),
            final(self).queue().stopping() == old(self).queue().stopping(),
    {
        self.queue.remove_peer_tasks(peer_index);
    }
}

} // verus!
