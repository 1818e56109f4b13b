use crate::block_provider::StoreView;
use crate::blocks_writer::{
    block_hashes, lemma_insert_all_holds, ErrorView, WriterView, MAX_ORPHANED_BLOCKS,
};
use crate::chain::BlockView;
use crate::hash::H256;
use crate::orphan_blocks_pool::{
    distinct_hashes, drained, holds_hash, lemma_filter_blocks, not_among,
};
use crate::synchronization_chain::StorageError;
use crate::synchronization_verifier::VerifierView;
use vstd::prelude::*;

verus! {

/// Every block of the run but the first builds on the block before it, and
/// no two blocks of the run have the same hash.
pub open spec fn is_linear(chain: Seq<BlockView>) -> bool {
    &&& distinct_hashes(chain)
    &&& forall|i: int| 0 < i < chain.len() ==> (#[trigger] chain[i]).parent() == chain[i - 1].hash()
}

/// `order` holds each of the numbers from 0 up to `n`, `n` left out, once.
pub open spec fn is_permutation(order: Seq<int>, n: int) -> bool {
    &&& order.len() == n
    &&& order.no_duplicates()
    &&& forall|k: int| 0 <= k < n ==> 0 <= #[trigger] order[k] < n
    &&& forall|i: int| 0 <= i < n ==> #[trigger] order.contains(i)
}

/// The writer knows none of the blocks of the run, and no block that waits
/// in its pool builds on one of them.
pub open spec fn is_fresh(w: WriterView, chain: Seq<BlockView>) -> bool {
    &&& forall|i: int|
        0 <= i < chain.len() ==> !w.store.blocks.contains_key((#[trigger] chain[i]).hash())
            && !holds_hash(w.orphans, chain[i].hash())
    &&& forall|i: int, j: int|
        0 <= i < chain.len() && 0 <= j < w.orphans.len() ==> (#[trigger] w.orphans[j]).parent() != (
        #[trigger] chain[i]).hash()
}

/// The run can be appended in order: the store takes its blocks one after
/// the other, and each of them passes verification when its turn comes.
pub open spec fn is_accepted_in_order(w: WriterView, chain: Seq<BlockView>) -> bool {
    &&& w.store.insert_all(chain).is_ok()
    &&& forall|i: int| 0 <= i < chain.len() ==> #[trigger] w.passes_at(chain, i)
}

/// What is asked of a run and of the writer that it is appended to: each
/// block of the run builds on the one before it and the first on a stored
/// block, the writer knows none of them, its pool has room for them, and
/// the run can be appended in order.
#[verifier::opaque]
spec fn is_setting(start: WriterView, chain: Seq<BlockView>) -> bool {
    &&& is_linear(chain)
    &&& is_fresh(start, chain)
    &&& is_accepted_in_order(start, chain)
    &&& start.orphans.len() + chain.len() <= MAX_ORPHANED_BLOCKS
    &&& chain.len() > 0
    &&& start.store.blocks.contains_key(chain[0].parent())
}

/// Each state but the first is what the writer is after the block of the
/// run that `order` names at that place was appended to the state before,
/// with the result at that place.
pub open spec fn appended_in_order(
    chain: Seq<BlockView>,
    order: Seq<int>,
    states: Seq<WriterView>,
    results: Seq<Result<(), ErrorView>>,
) -> bool {
    &&& states.len() == chain.len() + 1
    &&& results.len() == chain.len()
    &&& forall|k: int|
        0 <= k < chain.len() ==> (#[trigger] states[k]).appended(
            chain[order[k]],
            states[k + 1],
            results[k],
        )
}

/// The block `b` is one of the blocks of the run above place `m` that has
/// been appended.
spec fn is_waiting(chain: Seq<BlockView>, done: Seq<int>, m: int, b: BlockView) -> bool {
    exists|i: int| m < i < chain.len() && done.contains(i) && #[trigger] chain[i] == b
}

/// The pool holds what it held at the start and the blocks that wait.
spec fn is_pool(
    held: Seq<BlockView>,
    chain: Seq<BlockView>,
    done: Seq<int>,
    m: int,
    orphans: Seq<BlockView>,
) -> bool {
    forall|b: BlockView| #[trigger]
        orphans.contains(b) <==> held.contains(b) || is_waiting(chain, done, m, b)
}

/// Of the blocks that `done` names, the first `m` of the run are among
/// them, and the block at place `m` is not.
spec fn is_front(chain: Seq<BlockView>, done: Seq<int>, m: int) -> bool {
    &&& 0 <= m <= chain.len()
    &&& forall|i: int| 0 <= i < m ==> #[trigger] done.contains(i)
    &&& m < chain.len() ==> !done.contains(m)
}

/// The store and the verifier are what the first `m` blocks of the run,
/// appended in order, make of them.
spec fn is_stored(start: WriterView, chain: Seq<BlockView>, m: int, w: WriterView) -> bool {
    &&& start.store.insert_all(chain.subrange(0, m)) == Ok::<StoreView, StorageError>(w.store)
    &&& w.verifier == start.verifier.after_all(block_hashes(chain.subrange(0, m)))
}

/// Where the writer stands after the blocks that `done` names have been
/// appended: the first `m` blocks of the run are stored, the block at place
/// `m` has not come yet, and those that have come from above it wait.
#[verifier::opaque]
spec fn is_progress(
    start: WriterView,
    chain: Seq<BlockView>,
    done: Seq<int>,
    m: int,
    w: WriterView,
) -> bool {
    &&& is_front(chain, done, m)
    &&& is_stored(start, chain, m, w)
    &&& is_pool(start.orphans, chain, done, m, w.orphans)
    &&& w.orphans.len() == start.orphans.len() + done.len() - m
}

/// What a sequence holds once a value was put behind it.
proof fn lemma_push_contains<A>(s: Seq<A>, a: A)
    ensures
        forall|x: A| #[trigger] s.push(a).contains(x) <==> s.contains(x) || x == a,
{
    assert forall|x: A| #[trigger] s.push(a).contains(x) <==> s.contains(x) || x == a by {
        if s.push(a).contains(x) {
            let i = choose|i: int| 0 <= i < s.push(a).len() && s.push(a)[i] == x;
            if i < s.len() {
                assert(s[i] == x);
            }
        }
        if s.contains(x) {
            let i = choose|i: int| 0 <= i < s.len() && s[i] == x;
            assert(s.push(a)[i] == x);
        }
        if x == a {
            assert(s.push(a)[s.len() as int] == x);
        }
    }
}

/// Taking in one run of blocks and then another is taking in both as one.
pub proof fn lemma_insert_all_add(store: StoreView, first: Seq<BlockView>, second: Seq<BlockView>)
    ensures
        store.insert_all(first + second) == match store.insert_all(first) {
            Ok(middle) => middle.insert_all(second),
            Err(e) => Err(e),
        },
    decreases second.len(),
{
    if second.len() == 0 {
        assert(first + second =~= first);
    } else {
        lemma_insert_all_add(store, first, second.drop_last());
        assert((first + second).drop_last() =~= first + second.drop_last());
        assert((first + second).last() == second.last());
    }
}

/// Handing a verifier one run of blocks and then another is handing it both
/// as one.
pub proof fn lemma_after_all_add(verifier: VerifierView, first: Seq<H256>, second: Seq<H256>)
    ensures
        verifier.after_all(first + second) == verifier.after_all(first).after_all(second),
    decreases second.len(),
{
    if second.len() == 0 {
        assert(first + second =~= first);
    } else {
        lemma_after_all_add(verifier, first, second.drop_last());
        assert((first + second).drop_last() =~= first + second.drop_last());
        assert((first + second).last() == second.last());
    }
}

/// A block of a part of the run passes verification in the part as it does
/// in the run, once the blocks before the part are stored.
proof fn lemma_passes_in_part(
    start: WriterView,
    chain: Seq<BlockView>,
    m: int,
    w: WriterView,
    end: int,
    j: int,
)
    requires
        0 <= m <= end <= chain.len(),
        is_stored(start, chain, m, w),
        0 <= j <= end - m,
    ensures
        w.store.insert_all(chain.subrange(m, end).subrange(0, j)) == start.store.insert_all(
            chain.subrange(0, m + j),
        ),
        w.verifier.after_all(block_hashes(chain.subrange(m, end).subrange(0, j)))
            == start.verifier.after_all(block_hashes(chain.subrange(0, m + j))),
        j < end - m ==> w.passes_at(chain.subrange(m, end), j) == start.passes_at(chain, m + j),
{
    let front = chain.subrange(0, m);
    let part = chain.subrange(m, end).subrange(0, j);
    assert(front + part =~= chain.subrange(0, m + j));
    assert(block_hashes(front) + block_hashes(part) =~= block_hashes(chain.subrange(0, m + j)));
    lemma_insert_all_add(start.store, front, part);
    lemma_after_all_add(start.verifier, block_hashes(front), block_hashes(part));
    if j < end - m {
        assert(chain.subrange(m, end)[j] == chain[m + j]);
    }
}

/// What the store holds while the first `m` blocks of the run are stored.
proof fn lemma_progress_store(
    start: WriterView,
    chain: Seq<BlockView>,
    done: Seq<int>,
    m: int,
    w: WriterView,
    i: int,
)
    requires
        is_linear(chain),
        is_fresh(start, chain),
        chain.len() > 0,
        start.store.blocks.contains_key(chain[0].parent()),
        is_front(chain, done, m),
        start.store.insert_all(chain.subrange(0, m)) == Ok::<StoreView, StorageError>(w.store),
        is_pool(start.orphans, chain, done, m, w.orphans),
        0 <= i < chain.len(),
        !done.contains(i),
    ensures
        m <= i,
        !w.store.blocks.contains_key(chain[i].hash()),
        !holds_hash(w.orphans, chain[i].hash()),
        w.store.blocks.contains_key(chain[i].parent()) <==> i == m,
{
    let front = chain.subrange(0, m);
    lemma_insert_all_holds(start.store, front, w.store);
    let hash = chain[i].hash();
    if holds_hash(front, hash) {
        let j = choose|j: int| 0 <= j < front.len() && (#[trigger] front[j]).hash() == hash;
        assert(chain[j].hash() == chain[i].hash());
    }
    if holds_hash(w.orphans, hash) {
        let x = choose|x: int| 0 <= x < w.orphans.len() && (#[trigger] w.orphans[x]).hash() == hash;
        let b = w.orphans[x];
        assert(w.orphans.contains(b));
        if start.orphans.contains(b) {
            let y = choose|y: int| 0 <= y < start.orphans.len() && start.orphans[y] == b;
            assert(start.orphans[y].hash() == hash);
        } else {
            let y = choose|y: int| m < y < chain.len() && done.contains(y) && #[trigger] chain[y] == b;
            assert(chain[y].hash() == chain[i].hash());
        }
    }
    let parent = chain[i].parent();
    if i == 0 {
    } else {
        assert(parent == chain[i - 1].hash());
        if holds_hash(front, parent) {
            let j = choose|j: int| 0 <= j < front.len() && (#[trigger] front[j]).hash() == parent;
            assert(chain[j].hash() == chain[i - 1].hash());
        }
        if i == m {
            assert(front[i - 1].hash() == parent);
        }
    }
}

/// A block of the run whose parent has not come joins those that wait.
proof fn lemma_progress_wait(
    held: Seq<BlockView>,
    chain: Seq<BlockView>,
    done: Seq<int>,
    m: int,
    orphans: Seq<BlockView>,
    i: int,
)
    requires
        is_front(chain, done, m),
        is_pool(held, chain, done, m, orphans),
        m < i < chain.len(),
    ensures
        is_front(chain, done.push(i), m),
        is_pool(held, chain, done.push(i), m, orphans.push(chain[i])),
{
    let after = done.push(i);
    let pool = orphans.push(chain[i]);
    lemma_push_contains(done, i);
    lemma_push_contains(orphans, chain[i]);
    assert forall|b: BlockView| #[trigger]
        pool.contains(b) <==> held.contains(b) || is_waiting(chain, after, m, b) by {
        if is_waiting(chain, done, m, b) {
            let y = choose|y: int| m < y < chain.len() && done.contains(y) && #[trigger] chain[y] == b;
            assert(after.contains(y));
        }
        if b == chain[i] {
            assert(after.contains(i));
            assert(is_waiting(chain, after, m, b));
        }
        if is_waiting(chain, after, m, b) {
            let y = choose|y: int| m < y < chain.len() && after.contains(y) && #[trigger] chain[y] == b;
            if y != i {
                assert(done.contains(y));
                assert(is_waiting(chain, done, m, b));
            }
        }
    }
}

/// The blocks that are drained for the block at place `m` of the run are
/// the blocks that follow it in the run, as far as they wait.
proof fn lemma_drained_run(
    held: Seq<BlockView>,
    chain: Seq<BlockView>,
    done: Seq<int>,
    m: int,
    orphans: Seq<BlockView>,
    removed: Seq<BlockView>,
    j: int,
)
    requires
        is_linear(chain),
        forall|i: int, x: int|
            0 <= i < chain.len() && 0 <= x < held.len() ==> (#[trigger] held[x]).parent() != (
            #[trigger] chain[i]).hash(),
        is_pool(held, chain, done, m, orphans),
        0 <= m < chain.len(),
        distinct_hashes(removed),
        forall|x: int| 0 <= x < removed.len() ==> orphans.contains(#[trigger] removed[x]),
        forall|x: int|
            0 <= x < removed.len() ==> (#[trigger] removed[x]).parent() == chain[m].hash()
                || holds_hash(removed.subrange(0, x), removed[x].parent()),
        0 <= j <= removed.len(),
    ensures
        m + j < chain.len(),
        forall|x: int|
            0 <= x < j ==> #[trigger] removed[x] == chain[m + 1 + x] && done.contains(m + 1 + x),
    decreases j,
{
    if j > 0 {
        lemma_drained_run(held, chain, done, m, orphans, removed, j - 1);
        let b = removed[j - 1];
        assert(orphans.contains(b));
        // the place in the run of the block that `b` builds on
        let under: int = if b.parent() == chain[m].hash() {
            m
        } else {
            let before = removed.subrange(0, j - 1);
            let x = choose|x: int| 0 <= x < before.len() && (#[trigger] before[x]).hash() == b.parent();
            assert(before[x] == removed[x]);
            m + 1 + x
        };
        assert(m <= under < m + j && under < chain.len() && chain[under].hash() == b.parent());
        if held.contains(b) {
            let y = choose|y: int| 0 <= y < held.len() && held[y] == b;
            assert(held[y].parent() == chain[under].hash());
        }
        let y = choose|y: int| m < y < chain.len() && done.contains(y) && #[trigger] chain[y] == b;
        assert(chain[y].parent() == chain[y - 1].hash());
        assert(y - 1 == under) by {
            if y - 1 < under {
                assert(chain[y - 1].hash() != chain[under].hash());
            } else if under < y - 1 {
                assert(chain[under].hash() != chain[y - 1].hash());
            }
        }
        if y < m + j {
            assert(removed[y - m - 1] == chain[y]);
            assert(removed[y - m - 1].hash() == removed[j - 1].hash());
        }
    }
}

/// Once the block at place `m` of the run has come, the blocks that were
/// drained for it are the run from place `m + 1` as far as its blocks had
/// come, and the others wait on.
proof fn lemma_progress_run(
    held: Seq<BlockView>,
    chain: Seq<BlockView>,
    done: Seq<int>,
    m: int,
    orphans: Seq<BlockView>,
    removed: Seq<BlockView>,
    kept: Seq<BlockView>,
)
    requires
        is_linear(chain),
        forall|i: int| 0 <= i < chain.len() ==> !holds_hash(held, (#[trigger] chain[i]).hash()),
        forall|i: int, x: int|
            0 <= i < chain.len() && 0 <= x < held.len() ==> (#[trigger] held[x]).parent() != (
            #[trigger] chain[i]).hash(),
        is_front(chain, done, m),
        is_pool(held, chain, done, m, orphans),
        m < chain.len(),
        drained(orphans, chain[m].hash(), removed, kept),
    ensures
        m + 1 + removed.len() <= chain.len(),
        seq![chain[m]] + removed == chain.subrange(m, m + 1 + removed.len()),
        is_front(chain, done.push(m), m + 1 + removed.len()),
        is_pool(held, chain, done.push(m), m + 1 + removed.len(), kept),
{
    let after = done.push(m);
    let next = m + 1 + removed.len();
    lemma_push_contains(done, m);
    lemma_drained_run(held, chain, done, m, orphans, removed, removed.len() as int);
    lemma_filter_blocks(orphans, not_among(removed));
    assert(seq![chain[m]] + removed =~= chain.subrange(m, next));
    assert forall|i: int| 0 <= i < next implies #[trigger] after.contains(i) by {
        if i > m {
            assert(removed[i - m - 1] == chain[m + 1 + (i - m - 1)]);
        }
    }
    if next < chain.len() && done.contains(next) {
        let b = chain[next];
        assert(is_waiting(chain, done, m, b));
        assert(orphans.contains(b));
        if removed.contains(b) {
            let x = choose|x: int| 0 <= x < removed.len() && removed[x] == b;
            assert(chain[m + 1 + x].hash() == chain[next].hash());
        }
        assert(kept.contains(b));
        let k = choose|k: int| 0 <= k < kept.len() && kept[k] == b;
        assert(kept[k].parent() == chain[next - 1].hash());
        if next - 1 > m {
            assert(removed[next - 2 - m] == chain[next - 1]);
            assert(removed[next - 2 - m].hash() == kept[k].parent());
        }
    }
    assert forall|b: BlockView| #[trigger]
        kept.contains(b) <==> held.contains(b) || is_waiting(chain, after, next, b) by {
        if held.contains(b) {
            assert(orphans.contains(b));
            if removed.contains(b) {
                let x = choose|x: int| 0 <= x < removed.len() && removed[x] == b;
                let y = choose|y: int| 0 <= y < held.len() && held[y] == b;
                assert(held[y].hash() == chain[m + 1 + x].hash());
            }
        }
        if is_waiting(chain, after, next, b) {
            let y = choose|y: int|
                next < y < chain.len() && after.contains(y) && #[trigger] chain[y] == b;
            assert(done.contains(y));
            assert(is_waiting(chain, done, m, b));
            if removed.contains(b) {
                let x = choose|x: int| 0 <= x < removed.len() && removed[x] == b;
                assert(chain[m + 1 + x].hash() == chain[y].hash());
            }
        }
        if kept.contains(b) && !held.contains(b) {
            let y = choose|y: int| m < y < chain.len() && done.contains(y) && #[trigger] chain[y] == b;
            if y < next {
                assert(removed[y - m - 1] == chain[y]);
                assert(removed.contains(b));
            }
            assert(after.contains(y));
            assert(is_waiting(chain, after, next, b));
        }
    }
}

/// The blocks that were drained for the block at place `m` of the run pass
/// verification one after the other and are stored with it.
proof fn lemma_run_is_stored(
    start: WriterView,
    chain: Seq<BlockView>,
    m: int,
    w: WriterView,
    end: int,
    accepted: int,
    post: WriterView,
    result: Result<(), ErrorView>,
)
    requires
        0 <= m < end <= chain.len(),
        is_accepted_in_order(start, chain),
        is_stored(start, chain, m, w),
        w.verified(chain.subrange(m, end), accepted, post, result),
    ensures
        result == Ok::<(), ErrorView>(()),
        is_stored(start, chain, end, post),
{
    let queue = chain.subrange(m, end);
    lemma_passes_in_part(start, chain, m, w, end, accepted);
    if accepted < queue.len() {
        // the next block passes and the store takes it: it cannot have been refused
        assert(start.passes_at(chain, m + accepted));
        let upto = chain.subrange(0, m + accepted + 1);
        assert(upto + chain.subrange(m + accepted + 1, chain.len() as int) =~= chain);
        lemma_insert_all_add(start.store, upto, chain.subrange(m + accepted + 1, chain.len() as int));
        assert(upto.drop_last() =~= chain.subrange(0, m + accepted));
        assert(upto.last() == queue[accepted]);
    } else {
        assert(queue.subrange(0, accepted) =~= queue);
    }
}

/// One more block of the run is appended: the call succeeds.
proof fn lemma_progress_step(
    start: WriterView,
    chain: Seq<BlockView>,
    done: Seq<int>,
    m: int,
    w: WriterView,
    i: int,
    post: WriterView,
    result: Result<(), ErrorView>,
) -> (next: int)
    requires
        is_setting(start, chain),
        is_progress(start, chain, done, m, w),
        done.len() < chain.len(),
        0 <= i < chain.len(),
        !done.contains(i),
        w.appended(chain[i], post, result),
    ensures
        result == Ok::<(), ErrorView>(()),
        is_progress(start, chain, done.push(i), next, post),
{
    reveal(is_progress);
    reveal(is_setting);
    lemma_progress_store(start, chain, done, m, w, i);
    if i == m {
        let (removed, accepted) = choose|removed: Seq<BlockView>, accepted: int|
            {
                &&& drained(w.orphans, chain[i].hash(), removed, post.orphans)
                &&& #[trigger] w.verified(seq![chain[i]] + removed, accepted, post, result)
            };
        lemma_progress_run(start.orphans, chain, done, m, w.orphans, removed, post.orphans);
        let end = m + 1 + removed.len();
        lemma_run_is_stored(start, chain, m, w, end, accepted, post, result);
        end
    } else {
        lemma_progress_wait(start.orphans, chain, done, m, w.orphans, i);
        m
    }
}

/// Before any block of the run has come, none is stored and none waits.
proof fn lemma_progress_start(start: WriterView, chain: Seq<BlockView>)
    ensures
        is_progress(start, chain, Seq::<int>::empty(), 0, start),
{
    reveal(is_progress);
    let done = Seq::<int>::empty();
    assert(chain.subrange(0, 0) =~= Seq::<BlockView>::empty());
    assert(block_hashes(chain.subrange(0, 0)) =~= Seq::<H256>::empty());
    assert forall|b: BlockView| !is_waiting(chain, done, 0, b) by {
        if is_waiting(chain, done, 0, b) {
            let y = choose|y: int| 0 < y < chain.len() && done.contains(y) && #[trigger] chain[y] == b;
            let x = choose|x: int| 0 <= x < done.len() && done[x] == y;
        }
    }
    if done.contains(0) {
        let x = choose|x: int| 0 <= x < done.len() && done[x] == 0;
    }
}

/// A block that `order` names is not among those that it names before.
proof fn lemma_not_done(order: Seq<int>, k: int)
    requires
        order.no_duplicates(),
        0 <= k < order.len(),
    ensures
        !order.subrange(0, k).contains(order[k]),
        order.subrange(0, k).push(order[k]) == order.subrange(0, k + 1),
{
    let done = order.subrange(0, k);
    if done.contains(order[k]) {
        let x = choose|x: int| 0 <= x < done.len() && done[x] == order[k];
        assert(order[x] == order[k]);
    }
    assert(done.push(order[k]) =~= order.subrange(0, k + 1));
}

/// Where the writer stands after the first `k` blocks of `order` have been
/// appended: each of the calls has succeeded.
proof fn lemma_progress(
    chain: Seq<BlockView>,
    order: Seq<int>,
    states: Seq<WriterView>,
    results: Seq<Result<(), ErrorView>>,
    k: int,
) -> (m: int)
    requires
        is_setting(states[0], chain),
        is_permutation(order, chain.len() as int),
        appended_in_order(chain, order, states, results),
        0 <= k <= chain.len(),
    ensures
        is_progress(states[0], chain, order.subrange(0, k), m, states[k]),
        forall|j: int| 0 <= j < k ==> #[trigger] results[j] == Ok::<(), ErrorView>(()),
    decreases k,
{
    if k == 0 {
        lemma_progress_start(states[0], chain);
        assert(order.subrange(0, 0) =~= Seq::<int>::empty());
        0
    } else {
        let m = lemma_progress(chain, order, states, results, k - 1);
        lemma_not_done(order, k - 1);
        assert(states[k - 1].appended(chain[order[k - 1]], states[k], results[k - 1]));
        lemma_progress_step(
            states[0],
            chain,
            order.subrange(0, k - 1),
            m,
            states[k - 1],
            order[k - 1],
            states[k],
            results[k - 1],
        )
    }
}

/// The blocks of a run in which each block builds on the one before it, and
/// the first on a stored block, may be appended in any order. Where the run
/// can be appended in order and the pool has room for it, every call
/// succeeds, the store ends as if it had taken in the run from its first
/// block to its last, and the pool holds what it held before.
pub proof fn lemma_append_any_order(
    chain: Seq<BlockView>,
    order: Seq<int>,
    states: Seq<WriterView>,
    results: Seq<Result<(), ErrorView>>,
)
    requires
        is_linear(chain),
        is_permutation(order, chain.len() as int),
        appended_in_order(chain, order, states, results),
        is_fresh(states[0], chain),
        is_accepted_in_order(states[0], chain),
        states[0].orphans.len() + chain.len() <= MAX_ORPHANED_BLOCKS,
        chain.len() > 0 ==> states[0].store.blocks.contains_key(chain[0].parent()),
    ensures
        forall|k: int| 0 <= k < chain.len() ==> #[trigger] results[k] == Ok::<(), ErrorView>(()),
        states[0].store.insert_all(chain) == Ok::<StoreView, StorageError>(
            states[chain.len() as int].store,
        ),
        states[chain.len() as int].orphans.len() == states[0].orphans.len(),
        forall|b: BlockView| #[trigger]
            states[chain.len() as int].orphans.contains(b) <==> states[0].orphans.contains(b),
{
    let n = chain.len() as int;
    if n > 0 {
        reveal(is_progress);
        assert(is_setting(states[0], chain)) by {
            reveal(is_setting);
        }
        let m = lemma_progress(chain, order, states, results, n);
        assert(order.subrange(0, n) =~= order);
        assert(chain.subrange(0, n) =~= chain);
        assert(m == n);
        assert forall|b: BlockView| !is_waiting(chain, order, n, b) by {}
    }
}

} // verus!
