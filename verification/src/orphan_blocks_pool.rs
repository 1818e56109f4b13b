use crate::chain::{BlockView, IndexedBlock};
use crate::hash::H256;
use std::collections::VecDeque;
use vstd::prelude::*;

verus! {

broadcast use vstd::std_specs::vecdeque::group_vec_dequeue_axioms;

/// The mathematical values of a run of blocks.
pub open spec fn block_views(blocks: Seq<IndexedBlock>) -> Seq<BlockView> {
    Seq::new(blocks.len(), |i: int| blocks[i]@)
}

/// No two blocks of the sequence have the same hash.
pub open spec fn distinct_hashes(blocks: Seq<BlockView>) -> bool {
    forall|i: int, j: int|
        0 <= i < j < blocks.len() ==> (#[trigger] blocks[i]).hash() != (#[trigger] blocks[j]).hash()
}

/// The sequence holds a block with this hash.
pub open spec fn holds_hash(blocks: Seq<BlockView>, hash: H256) -> bool {
    exists|i: int| 0 <= i < blocks.len() && (#[trigger] blocks[i]).hash() == hash
}

/// The blocks that build on the block `hash`.
pub open spec fn builds_on(hash: H256) -> spec_fn(BlockView) -> bool {
    |b: BlockView| b.parent() == hash
}

/// The blocks that do not build on the block `hash`.
pub open spec fn builds_elsewhere(hash: H256) -> spec_fn(BlockView) -> bool {
    |b: BlockView| b.parent() != hash
}

/// The blocks that are not among `removed`.
pub open spec fn not_among(removed: Seq<BlockView>) -> spec_fn(BlockView) -> bool {
    |b: BlockView| !removed.contains(b)
}

/// `removed` and `kept` are what draining the descendants of `parent` makes
/// of `pool`: every removed block was in the pool and builds on `parent` or
/// on a block removed before it; no block that is kept builds on `parent` or
/// on a removed block; and the kept blocks are the others, in their order.
pub open spec fn drained(
    pool: Seq<BlockView>,
    parent: H256,
    removed: Seq<BlockView>,
    kept: Seq<BlockView>,
) -> bool {
    &&& distinct_hashes(removed)
    &&& removed.len() + kept.len() == pool.len()
    &&& forall|i: int| 0 <= i < removed.len() ==> pool.contains(#[trigger] removed[i])
    &&& forall|i: int|
        0 <= i < removed.len() ==> (#[trigger] removed[i]).parent() == parent || holds_hash(
            removed.subrange(0, i),
            removed[i].parent(),
        )
    &&& forall|k: int|
        0 <= k < kept.len() ==> (#[trigger] kept[k]).parent() != parent && !holds_hash(
            removed,
            kept[k].parent(),
        )
    &&& kept == pool.filter(not_among(removed))
}

/// What a filter keeps of a sequence of blocks: the blocks that pass, and no
/// two of them with one hash if that held before.
pub proof fn lemma_filter_blocks(s: Seq<BlockView>, p: spec_fn(BlockView) -> bool)
    ensures
        forall|b: BlockView| #[trigger] s.filter(p).contains(b) <==> s.contains(b) && p(b),
        distinct_hashes(s) ==> distinct_hashes(s.filter(p)),
        s.filter(p).len() <= s.len(),
    decreases s.len(),
{
    reveal(Seq::filter);
    if s.len() > 0 {
        let front = s.drop_last();
        let last = s.last();
        lemma_filter_blocks(front, p);
        let f = s.filter(p);
        let ff = front.filter(p);
        assert forall|b: BlockView| #[trigger] f.contains(b) <==> s.contains(b) && p(b) by {
            if f.contains(b) {
                let i = choose|i: int| 0 <= i < f.len() && f[i] == b;
                if i < ff.len() {
                    assert(ff[i] == b);
                    assert(ff.contains(b));
                    let j = choose|j: int| 0 <= j < front.len() && front[j] == b;
                    assert(s[j] == b);
                } else {
                    assert(s[s.len() - 1] == b);
                }
            }
            if s.contains(b) && p(b) {
                let j = choose|j: int| 0 <= j < s.len() && s[j] == b;
                if j < front.len() {
                    assert(front[j] == b);
                    assert(ff.contains(b));
                    let i = choose|i: int| 0 <= i < ff.len() && ff[i] == b;
                    assert(f[i] == b);
                } else {
                    assert(f[f.len() - 1] == b);
                }
            }
        }
        if distinct_hashes(s) {
            assert(distinct_hashes(front)) by {
                assert forall|i: int, j: int| 0 <= i < j < front.len() implies (
                #[trigger] front[i]).hash() != (#[trigger] front[j]).hash() by {
                    assert(front[i] == s[i] && front[j] == s[j]);
                }
            }
            assert forall|i: int, j: int| 0 <= i < j < f.len() implies (#[trigger] f[i]).hash() != (
            #[trigger] f[j]).hash() by {
                if j < ff.len() {
                    assert(f[i] == ff[i] && f[j] == ff[j]);
                } else {
                    assert(f[i] == ff[i]);
                    assert(ff.contains(f[i]));
                    let k = choose|k: int| 0 <= k < front.len() && front[k] == f[i];
                    assert(s[k] == f[i]);
                    assert(s[s.len() - 1] == f[j]);
                }
            }
        }
    }
}

/// Two filters that agree on every block of a sequence keep the same of it.
pub proof fn lemma_filter_agree(
    s: Seq<BlockView>,
    p: spec_fn(BlockView) -> bool,
    q: spec_fn(BlockView) -> bool,
)
    requires
        forall|i: int| 0 <= i < s.len() ==> p(#[trigger] s[i]) == q(s[i]),
    ensures
        s.filter(p) == s.filter(q),
    decreases s.len(),
{
    reveal(Seq::filter);
    if s.len() > 0 {
        let front = s.drop_last();
        assert forall|i: int| 0 <= i < front.len() implies p(#[trigger] front[i]) == q(
            front[i],
        ) by {
            assert(front[i] == s[i]);
        }
        lemma_filter_agree(front, p, q);
        assert(p(s[s.len() - 1]) == q(s[s.len() - 1]));
    }
}

/// A filter applied to what another kept keeps what passes both.
pub proof fn lemma_filter_twice(
    s: Seq<BlockView>,
    p: spec_fn(BlockView) -> bool,
    q: spec_fn(BlockView) -> bool,
    both: spec_fn(BlockView) -> bool,
)
    requires
        forall|i: int| 0 <= i < s.len() ==> both(#[trigger] s[i]) == (p(s[i]) && q(s[i])),
    ensures
        s.filter(p).filter(q) == s.filter(both),
    decreases s.len(),
{
    reveal(Seq::filter);
    if s.len() > 0 {
        let front = s.drop_last();
        assert forall|i: int| 0 <= i < front.len() implies both(#[trigger] front[i]) == (p(
            front[i],
        ) && q(front[i])) by {
            assert(front[i] == s[i]);
        }
        lemma_filter_twice(front, p, q, both);
        let last = s[s.len() - 1];
        assert(both(last) == (p(last) && q(last)));
        if p(last) {
            assert(s.filter(p).drop_last() =~= front.filter(p));
        }
    } else {
        assert(s.filter(p) =~= Seq::<BlockView>::empty());
    }
}

/// The blocks that build on a block and those that do not are all the blocks.
pub proof fn lemma_split_len(s: Seq<BlockView>, hash: H256)
    ensures
        s.filter(builds_on(hash)).len() + s.filter(builds_elsewhere(hash)).len() == s.len(),
    decreases s.len(),
{
    reveal(Seq::filter);
    if s.len() > 0 {
        lemma_split_len(s.drop_last(), hash);
    }
}

/// The block `b` descends from the block `ancestor` by a way through the
/// pool of at most `steps` blocks between them.
pub open spec fn descends_within(
    pool: Seq<BlockView>,
    b: BlockView,
    ancestor: H256,
    steps: nat,
) -> bool
    decreases steps,
{
    b.parent() == ancestor || (steps > 0 && exists|i: int|
        0 <= i < pool.len() && (#[trigger] pool[i]).hash() == b.parent() && descends_within(
            pool,
            pool[i],
            ancestor,
            (steps - 1) as nat,
        ))
}

/// The block `b` builds on the block `ancestor`, or on a block of the pool
/// that descends from it.
pub open spec fn descends(pool: Seq<BlockView>, b: BlockView, ancestor: H256) -> bool {
    exists|steps: nat| descends_within(pool, b, ancestor, steps)
}

/// A block that is removed in draining descends from the parent.
proof fn lemma_removed_descends(
    pool: Seq<BlockView>,
    parent: H256,
    removed: Seq<BlockView>,
    kept: Seq<BlockView>,
    i: int,
)
    requires
        drained(pool, parent, removed, kept),
        0 <= i < removed.len(),
    ensures
        descends_within(pool, removed[i], parent, i as nat),
    decreases i,
{
    let b = removed[i];
    if b.parent() != parent {
        let before = removed.subrange(0, i);
        let j = choose|j: int| 0 <= j < before.len() && (#[trigger] before[j]).hash() == b.parent();
        assert(before[j] == removed[j]);
        lemma_removed_descends(pool, parent, removed, kept, j);
        lemma_descends_longer(pool, removed[j], parent, j as nat, (i - 1) as nat);
        assert(pool.contains(removed[j]));
        let k = choose|k: int| 0 <= k < pool.len() && pool[k] == removed[j];
        assert(pool[k].hash() == b.parent());
    }
}

/// A way of some number of steps is a way of at most any greater number.
proof fn lemma_descends_longer(
    pool: Seq<BlockView>,
    b: BlockView,
    ancestor: H256,
    steps: nat,
    more: nat,
)
    requires
        descends_within(pool, b, ancestor, steps),
        steps <= more,
    ensures
        descends_within(pool, b, ancestor, more),
    decreases steps,
{
    if b.parent() != ancestor {
        let i = choose|i: int|
            0 <= i < pool.len() && (#[trigger] pool[i]).hash() == b.parent() && descends_within(
                pool,
                pool[i],
                ancestor,
                (steps - 1) as nat,
            );
        lemma_descends_longer(pool, pool[i], ancestor, (steps - 1) as nat, (more - 1) as nat);
    }
}

/// A block of the pool that descends from the parent is removed in draining.
proof fn lemma_descendant_removed(
    pool: Seq<BlockView>,
    parent: H256,
    removed: Seq<BlockView>,
    kept: Seq<BlockView>,
    b: BlockView,
    steps: nat,
)
    requires
        drained(pool, parent, removed, kept),
        pool.contains(b),
        descends_within(pool, b, parent, steps),
    ensures
        removed.contains(b),
    decreases steps,
{
    lemma_filter_blocks(pool, not_among(removed));
    if b.parent() != parent {
        let i = choose|i: int|
            0 <= i < pool.len() && (#[trigger] pool[i]).hash() == b.parent() && descends_within(
                pool,
                pool[i],
                parent,
                (steps - 1) as nat,
            );
        assert(pool.contains(pool[i]));
        lemma_descendant_removed(pool, parent, removed, kept, pool[i], (steps - 1) as nat);
        let j = choose|j: int| 0 <= j < removed.len() && removed[j] == pool[i];
        assert(removed[j].hash() == b.parent());
    }
    if !removed.contains(b) {
        assert(kept.contains(b));
        let k = choose|k: int| 0 <= k < kept.len() && kept[k] == b;
        assert(kept[k].parent() == b.parent());
    }
}

/// Draining removes the blocks of the pool that descend from the parent, and
/// no others.
pub proof fn lemma_drained_descendants(
    pool: Seq<BlockView>,
    parent: H256,
    removed: Seq<BlockView>,
    kept: Seq<BlockView>,
)
    requires
        drained(pool, parent, removed, kept),
    ensures
        forall|b: BlockView| #[trigger]
            removed.contains(b) <==> pool.contains(b) && descends(pool, b, parent),
        forall|b: BlockView| #[trigger]
            kept.contains(b) <==> pool.contains(b) && !descends(pool, b, parent),
{
    lemma_filter_blocks(pool, not_among(removed));
    assert forall|b: BlockView| #[trigger]
        removed.contains(b) <==> pool.contains(b) && descends(pool, b, parent) by {
        if removed.contains(b) {
            let i = choose|i: int| 0 <= i < removed.len() && removed[i] == b;
            lemma_removed_descends(pool, parent, removed, kept, i);
        }
        if pool.contains(b) && descends(pool, b, parent) {
            let steps = choose|steps: nat| descends_within(pool, b, parent, steps);
            lemma_descendant_removed(pool, parent, removed, kept, b, steps);
        }
    }
}

/// Draining as far as the children of the first `done` removed blocks have
/// been taken: as [`drained`], but a block that is kept may still build on
/// one of the removed blocks from place `done` on.
spec fn draining(
    pool: Seq<BlockView>,
    parent: H256,
    removed: Seq<BlockView>,
    done: int,
    kept: Seq<BlockView>,
) -> bool {
    &&& 0 <= done <= removed.len()
    &&& distinct_hashes(pool)
    &&& distinct_hashes(removed)
    &&& removed.len() + kept.len() == pool.len()
    &&& forall|i: int| 0 <= i < removed.len() ==> pool.contains(#[trigger] removed[i])
    &&& forall|i: int|
        0 <= i < removed.len() ==> (#[trigger] removed[i]).parent() == parent || holds_hash(
            removed.subrange(0, i),
            removed[i].parent(),
        )
    &&& forall|k: int|
        0 <= k < kept.len() ==> (#[trigger] kept[k]).parent() != parent && !holds_hash(
            removed.subrange(0, done),
            kept[k].parent(),
        )
    &&& kept == pool.filter(not_among(removed))
}

/// Draining starts with the blocks that build on `parent` itself.
proof fn lemma_drain_start(pool: Seq<BlockView>, parent: H256)
    requires
        distinct_hashes(pool),
    ensures
        draining(
            pool,
            parent,
            pool.filter(builds_on(parent)),
            0,
            pool.filter(builds_elsewhere(parent)),
        ),
{
    let removed = pool.filter(builds_on(parent));
    let kept = pool.filter(builds_elsewhere(parent));
    lemma_split_len(pool, parent);
    lemma_filter_blocks(pool, builds_on(parent));
    lemma_filter_blocks(pool, builds_elsewhere(parent));
    assert forall|i: int| 0 <= i < removed.len() implies pool.contains(#[trigger] removed[i])
        && removed[i].parent() == parent by {
        assert(removed.contains(removed[i]));
    }
    assert forall|k: int| 0 <= k < kept.len() implies (#[trigger] kept[k]).parent() != parent
        && !holds_hash(removed.subrange(0, 0), kept[k].parent()) by {
        assert(kept.contains(kept[k]));
    }
    assert forall|i: int| 0 <= i < pool.len() implies builds_elsewhere(parent)(#[trigger] pool[i])
        == not_among(removed)(pool[i]) by {
        assert(pool.contains(pool[i]));
    }
    lemma_filter_agree(pool, builds_elsewhere(parent), not_among(removed));
}

/// Taking the children of the next removed block carries draining on.
proof fn lemma_drain_step(
    pool: Seq<BlockView>,
    parent: H256,
    removed: Seq<BlockView>,
    done: int,
    kept: Seq<BlockView>,
)
    requires
        draining(pool, parent, removed, done, kept),
        done < removed.len(),
    ensures
        draining(
            pool,
            parent,
            removed + kept.filter(builds_on(removed[done].hash())),
            done + 1,
            kept.filter(builds_elsewhere(removed[done].hash())),
        ),
        kept.filter(builds_on(removed[done].hash())).len() + kept.filter(
            builds_elsewhere(removed[done].hash()),
        ).len() == kept.len(),
{
    let h = removed[done].hash();
    let children = kept.filter(builds_on(h));
    let after = removed + children;
    let left = kept.filter(builds_elsewhere(h));
    lemma_split_len(kept, h);
    lemma_filter_blocks(pool, not_among(removed));
    lemma_filter_blocks(kept, builds_on(h));
    lemma_filter_blocks(kept, builds_elsewhere(h));
    assert forall|i: int| 0 <= i < after.len() implies pool.contains(#[trigger] after[i]) by {
        if i >= removed.len() {
            assert(children.contains(children[i - removed.len()]));
        } else {
            assert(after[i] == removed[i]);
        }
    }
    assert forall|i: int, j: int| 0 <= i < j < after.len() implies (#[trigger] after[i]).hash() != (
    #[trigger] after[j]).hash() by {
        if j < removed.len() {
            assert(after[i] == removed[i] && after[j] == removed[j]);
        } else if i >= removed.len() {
            assert(after[i] == children[i - removed.len()]);
            assert(after[j] == children[j - removed.len()]);
        } else {
            let c = children[j - removed.len()];
            assert(after[i] == removed[i] && after[j] == c);
            assert(children.contains(c));
            assert(removed.contains(removed[i]));
            let a = choose|a: int| 0 <= a < pool.len() && pool[a] == removed[i];
            let b = choose|b: int| 0 <= b < pool.len() && pool[b] == c;
            assert(a != b);
        }
    }
    assert forall|i: int| 0 <= i < after.len() implies (#[trigger] after[i]).parent() == parent
        || holds_hash(after.subrange(0, i), after[i].parent()) by {
        if i >= removed.len() {
            assert(children.contains(children[i - removed.len()]));
            assert(after.subrange(0, i)[done].hash() == h);
        } else {
            assert(after[i] == removed[i]);
            assert(after.subrange(0, i) =~= removed.subrange(0, i));
        }
    }
    assert forall|k: int| 0 <= k < left.len() implies (#[trigger] left[k]).parent() != parent
        && !holds_hash(after.subrange(0, done + 1), left[k].parent()) by {
        assert(left.contains(left[k]));
        let j = choose|j: int| 0 <= j < kept.len() && kept[j] == left[k];
        assert(kept[j].parent() != parent);
        if holds_hash(after.subrange(0, done + 1), left[k].parent()) {
            let i = choose|i: int|
                0 <= i < done + 1 && (#[trigger] after.subrange(0, done + 1)[i]).hash()
                    == left[k].parent();
            if i < done {
                assert(removed.subrange(0, done)[i].hash() == kept[j].parent());
            }
        }
    }
    assert forall|i: int| 0 <= i < pool.len() implies not_among(after)(#[trigger] pool[i]) == (
    not_among(removed)(pool[i]) && builds_elsewhere(h)(pool[i])) by {
        let b = pool[i];
        assert(pool.contains(b));
        if after.contains(b) {
            let x = choose|x: int| 0 <= x < after.len() && after[x] == b;
            if x < removed.len() {
                assert(removed[x] == b);
            } else {
                assert(children.contains(children[x - removed.len()]));
            }
        } else {
            if removed.contains(b) {
                let x = choose|x: int| 0 <= x < removed.len() && removed[x] == b;
                assert(after[x] == b);
            }
            if b.parent() == h && !removed.contains(b) {
                assert(kept.contains(b));
                assert(children.contains(b));
                let x = choose|x: int| 0 <= x < children.len() && children[x] == b;
                assert(after[removed.len() + x] == b);
            }
        }
    }
    lemma_filter_twice(pool, not_among(removed), builds_elsewhere(h), not_among(after));
}

/// A filter that every block of a sequence passes keeps all of it.
pub proof fn lemma_filter_all(s: Seq<BlockView>, p: spec_fn(BlockView) -> bool)
    requires
        forall|i: int| 0 <= i < s.len() ==> p(#[trigger] s[i]),
    ensures
        s.filter(p) == s,
    decreases s.len(),
{
    reveal(Seq::filter);
    if s.len() > 0 {
        let front = s.drop_last();
        assert forall|i: int| 0 <= i < front.len() implies p(#[trigger] front[i]) by {
            assert(front[i] == s[i]);
        }
        lemma_filter_all(front, p);
        assert(p(s[s.len() - 1]));
        assert(front.push(s.last()) =~= s);
    } else {
        assert(s.filter(p) =~= s);
    }
}

/// Where no block of the pool builds on `parent`, draining removes nothing.
pub proof fn lemma_drained_nothing(
    pool: Seq<BlockView>,
    parent: H256,
    removed: Seq<BlockView>,
    kept: Seq<BlockView>,
)
    requires
        drained(pool, parent, removed, kept),
        forall|i: int| 0 <= i < pool.len() ==> (#[trigger] pool[i]).parent() != parent,
    ensures
        removed.len() == 0,
        kept == pool,
{
    if removed.len() > 0 {
        assert(pool.contains(removed[0]));
        assert(!holds_hash(removed.subrange(0, 0), removed[0].parent()));
    }
    assert forall|i: int| 0 <= i < pool.len() implies not_among(removed)(#[trigger] pool[i]) by {
        if removed.contains(pool[i]) {
            let j = choose|j: int| 0 <= j < removed.len() && removed[j] == pool[i];
        }
    }
    lemma_filter_all(pool, not_among(removed));
}

/// Blocks whose parent is not known yet, kept until it arrives.
pub struct OrphanBlocksPool {
    /// The blocks, in the order of arrival.
    blocks: Vec<IndexedBlock>,
}

impl View for OrphanBlocksPool {
    type V = Seq<BlockView>;

    closed spec fn view(&self) -> Seq<BlockView> {
        block_views(self.blocks@)
    }
}

impl OrphanBlocksPool {
    /// The pool holds at most one block of each hash.
    pub open spec fn wf(&self) -> bool {
        distinct_hashes(self@)
    }

    /// The empty pool.
    pub fn new() -> (r: Self)
        ensures
            r@ == Seq::<BlockView>::empty(),
            r.wf(),
    {
        let r = OrphanBlocksPool { blocks: Vec::new() };
        assert(r@ =~= Seq::<BlockView>::empty());
        r
    }

    /// Number of blocks in the pool.
    pub fn len(&self) -> (r: usize)
        ensures
            r == self@.len(),
    {
        self.blocks.len()
    }

    /// The pool holds a block with this hash.
    pub fn contains_unknown_block(&self, hash: &H256) -> (r: bool)
        ensures
            r == holds_hash(self@, *hash),
    {
        let mut i: usize = 0;
        while i < self.blocks.len()
            invariant
                i <= self.blocks@.len(),
                forall|j: int| 0 <= j < i ==> (#[trigger] self@[j]).hash() != *hash,
            decreases self.blocks@.len() - i,
        {
            if self.blocks[i].hash() == *hash {
                assert(self@[i as int].hash() == *hash);
                return true;
            }
            i += 1;
        }
        false
    }

    /// Puts a block into the pool unless the pool holds one with its hash.
    /// Returns whether the block was put in.
    pub fn insert_orphaned_block(&mut self, block: IndexedBlock) -> (r: bool)
        requires
            old(self).wf(),
        ensures
            final(self).wf(),
            r == !holds_hash(old(self)@, block@.hash()),
            final(self)@ == if r {
                old(self)@.push(block@)
            } else {
                old(self)@
            },
    {
        if self.contains_unknown_block(&block.header.hash) {
            return false;
        }
        self.blocks.push(block);
        assert(self@ =~= old(self)@.push(block@));
        assert forall|i: int, j: int| 0 <= i < j < self@.len() implies (#[trigger] self@[i]).hash()
            != (#[trigger] self@[j]).hash() by {
            assert(self@[i] == old(self)@[i]);
            if j < old(self)@.len() {
                assert(self@[j] == old(self)@[j]);
            }
        }
        true
    }

    /// Takes out of the pool every block that descends from the block
    /// `hash`, and returns them with each block behind those it descends from.
    pub fn remove_blocks_for_parent(&mut self, hash: &H256) -> (r: VecDeque<IndexedBlock>)
        requires
            old(self).wf(),
        ensures
            final(self).wf(),
            drained(old(self)@, *hash, block_views(r@), final(self)@),
    {
        let ghost pool = self@;
        let mut removed: VecDeque<IndexedBlock> = VecDeque::new();
        self.take_children(hash, &mut removed);
        proof {
            lemma_drain_start(pool, *hash);
            assert(block_views(removed@) =~= pool.filter(builds_on(*hash)));
        }
        let mut done: usize = 0;
        while done < removed.len()
            invariant
                draining(pool, *hash, block_views(removed@), done as int, self@),
            decreases self@.len() + removed@.len() - done,
        {
            let next = removed[done].hash();
            proof {
                lemma_drain_step(pool, *hash, block_views(removed@), done as int, self@);
            }
            self.take_children(&next, &mut removed);
            done += 1;
        }
        proof {
            let views = block_views(removed@);
            assert(views.subrange(0, done as int) =~= views);
            lemma_filter_blocks(pool, not_among(views));
        }
        removed
    }

    /// Moves the blocks that build on the block `hash` from the pool to the
    /// back of `out`.
    fn take_children(&mut self, hash: &H256, out: &mut VecDeque<IndexedBlock>)
        ensures
            final(self)@ == old(self)@.filter(builds_elsewhere(*hash)),
            block_views(final(out)@) == block_views(old(out)@) + old(self)@.filter(
                builds_on(*hash),
            ),
    {
        let ghost orig = self@;
        let ghost out0 = block_views(out@);
        let ghost mut k: int = 0;
        let mut i: usize = 0;
        proof {
            reveal(Seq::filter);
            assert(orig.subrange(0, 0) =~= Seq::<BlockView>::empty());
            assert(self@.subrange(0, 0) =~= Seq::<BlockView>::empty());
            assert(self@.subrange(0, self@.len() as int) =~= self@);
            assert(block_views(out@) =~= out0 + Seq::<BlockView>::empty());
        }
        while i < self.blocks.len()
            invariant
                0 <= k <= orig.len(),
                i <= self.blocks@.len(),
                self.blocks@.len() - i == orig.len() - k,
                self@.subrange(0, i as int) == orig.subrange(0, k).filter(builds_elsewhere(*hash)),
                self@.subrange(i as int, self@.len() as int) == orig.subrange(
                    k,
                    orig.len() as int,
                ),
                block_views(out@) == out0 + orig.subrange(0, k).filter(builds_on(*hash)),
            decreases orig.len() - k,
        {
            let ghost before = self@;
            let ghost out_before = block_views(out@);
            let ghost done = orig.subrange(0, k);
            proof {
                reveal(Seq::filter);
                assert(before[i as int] == before.subrange(i as int, before.len() as int)[0]);
                assert(before[i as int] == orig[k]);
                assert(orig.subrange(0, k + 1).drop_last() =~= done);
                assert(orig.subrange(0, k + 1).last() == orig[k]);
            }
            if self.blocks[i].parent_hash() == *hash {
                let block = self.blocks.remove(i);
                out.push_back(block);
                proof {
                    assert(self@ =~= before.remove(i as int));
                    assert(self@.subrange(0, i as int) =~= before.subrange(0, i as int));
                    assert(self@.subrange(i as int, self@.len() as int) =~= before.subrange(
                        i as int,
                        before.len() as int,
                    ).drop_first());
                    assert(orig.subrange(k, orig.len() as int).drop_first() =~= orig.subrange(
                        k + 1,
                        orig.len() as int,
                    ));
                    assert(block_views(out@) =~= out_before.push(orig[k]));
                    assert(out_before.push(orig[k]) =~= out0 + orig.subrange(0, k + 1).filter(
                        builds_on(*hash),
                    ));
                }
            } else {
                i += 1;
                proof {
                    assert(self@.subrange(0, i as int) =~= before.subrange(0, i - 1).push(
                        orig[k],
                    ));
                    assert(self@.subrange(i as int, self@.len() as int) =~= before.subrange(
                        i - 1,
                        before.len() as int,
                    ).drop_first());
                    assert(orig.subrange(k, orig.len() as int).drop_first() =~= orig.subrange(
                        k + 1,
                        orig.len() as int,
                    ));
                }
            }
            proof {
                k = k + 1;
            }
        }
        proof {
            assert(orig.subrange(0, k) =~= orig);
            assert(self@.subrange(0, i as int) =~= self@);
        }
    }
}

} // verus!
