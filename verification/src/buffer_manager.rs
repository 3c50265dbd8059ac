//! The buffer manager: a fixed-size pool of pinned pages.
//!
//! The [`BufferManager`] caches disk blocks in a pool of [`Buffer`]s
//! allocated once at construction. `pin` hands out the buffer already
//! holding a block, or repurposes the first unpinned slot found by a
//! linear scan (flushing its unflushed state first); when every slot is
//! pinned it fails with a timeout error and leaves the pool exactly as if
//! the call had not been made. `flush_all` forces one transaction's
//! modifications durable, each in write-ahead order.

use vstd::prelude::*;

use crate::block_id::{BlockId, BlockIdView};
use crate::buffer::Buffer;
use crate::file_manager::{lemma_file_len_bound, spec_file, FileManager};
use crate::log_manager::LogManager;

verus! {

/// Errors from buffer-pool operations.
#[derive(Debug, PartialEq, Eq, Structural)]
pub enum BufferError {
    /// No buffer could be pinned before the caller's patience ran out:
    /// every slot stayed pinned (or the block does not exist). The pool is
    /// unchanged; the caller may retry or give up.
    Timeout,
}

/// The number of unpinned buffers in `pool`.
pub open spec fn count_unpinned(pool: Seq<Buffer>) -> int
    decreases pool.len(),
{
    if pool.len() == 0 {
        0
    } else {
        count_unpinned(pool.drop_last()) + if pool.last().spec_pins() == 0 {
            1int
        } else {
            0int
        }
    }
}

/// There are never more unpinned buffers than buffers.
pub proof fn lemma_count_unpinned_le(pool: Seq<Buffer>)
    ensures
        0 <= count_unpinned(pool) <= pool.len(),
    decreases pool.len(),
{
    if pool.len() > 0 {
        lemma_count_unpinned_le(pool.drop_last());
    }
}

/// How the unpinned count changes when one buffer is replaced.
pub proof fn lemma_count_unpinned_update(pool: Seq<Buffer>, i: int, b: Buffer)
    requires
        0 <= i < pool.len(),
    ensures
        count_unpinned(pool.update(i, b)) == count_unpinned(pool) - (if pool[i].spec_pins() == 0 {
            1int
        } else {
            0int
        }) + (if b.spec_pins() == 0 {
            1int
        } else {
            0int
        }),
    decreases pool.len(),
{
    let pu = pool.update(i, b);
    if i == pool.len() - 1 {
        assert(pu.drop_last() =~= pool.drop_last());
        assert(pu.last() == b);
    } else {
        assert(pu.drop_last() =~= pool.drop_last().update(i, b));
        assert(pu.last() == pool.last());
        lemma_count_unpinned_update(pool.drop_last(), i, b);
    }
}

/// A pool with an unpinned buffer has a positive unpinned count.
pub proof fn lemma_count_unpinned_pos(pool: Seq<Buffer>, i: int)
    requires
        0 <= i < pool.len(),
        pool[i].spec_pins() == 0,
    ensures
        count_unpinned(pool) > 0,
    decreases pool.len(),
{
    lemma_count_unpinned_le(pool.drop_last());
    if i < pool.len() - 1 {
        lemma_count_unpinned_pos(pool.drop_last(), i);
    }
}

/// A pool whose buffers are all pinned has no unpinned buffer to count.
pub proof fn lemma_count_unpinned_zero(pool: Seq<Buffer>)
    requires
        forall|j: int| 0 <= j < pool.len() ==> (#[trigger] pool[j]).spec_pins() > 0,
    ensures
        count_unpinned(pool) == 0,
    decreases pool.len(),
{
    if pool.len() > 0 {
        lemma_count_unpinned_zero(pool.drop_last());
    }
}

/// A pool with a pinned buffer has fewer unpinned buffers than slots.
pub proof fn lemma_count_unpinned_lt(pool: Seq<Buffer>, i: int)
    requires
        0 <= i < pool.len(),
        pool[i].spec_pins() > 0,
    ensures
        count_unpinned(pool) < pool.len(),
    decreases pool.len(),
{
    if i == pool.len() - 1 {
        lemma_count_unpinned_le(pool.drop_last());
    } else {
        lemma_count_unpinned_lt(pool.drop_last(), i);
    }
}

/// Law: the free-slot count is exhausted exactly when every buffer is
/// pinned — so once a pool of size N holds N pins, `available` reads 0
/// and a further `pin` of a non-resident block can only fail, while
/// releasing any one pin makes a slot free again.
pub proof fn lemma_available_exhausted(bm: &BufferManager, fm: &FileManager, lm: &LogManager)
    requires
        bm.inv(fm, lm),
    ensures
        (bm.spec_available() == 0) <==> (forall|j: int|
            0 <= j < bm.spec_pool().len() ==> (#[trigger] bm.spec_pool()[j]).spec_pins() > 0),
{
    if forall|j: int| 0 <= j < bm.spec_pool().len() ==> (#[trigger] bm.spec_pool()[j]).spec_pins()
        > 0 {
        lemma_count_unpinned_zero(bm.spec_pool());
    }
    if bm.spec_available() == 0 {
        assert forall|j: int| 0 <= j < bm.spec_pool().len() implies (#[trigger] bm.spec_pool()[
        j]).spec_pins() > 0 by {
            if bm.spec_pool()[j].spec_pins() == 0 {
                lemma_count_unpinned_pos(bm.spec_pool(), j);
            }
        }
    }
}

/// Manages a fixed-size pool of buffers, pinning disk blocks into memory
/// on demand.
pub struct BufferManager {
    pool: Vec<Buffer>,
    available: usize,
}

impl BufferManager {
    /// The pool's slots.
    pub closed spec fn spec_pool(&self) -> Seq<Buffer> {
        self.pool@
    }

    /// The recorded count of unpinned slots.
    pub closed spec fn spec_available(&self) -> usize {
        self.available
    }

    /// Consistency of the pool with the store `fm` and the log manager
    /// `lm`: the free count matches the buffers, every page has block
    /// size, every dirty buffer is bound, every bound block exists in the
    /// store and is a data block (never the log file's), and no two
    /// buffers hold the same block.
    pub open spec fn inv(&self, fm: &FileManager, lm: &LogManager) -> bool {
        let pool = self.spec_pool();
        &&& self.spec_available() == count_unpinned(pool)
        &&& forall|i: int|
            0 <= i < pool.len() ==> (#[trigger] pool[i].spec_page()).len()
                == fm.spec_block_size()
        &&& forall|i: int| 0 <= i < pool.len() && pool[i].is_dirty() ==> pool[i].spec_block() is Some
        &&& forall|i: int|
            0 <= i < pool.len() ==> ((#[trigger] pool[i].spec_block()) matches Some(b) ==> b.path
                != lm.spec_log_file() && b.block_no < spec_file(fm@, b.path).len())
        &&& forall|i: int, j: int|
            0 <= i < j < pool.len() && (#[trigger] pool[i].spec_block()) is Some ==> pool[i].spec_block()
                != #[trigger] pool[j].spec_block()
    }

    /// Creates a pool of `num_buffers` empty buffer slots, sized for the
    /// store `fm`; all slots start unpinned.
    pub fn new(fm: &FileManager, lm: &LogManager, num_buffers: usize) -> (bm: Self)
        ensures
            bm.inv(fm, lm),
            bm.spec_pool().len() == num_buffers,
            bm.spec_available() == num_buffers,
            forall|i: int|
                0 <= i < num_buffers ==> (#[trigger] bm.spec_pool()[i]).spec_block() is None
                    && bm.spec_pool()[i].spec_pins() == 0 && bm.spec_pool()[i].spec_txnum() == -1,
    {
        let block_size = fm.block_size();
        let mut pool: Vec<Buffer> = Vec::new();
        let mut i: usize = 0;
        while i < num_buffers
            invariant
                0 <= i <= num_buffers,
                block_size == fm.spec_block_size(),
                pool@.len() == i,
                count_unpinned(pool@) == i,
                forall|j: int|
                    0 <= j < i ==> (#[trigger] pool@[j]).spec_block() is None && pool@[
                    j].spec_pins() == 0 && pool@[j].spec_txnum() == -1 && pool@[
                    j].spec_page().len() == fm.spec_block_size(),
            decreases num_buffers - i,
        {
            let b = Buffer::new(block_size);
            let ghost pool_before = pool@;
            let ghost pushed = b;
            pool.push(b);
            proof {
                assert(pool@.drop_last() =~= pool_before);
                assert forall|j: int|
                    0 <= j < i + 1 implies (#[trigger] pool@[j]).spec_block() is None && pool@[
                j].spec_pins() == 0 && pool@[j].spec_txnum() == -1 && pool@[j].spec_page().len()
                    == fm.spec_block_size() by {
                    if j < i {
                        assert(pool@[j] == pool_before[j]);
                        assert(pool_before[j].spec_block() is None);
                    } else {
                        assert(pool@[j] == pushed);
                        assert(pushed.spec_block() is None);
                        assert(pushed.spec_pins() == 0);
                        assert(pushed.spec_txnum() == -1);
                        assert(pushed.spec_page().len() == fm.spec_block_size());
                    }
                }
            }
            i = i + 1;
        }
        Self { pool, available: num_buffers }
    }

    /// Returns the number of unpinned buffer slots.
    pub fn available(&self) -> (n: usize)
        ensures
            n == self.spec_available(),
    {
        self.available
    }

    /// Returns buffer `idx` of the pool, for reading its page or state.
    pub fn buffer(&self, idx: usize) -> (b: &Buffer)
        requires
            idx < self.spec_pool().len(),
        ensures
            *b == self.spec_pool()[idx as int],
    {
        &self.pool[idx]
    }

    /// Returns buffer `idx` of the pool for modification, most usefully
    /// `set_modified`. The pool's bookkeeping is stated over the final
    /// value of the borrow; a caller that changes the pin count or the
    /// binding itself takes responsibility for `inv`.
    pub fn buffer_mut(&mut self, idx: usize) -> (b: &mut Buffer)
        requires
            idx < old(self).spec_pool().len(),
        ensures
            *b == old(self).spec_pool()[idx as int],
            final (self).spec_pool() == old(self).spec_pool().update(idx as int, *final (b)),
            final (self).spec_available() == old(self).spec_available(),
    {
        &mut self.pool[idx]
    }

    /// Finds the buffer already bound to `block`, scanning the pool in
    /// order.
    fn find_existing_buffer(&self, block: &BlockId) -> (r: Option<usize>)
        ensures
            match r {
                Some(i) => i < self.spec_pool().len() && self.spec_pool()[i as int].spec_block()
                    == Some(block@) && forall|j: int|
                    0 <= j < i ==> (#[trigger] self.spec_pool()[j]).spec_block() != Some(block@),
                None => forall|j: int|
                    0 <= j < self.spec_pool().len() ==> (#[trigger] self.spec_pool()[
                    j]).spec_block() != Some(block@),
            },
    {
        let n = self.pool.len();
        let mut i: usize = 0;
        while i < n
            invariant
                0 <= i <= n,
                n == self.spec_pool().len(),
                forall|j: int|
                    0 <= j < i ==> (#[trigger] self.spec_pool()[j]).spec_block() != Some(block@),
            decreases n - i,
        {
            match self.pool[i].block_id() {
                Some(b) => {
                    if *b == *block {
                        return Some(i);
                    }
                },
                None => {},
            }
            i = i + 1;
        }
        None
    }

    /// Finds the first unpinned buffer, scanning the pool in order — the
    /// deliberate eviction policy of this pool.
    fn choose_unpinned_buffer(&self) -> (r: Option<usize>)
        ensures
            match r {
                Some(i) => i < self.spec_pool().len() && self.spec_pool()[i as int].spec_pins()
                    == 0 && forall|j: int|
                    0 <= j < i ==> (#[trigger] self.spec_pool()[j]).spec_pins() > 0,
                None => forall|j: int|
                    0 <= j < self.spec_pool().len() ==> (#[trigger] self.spec_pool()[j]).spec_pins()
                        > 0,
            },
    {
        let n = self.pool.len();
        let mut i: usize = 0;
        while i < n
            invariant
                0 <= i <= n,
                n == self.spec_pool().len(),
                forall|j: int| 0 <= j < i ==> (#[trigger] self.spec_pool()[j]).spec_pins() > 0,
            decreases n - i,
        {
            if !self.pool[i].is_pinned() {
                return Some(i);
            }
            i = i + 1;
        }
        None
    }

    /// One attempt to pin `block`: the buffer already holding it, else the
    /// first unpinned buffer (evicted via `assign_to_block`), else nothing.
    fn try_to_pin(&mut self, fm: &mut FileManager, lm: &mut LogManager, block: &BlockId) -> (r:
        Option<usize>)
        requires
            old(self).inv(old(fm), old(lm)),
            old(lm).inv(old(fm)),
            block@.path != old(lm).spec_log_file(),
            forall|j: int|
                0 <= j < old(self).spec_pool().len() ==> (#[trigger] old(self).spec_pool()[
                j]).spec_pins() < usize::MAX,
        ensures
            final (self).inv(final (fm), final (lm)),
            final (lm).inv(final (fm)),
            final (self).spec_pool().len() == old(self).spec_pool().len(),
            final (fm).spec_block_size() == old(fm).spec_block_size(),
            final (lm).spec_log_file() == old(lm).spec_log_file(),
            final (lm).spec_latest_lsn() == old(lm).spec_latest_lsn(),
            final (lm).spec_latest_saved_lsn() >= old(lm).spec_latest_saved_lsn(),
            final (lm).memory_records(final (fm)) == old(lm).memory_records(old(fm)),
            forall|p: Seq<char>|
                spec_file(final (fm)@, p).len() == spec_file(old(fm)@, p).len(),
            match r {
                Some(idx) => {
                    let pool = old(self).spec_pool();
                    &&& 0 <= idx < pool.len()
                    &&& final (self).spec_pool()[idx as int].spec_block() == Some(block@)
                    &&& final (self).spec_pool()[idx as int].spec_pins() >= 1
                    &&& forall|j: int|
                        0 <= j < pool.len() && j != idx ==> final (self).spec_pool()[j] == pool[j]
                    &&& if exists|j: int|
                        0 <= j < pool.len() && (#[trigger] pool[j].spec_block()) == Some(block@) {
                        // The block was resident: nothing is evicted, only
                        // that buffer's pin count grows.
                        &&& pool[idx as int].spec_block() == Some(block@)
                        &&& forall|j: int|
                            0 <= j < idx ==> (#[trigger] pool[j].spec_block()) != Some(block@)
                        &&& final (self).spec_pool()[idx as int].spec_pins() == pool[
                            idx as int
                        ].spec_pins() + 1
                        &&& final (self).spec_pool()[idx as int].spec_page() == pool[
                            idx as int
                        ].spec_page()
                        &&& final (self).spec_pool()[idx as int].spec_txnum() == pool[
                            idx as int
                        ].spec_txnum()
                        &&& final (self).spec_pool()[idx as int].spec_lsn() == pool[
                            idx as int
                        ].spec_lsn()
                        &&& final (self).spec_available() == old(self).spec_available() - (if pool[
                            idx as int
                        ].spec_pins() == 0 {
                            1int
                        } else {
                            0int
                        })
                        &&& final (fm)@ == old(fm)@
                        &&& *final (lm) == *old(lm)
                    } else {
                        // A miss: the first unpinned slot is repurposed,
                        // its old content flushed first, never lost.
                        &&& pool[idx as int].spec_pins() == 0
                        &&& forall|j: int|
                            0 <= j < idx ==> (#[trigger] pool[j].spec_pins()) > 0
                        &&& block@.block_no < spec_file(old(fm)@, block@.path).len()
                        &&& final (self).spec_pool()[idx as int].spec_pins() == 1
                        &&& final (self).spec_pool()[idx as int].spec_page() == spec_file(
                            final (fm)@,
                            block@.path,
                        )[block@.block_no as int]
                        &&& final (self).spec_pool()[idx as int].spec_txnum() == pool[
                            idx as int
                        ].spec_txnum()
                        &&& final (self).spec_pool()[idx as int].spec_lsn() == pool[
                            idx as int
                        ].spec_lsn()
                        &&& final (self).spec_available() == old(self).spec_available() - 1
                        &&& (pool[idx as int].is_dirty() ==> (pool[idx as int].spec_block() matches
                            Some(b) && spec_file(final (fm)@, b.path)[b.block_no as int] == pool[
                            idx as int
                        ].spec_page()))
                        &&& forall|p: Seq<char>, k: int|
                            p != old(lm).spec_log_file() && 0 <= k < spec_file(old(fm)@, p).len()
                                && !(pool[idx as int].is_dirty() && (pool[
                                idx as int
                            ].spec_block() matches Some(b) && p == b.path && k == b.block_no))
                                ==> spec_file(final (fm)@, p)[k] == spec_file(old(fm)@, p)[k]
                    }
                },
                None => {
                    let pool = old(self).spec_pool();
                    &&& *final (self) == *old(self)
                    &&& final (fm)@ == old(fm)@
                    &&& *final (lm) == *old(lm)
                    &&& forall|j: int|
                        0 <= j < pool.len() ==> (#[trigger] pool[j].spec_block()) != Some(block@)
                    &&& ((forall|j: int|
                        0 <= j < pool.len() ==> (#[trigger] pool[j].spec_pins()) > 0) || block@.block_no
                        >= spec_file(old(fm)@, block@.path).len())
                },
            },
    {
        let ghost pool_before = self.pool@;
        match self.find_existing_buffer(block) {
            Some(i) => {
                let was_pinned = self.pool[i].is_pinned();
                if !was_pinned {
                    proof {
                        lemma_count_unpinned_pos(pool_before, i as int);
                    }
                    self.available = self.available - 1;
                }
                self.pool[i].pin();
                proof {
                    assert(self.pool@ =~= pool_before.update(i as int, self.pool@[i as int]));
                    lemma_count_unpinned_update(pool_before, i as int, self.pool@[i as int]);
                }
                Some(i)
            },
            None => {
                match self.choose_unpinned_buffer() {
                    Some(i) => {
                        let sz = fm.size(block.path());
                        if block.block_no() < sz {
                            proof {
                                lemma_count_unpinned_pos(pool_before, i as int);
                            }
                            self.pool[i].assign_to_block(fm, lm, block);
                            self.available = self.available - 1;
                            self.pool[i].pin();
                            proof {
                                assert(self.pool@ =~= pool_before.update(
                                    i as int,
                                    self.pool@[i as int],
                                ));
                                lemma_count_unpinned_update(
                                    pool_before,
                                    i as int,
                                    self.pool@[i as int],
                                );
                                lemma_count_unpinned_pos(pool_before, i as int);
                            }
                            Some(i)
                        } else {
                            None
                        }
                    },
                    None => None,
                }
            },
        }
    }

    /// Pins `block` into a buffer of the pool and returns that buffer's
    /// index, with its pin count raised by one and its page holding the
    /// block's bytes.
    ///
    /// A block already resident is pinned where it is, evicting nothing; a
    /// miss repurposes the first unpinned slot, flushing that slot's
    /// unflushed state first. When every slot is pinned (or the block does
    /// not exist in the store) the call fails with `Timeout` and the pool,
    /// the store and the log are exactly as if the call had not been made.
    pub fn pin(&mut self, fm: &mut FileManager, lm: &mut LogManager, block: &BlockId) -> (r: Result<
        usize,
        BufferError,
    >)
        requires
            old(self).inv(old(fm), old(lm)),
            old(lm).inv(old(fm)),
            block@.path != old(lm).spec_log_file(),
            forall|j: int|
                0 <= j < old(self).spec_pool().len() ==> (#[trigger] old(self).spec_pool()[
                j]).spec_pins() < usize::MAX,
        ensures
            final (self).inv(final (fm), final (lm)),
            final (lm).inv(final (fm)),
            final (self).spec_pool().len() == old(self).spec_pool().len(),
            final (fm).spec_block_size() == old(fm).spec_block_size(),
            final (lm).spec_log_file() == old(lm).spec_log_file(),
            final (lm).spec_latest_lsn() == old(lm).spec_latest_lsn(),
            final (lm).spec_latest_saved_lsn() >= old(lm).spec_latest_saved_lsn(),
            final (lm).memory_records(final (fm)) == old(lm).memory_records(old(fm)),
            forall|p: Seq<char>|
                spec_file(final (fm)@, p).len() == spec_file(old(fm)@, p).len(),
            match r {
                Ok(idx) => {
                    let pool = old(self).spec_pool();
                    &&& 0 <= idx < pool.len()
                    &&& final (self).spec_pool()[idx as int].spec_block() == Some(block@)
                    &&& final (self).spec_pool()[idx as int].spec_pins() >= 1
                    &&& forall|j: int|
                        0 <= j < pool.len() && j != idx ==> final (self).spec_pool()[j] == pool[j]
                    &&& if exists|j: int|
                        0 <= j < pool.len() && (#[trigger] pool[j].spec_block()) == Some(block@) {
                        &&& pool[idx as int].spec_block() == Some(block@)
                        &&& forall|j: int|
                            0 <= j < idx ==> (#[trigger] pool[j].spec_block()) != Some(block@)
                        &&& final (self).spec_pool()[idx as int].spec_pins() == pool[
                            idx as int
                        ].spec_pins() + 1
                        &&& final (self).spec_pool()[idx as int].spec_page() == pool[
                            idx as int
                        ].spec_page()
                        &&& final (self).spec_pool()[idx as int].spec_txnum() == pool[
                            idx as int
                        ].spec_txnum()
                        &&& final (self).spec_pool()[idx as int].spec_lsn() == pool[
                            idx as int
                        ].spec_lsn()
                        &&& final (self).spec_available() == old(self).spec_available() - (if pool[
                            idx as int
                        ].spec_pins() == 0 {
                            1int
                        } else {
                            0int
                        })
                        &&& final (fm)@ == old(fm)@
                        &&& *final (lm) == *old(lm)
                    } else {
                        &&& pool[idx as int].spec_pins() == 0
                        &&& forall|j: int|
                            0 <= j < idx ==> (#[trigger] pool[j].spec_pins()) > 0
                        &&& block@.block_no < spec_file(old(fm)@, block@.path).len()
                        &&& final (self).spec_pool()[idx as int].spec_pins() == 1
                        &&& final (self).spec_pool()[idx as int].spec_page() == spec_file(
                            final (fm)@,
                            block@.path,
                        )[block@.block_no as int]
                        &&& final (self).spec_pool()[idx as int].spec_txnum() == pool[
                            idx as int
                        ].spec_txnum()
                        &&& final (self).spec_pool()[idx as int].spec_lsn() == pool[
                            idx as int
                        ].spec_lsn()
                        &&& final (self).spec_available() == old(self).spec_available() - 1
                        &&& (pool[idx as int].is_dirty() ==> (pool[idx as int].spec_block() matches
                            Some(b) && spec_file(final (fm)@, b.path)[b.block_no as int] == pool[
                            idx as int
                        ].spec_page()))
                        &&& forall|p: Seq<char>, k: int|
                            p != old(lm).spec_log_file() && 0 <= k < spec_file(old(fm)@, p).len()
                                && !(pool[idx as int].is_dirty() && (pool[
                                idx as int
                            ].spec_block() matches Some(b) && p == b.path && k == b.block_no))
                                ==> spec_file(final (fm)@, p)[k] == spec_file(old(fm)@, p)[k]
                    }
                },
                Err(e) => {
                    let pool = old(self).spec_pool();
                    &&& e == BufferError::Timeout
                    &&& *final (self) == *old(self)
                    &&& final (fm)@ == old(fm)@
                    &&& *final (lm) == *old(lm)
                    &&& forall|j: int|
                        0 <= j < pool.len() ==> (#[trigger] pool[j].spec_block()) != Some(block@)
                    &&& ((forall|j: int|
                        0 <= j < pool.len() ==> (#[trigger] pool[j].spec_pins()) > 0) || block@.block_no
                        >= spec_file(old(fm)@, block@.path).len())
                },
            },
    {
        match self.try_to_pin(fm, lm, block) {
            Some(idx) => Ok(idx),
            None => Err(BufferError::Timeout),
        }
    }

    /// Flushes every buffer modified by transaction `txn` — the mechanism
    /// a commit uses to force its writes durable. Each flushed buffer's
    /// log record is made durable before its page is written (the
    /// write-ahead rule), buffers of other transactions are left alone,
    /// and no pool bookkeeping changes.
    pub fn flush_all(&mut self, fm: &mut FileManager, lm: &mut LogManager, txn: i32)
        requires
            old(self).inv(old(fm), old(lm)),
            old(lm).inv(old(fm)),
        ensures
            final (self).inv(final (fm), final (lm)),
            final (lm).inv(final (fm)),
            final (self).spec_pool() == old(self).spec_pool(),
            final (self).spec_available() == old(self).spec_available(),
            final (fm).spec_block_size() == old(fm).spec_block_size(),
            final (lm).spec_log_file() == old(lm).spec_log_file(),
            final (lm).spec_latest_lsn() == old(lm).spec_latest_lsn(),
            final (lm).spec_latest_saved_lsn() >= old(lm).spec_latest_saved_lsn(),
            final (lm).memory_records(final (fm)) == old(lm).memory_records(old(fm)),
            forall|p: Seq<char>|
                spec_file(final (fm)@, p).len() == spec_file(old(fm)@, p).len(),
            forall|i: int|
                0 <= i < old(self).spec_pool().len() && (#[trigger] old(self).spec_pool()[
                i]).spec_txnum() == txn && old(self).spec_pool()[i].is_dirty() ==> (old(
                    self,
                ).spec_pool()[i].spec_block() matches Some(b) && spec_file(final (fm)@, b.path)[
                b.block_no as int] == old(self).spec_pool()[i].spec_page()),
            forall|i: int|
                0 <= i < old(self).spec_pool().len() && (#[trigger] old(self).spec_pool()[
                i]).spec_txnum() == txn && old(self).spec_pool()[i].is_dirty() && 0 <= old(
                    self,
                ).spec_pool()[i].spec_lsn() as int <= old(lm).spec_latest_lsn() as int ==> final (
                lm).spec_latest_saved_lsn() as int >= old(self).spec_pool()[i].spec_lsn() as int,
            forall|p: Seq<char>, k: int|
                p != old(lm).spec_log_file() && 0 <= k < spec_file(old(fm)@, p).len() && !(exists|
                    i: int,
                |
                    0 <= i < old(self).spec_pool().len() && (#[trigger] old(self).spec_pool()[
                    i]).spec_txnum() == txn && old(self).spec_pool()[i].is_dirty() && (old(
                        self,
                    ).spec_pool()[i].spec_block() matches Some(b) && p == b.path && k
                        == b.block_no)) ==> spec_file(final (fm)@, p)[k] == spec_file(
                    old(fm)@,
                    p,
                )[k],
    {
        let n = self.pool.len();
        let mut i: usize = 0;
        while i < n
            invariant
                0 <= i <= n,
                n == self.spec_pool().len(),
                self.spec_pool() == old(self).spec_pool(),
                self.spec_available() == old(self).spec_available(),
                self.inv(fm, lm),
                lm.inv(fm),
                fm.spec_block_size() == old(fm).spec_block_size(),
                lm.spec_log_file() == old(lm).spec_log_file(),
                lm.spec_latest_lsn() == old(lm).spec_latest_lsn(),
                lm.spec_latest_saved_lsn() >= old(lm).spec_latest_saved_lsn(),
                lm.memory_records(fm) == old(lm).memory_records(old(fm)),
                forall|p: Seq<char>| spec_file(fm@, p).len() == spec_file(old(fm)@, p).len(),
                forall|j: int|
                    0 <= j < i && (#[trigger] old(self).spec_pool()[j]).spec_txnum() == txn && old(
                        self,
                    ).spec_pool()[j].is_dirty() ==> (old(self).spec_pool()[j].spec_block() matches
                    Some(b) && spec_file(fm@, b.path)[b.block_no as int] == old(self).spec_pool()[
                    j].spec_page()),
                forall|j: int|
                    0 <= j < i && (#[trigger] old(self).spec_pool()[j]).spec_txnum() == txn && old(
                        self,
                    ).spec_pool()[j].is_dirty() && 0 <= old(self).spec_pool()[j].spec_lsn() as int
                        <= old(lm).spec_latest_lsn() as int ==> lm.spec_latest_saved_lsn() as int
                        >= old(self).spec_pool()[j].spec_lsn() as int,
                forall|p: Seq<char>, k: int|
                    p != old(lm).spec_log_file() && 0 <= k < spec_file(old(fm)@, p).len() && !(
                    exists|j: int|
                        0 <= j < i && (#[trigger] old(self).spec_pool()[j]).spec_txnum() == txn
                            && old(self).spec_pool()[j].is_dirty() && (old(self).spec_pool()[
                        j].spec_block() matches Some(b) && p == b.path && k == b.block_no)) ==> spec_file(
                        fm@,
                        p,
                    )[k] == spec_file(old(fm)@, p)[k],
            decreases n - i,
        {
            let ghost pool_snap = self.spec_pool();
            if self.pool[i].modifying_txn() == txn {
                self.pool[i].flush(fm, lm);
            }
            proof {
                assert(self.pool@ =~= pool_snap);
            }
            i = i + 1;
        }
    }

    /// Releases one pin on buffer `idx`; when its pin count reaches zero
    /// the slot becomes free and the free count grows by one.
    pub fn unpin(&mut self, idx: usize)
        requires
            idx < old(self).spec_pool().len(),
            old(self).spec_available() == count_unpinned(old(self).spec_pool()),
        ensures
            ({
                let pool = old(self).spec_pool();
                let b = pool[idx as int];
                &&& final (self).spec_pool().len() == pool.len()
                &&& final (self).spec_pool()[idx as int].spec_pins() == (if b.spec_pins() > 0 {
                    b.spec_pins() - 1
                } else {
                    0
                })
                &&& final (self).spec_pool()[idx as int].spec_page() == b.spec_page()
                &&& final (self).spec_pool()[idx as int].spec_block() == b.spec_block()
                &&& final (self).spec_pool()[idx as int].spec_txnum() == b.spec_txnum()
                &&& final (self).spec_pool()[idx as int].spec_lsn() == b.spec_lsn()
                &&& forall|j: int|
                    0 <= j < pool.len() && j != idx ==> final (self).spec_pool()[j] == pool[j]
                &&& final (self).spec_available() == old(self).spec_available() + (if b.spec_pins()
                    == 1 {
                    1int
                } else {
                    0int
                })
                &&& final (self).spec_available() == count_unpinned(final (self).spec_pool())
            }),
    {
        let ghost pool_before = self.pool@;
        let was_pinned = self.pool[idx].is_pinned();
        self.pool[idx].unpin();
        proof {
            lemma_count_unpinned_update(pool_before, idx as int, self.pool@[idx as int]);
        }
        if was_pinned && !self.pool[idx].is_pinned() {
            let n = self.pool.len();
            proof {
                lemma_count_unpinned_lt(pool_before, idx as int);
            }
            self.available = self.available + 1;
        }
        proof {
            assert(self.pool@ =~= pool_before.update(idx as int, self.pool@[idx as int]));
        }
    }
}

} // verus!
