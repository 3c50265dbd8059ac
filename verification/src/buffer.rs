//! One buffer-pool slot: a page of main memory holding a disk block.
//!
//! A [`Buffer`] carries the page, the identity of the block it holds (if
//! any), a pin count, the transaction that last modified it (−1 for none)
//! and the LSN of the log record describing that modification (−1 for
//! none). Its `flush` enforces the write-ahead rule: the log is made
//! durable up to the buffer's LSN before the page itself is written.

use vstd::prelude::*;

use crate::block_id::{BlockId, BlockIdView};
use crate::file_manager::{lemma_file_len_bound, spec_file, FileManager};
use crate::log_manager::LogManager;
use crate::page::Page;

verus! {

/// A block of main memory that can hold the contents of a disk block.
pub struct Buffer {
    page: Page,
    block_id: Option<BlockId>,
    pins: usize,
    txnum: i32,
    lsn: i32,
}

impl Buffer {
    /// The bytes of the held page.
    pub closed spec fn spec_page(&self) -> Seq<u8> {
        self.page@
    }

    /// The identity of the held block, if one is assigned.
    pub closed spec fn spec_block(&self) -> Option<BlockIdView> {
        match self.block_id {
            Some(b) => Some(b@),
            None => None,
        }
    }

    /// The number of outstanding pins.
    pub closed spec fn spec_pins(&self) -> usize {
        self.pins
    }

    /// The transaction that last modified the buffer; −1 for none.
    pub closed spec fn spec_txnum(&self) -> i32 {
        self.txnum
    }

    /// The LSN of the most recent modification's log record; −1 for none.
    pub closed spec fn spec_lsn(&self) -> i32 {
        self.lsn
    }

    /// True when the buffer carries an unflushed modification.
    pub open spec fn is_dirty(&self) -> bool {
        self.spec_txnum() >= 0
    }

    /// Creates an empty, unpinned, clean buffer slot with a zeroed page of
    /// `block_size` bytes.
    pub fn new(block_size: usize) -> (b: Self)
        ensures
            b.spec_page().len() == block_size,
            b.spec_block() is None,
            b.spec_pins() == 0,
            b.spec_txnum() == -1,
            b.spec_lsn() == -1,
    {
        Self {
            page: Page::with_size(block_size),
            block_id: None,
            pins: 0,
            txnum: -1,
            lsn: -1,
        }
    }

    /// Returns the buffer's page.
    pub fn contents(&self) -> (p: &Page)
        ensures
            p@ == self.spec_page(),
    {
        &self.page
    }

    /// Returns the identifier of the held block, if any.
    pub fn block_id(&self) -> (r: Option<&BlockId>)
        ensures
            match r {
                Some(b) => self.spec_block() == Some(b@),
                None => self.spec_block() is None,
            },
    {
        self.block_id.as_ref()
    }

    /// Records the modifying transaction, and the LSN of its log record
    /// when one is supplied (a non-negative `lsn`).
    pub fn set_modified(&mut self, txnum: i32, lsn: i32)
        ensures
            final (self).spec_txnum() == txnum,
            final (self).spec_lsn() == if lsn >= 0 {
                lsn
            } else {
                old(self).spec_lsn()
            },
            final (self).spec_page() == old(self).spec_page(),
            final (self).spec_block() == old(self).spec_block(),
            final (self).spec_pins() == old(self).spec_pins(),
    {
        self.txnum = txnum;
        if lsn >= 0 {
            self.lsn = lsn;
        }
    }

    /// True when at least one client holds a pin on this buffer.
    pub fn is_pinned(&self) -> (r: bool)
        ensures
            r == (self.spec_pins() > 0),
    {
        self.pins > 0
    }

    /// The transaction that last modified the buffer; −1 for none.
    pub fn modifying_txn(&self) -> (t: i32)
        ensures
            t == self.spec_txnum(),
    {
        self.txnum
    }

    /// Takes one more pin on the buffer.
    pub fn pin(&mut self)
        requires
            old(self).spec_pins() < usize::MAX,
        ensures
            final (self).spec_pins() == old(self).spec_pins() + 1,
            final (self).spec_page() == old(self).spec_page(),
            final (self).spec_block() == old(self).spec_block(),
            final (self).spec_txnum() == old(self).spec_txnum(),
            final (self).spec_lsn() == old(self).spec_lsn(),
    {
        self.pins = self.pins + 1;
    }

    /// Releases one pin; a no-op at zero pins (the count never goes
    /// negative).
    pub fn unpin(&mut self)
        ensures
            final (self).spec_pins() == if old(self).spec_pins() > 0 {
                old(self).spec_pins() - 1
            } else {
                0
            },
            final (self).spec_page() == old(self).spec_page(),
            final (self).spec_block() == old(self).spec_block(),
            final (self).spec_txnum() == old(self).spec_txnum(),
            final (self).spec_lsn() == old(self).spec_lsn(),
    {
        if self.pins > 0 {
            self.pins = self.pins - 1;
        }
    }

    /// Repurposes the buffer for `block`: any unflushed state is flushed
    /// first (never lost), the buffer is rebound, the block's bytes are
    /// loaded from the store, and the pin count is reset to 0. The caller
    /// must ensure no pins are outstanding.
    pub(crate) fn assign_to_block(&mut self, fm: &mut FileManager, lm: &mut LogManager, block: &BlockId)
        requires
            old(lm).inv(old(fm)),
            old(self).spec_page().len() == old(fm).spec_block_size(),
            old(self).is_dirty() ==> old(self).spec_block() is Some,
            old(self).spec_block() matches Some(b) ==> b.path != old(lm).spec_log_file()
                && b.block_no < spec_file(old(fm)@, b.path).len(),
            block@.path != old(lm).spec_log_file(),
            block@.block_no < spec_file(old(fm)@, block@.path).len(),
        ensures
            final (self).spec_block() == Some(block@),
            final (self).spec_pins() == 0,
            final (self).spec_txnum() == old(self).spec_txnum(),
            final (self).spec_lsn() == old(self).spec_lsn(),
            final (self).spec_page() == spec_file(final (fm)@, block@.path)[block@.block_no as int],
            final (self).spec_page().len() == old(fm).spec_block_size(),
            final (lm).inv(final (fm)),
            final (fm).spec_block_size() == old(fm).spec_block_size(),
            final (lm).spec_log_file() == old(lm).spec_log_file(),
            final (lm).spec_latest_lsn() == old(lm).spec_latest_lsn(),
            final (lm).spec_latest_saved_lsn() >= old(lm).spec_latest_saved_lsn(),
            final (lm).memory_records(final (fm)) == old(lm).memory_records(old(fm)),
            forall|p: Seq<char>|
                spec_file(final (fm)@, p).len() == spec_file(old(fm)@, p).len(),
            forall|p: Seq<char>, k: int|
                p != old(lm).spec_log_file() && 0 <= k < spec_file(old(fm)@, p).len() && !(
                old(self).is_dirty() && (old(self).spec_block() matches Some(b) && p == b.path && k
                    == b.block_no)) ==> spec_file(final (fm)@, p)[k] == spec_file(old(fm)@, p)[k],
            old(self).is_dirty() ==> (old(self).spec_block() matches Some(b) && spec_file(
                final (fm)@,
                b.path,
            )[b.block_no as int] == old(self).spec_page()),
            old(self).is_dirty() && 0 <= old(self).spec_lsn() as int <= old(
                lm,
            ).spec_latest_lsn() as int ==> final (lm).spec_latest_saved_lsn() as int >= old(
                self,
            ).spec_lsn() as int,
            !old(self).is_dirty() ==> final (fm)@ == old(fm)@ && *final (lm) == *old(lm),
    {
        self.flush(fm, lm);
        self.block_id = Some(block.clone());
        let read_result = fm.read(block, &mut self.page);
        proof {
            assert(read_result is Ok);
        }
        self.pins = 0;
    }

    /// Writes the buffer's unflushed modification, if any, to the store —
    /// in write-ahead order: the log is flushed up to the buffer's LSN
    /// strictly before the data page is written. A clean buffer (no
    /// modifying transaction) is left alone, as is the whole store.
    pub fn flush(&mut self, fm: &mut FileManager, lm: &mut LogManager)
        requires
            old(lm).inv(old(fm)),
            old(self).spec_page().len() == old(fm).spec_block_size(),
            old(self).is_dirty() ==> old(self).spec_block() is Some,
            old(self).spec_block() matches Some(b) ==> b.path != old(lm).spec_log_file()
                && b.block_no < spec_file(old(fm)@, b.path).len(),
        ensures
            *final (self) == *old(self),
            final (lm).inv(final (fm)),
            final (fm).spec_block_size() == old(fm).spec_block_size(),
            final (lm).spec_log_file() == old(lm).spec_log_file(),
            final (lm).spec_latest_lsn() == old(lm).spec_latest_lsn(),
            final (lm).spec_latest_saved_lsn() >= old(lm).spec_latest_saved_lsn(),
            final (lm).memory_records(final (fm)) == old(lm).memory_records(old(fm)),
            forall|p: Seq<char>|
                spec_file(final (fm)@, p).len() == spec_file(old(fm)@, p).len(),
            forall|p: Seq<char>, k: int|
                p != old(lm).spec_log_file() && 0 <= k < spec_file(old(fm)@, p).len() && !(
                old(self).is_dirty() && (old(self).spec_block() matches Some(b) && p == b.path && k
                    == b.block_no)) ==> spec_file(final (fm)@, p)[k] == spec_file(old(fm)@, p)[k],
            old(self).is_dirty() ==> (old(self).spec_block() matches Some(b) && spec_file(
                final (fm)@,
                b.path,
            )[b.block_no as int] == old(self).spec_page()),
            old(self).is_dirty() && 0 <= old(self).spec_lsn() as int <= old(
                lm,
            ).spec_latest_lsn() as int ==> final (lm).spec_latest_saved_lsn() as int >= old(
                self,
            ).spec_lsn() as int,
            !old(self).is_dirty() ==> final (fm)@ == old(fm)@ && *final (lm) == *old(lm),
    {
        if self.txnum >= 0 {
            let lsn_target: usize = if self.lsn >= 0 {
                #[verifier::truncate] (self.lsn as usize)
            } else {
                usize::MAX
            };
            lm.flush(fm, lsn_target);
            let block = match &self.block_id {
                Some(b) => b,
                // A dirty buffer is always bound, by the precondition.
                None => {
                    return ;
                },
            };
            proof {
                lemma_file_len_bound(fm, block@.path);
            }
            let write_result = fm.write(block, &self.page);
            proof {
                assert(spec_file(fm@, block@.path) =~~= spec_file(old(fm)@, block@.path).update(
                    block@.block_no as int,
                    self.spec_page(),
                ));
            }
        }
    }
}

} // verus!
