//! Reverse iteration over the durable records of the write-ahead log.
//!
//! A [`LogIterator`] walks the log most-recently-appended-first: within a
//! block it reads records left-to-right from the boundary (newest first),
//! and it visits blocks in descending order, loading each lazily from the
//! store. It is forward-only and not restartable.

use vstd::prelude::*;

use crate::block_id::BlockId;
use crate::file_manager::{spec_file, FileManager};
use crate::log_records::{
    block_records, lemma_rev_log_take, records_from, rev_log_records, wf_block, wf_records_from,
};
use crate::page::Page;

verus! {

/// A lazy, single-pass reverse iterator over the log's durable records.
pub struct LogIterator {
    blk: BlockId,
    page: Page,
    current_position: usize,
    boundary: i32,
}

impl LogIterator {
    /// The name of the log file being iterated.
    pub closed spec fn spec_path(&self) -> Seq<char> {
        self.blk@.path
    }

    /// The number of the block currently loaded.
    pub closed spec fn spec_block_no(&self) -> u64 {
        self.blk@.block_no
    }

    /// The bytes of the currently loaded block.
    pub closed spec fn spec_page(&self) -> Seq<u8> {
        self.page@
    }

    /// The read position within the currently loaded block.
    pub closed spec fn spec_position(&self) -> usize {
        self.current_position
    }

    /// The blocks of the iterated file as stored.
    pub open spec fn file(&self, fm: &FileManager) -> Seq<Seq<u8>> {
        spec_file(fm@, self.spec_path())
    }

    /// The records the iterator has yet to produce, in the order it will
    /// produce them: the rest of the loaded block, then all records of the
    /// blocks below it, ever newest first.
    pub open spec fn remaining(&self, fm: &FileManager) -> Seq<Seq<u8>> {
        records_from(self.spec_page(), self.spec_position() as int) + rev_log_records(
            self.file(fm).take(self.spec_block_no() as int),
        )
    }

    /// Consistency of the iterator with the store: the loaded block is a
    /// copy of a stored block, the read position parses as records, and
    /// every block still to visit is well-formed and non-empty.
    pub open spec fn inv(&self, fm: &FileManager) -> bool {
        let bs = fm.spec_block_size() as int;
        &&& fm.wf()
        &&& 8 <= bs <= i32::MAX
        &&& self.spec_block_no() < self.file(fm).len()
        &&& self.spec_page().len() == bs
        &&& self.spec_position() <= bs
        &&& wf_records_from(self.spec_page(), self.spec_position() as int)
        &&& forall|i: int|
            0 <= i < self.spec_block_no() ==> wf_block(#[trigger] self.file(fm)[i], bs)
        &&& forall|i: int|
            0 <= i < self.spec_block_no() ==> (#[trigger] block_records(self.file(fm)[i])).len()
                > 0
    }

    /// Starts iteration at block `blk` of the store, which is loaded and
    /// read from its boundary.
    pub fn new(fm: &FileManager, blk: BlockId) -> (it: Self)
        requires
            fm.wf(),
            8 <= fm.spec_block_size(),
            fm.spec_block_size() <= i32::MAX as usize,
            blk@.block_no < spec_file(fm@, blk@.path).len(),
            forall|i: int|
                0 <= i <= blk@.block_no ==> wf_block(
                    #[trigger] spec_file(fm@, blk@.path)[i],
                    fm.spec_block_size() as int,
                ),
            forall|i: int|
                0 <= i < blk@.block_no ==> (#[trigger] block_records(
                    spec_file(fm@, blk@.path)[i],
                )).len() > 0,
        ensures
            it.inv(fm),
            it.spec_path() == blk@.path,
            it.remaining(fm) == rev_log_records(
                spec_file(fm@, blk@.path).take(blk@.block_no + 1),
            ),
    {
        let block_size = fm.block_size();
        let mut page = Page::with_size(block_size);
        let read_result = fm.read(&blk, &mut page);
        proof {
            assert(read_result is Ok);
        }
        let boundary = match page.get_integer(0) {
            Ok(v) => v,
            Err(_) => 0,
        };
        let current_position = boundary as usize;
        let it = Self { blk, page, current_position, boundary };
        proof {
            lemma_rev_log_take(it.file(fm), it.spec_block_no() as int);
        }
        it
    }

    /// Produces the next record, or nothing when the log is exhausted.
    ///
    /// Records come most-recently-appended-first; when the loaded block is
    /// spent the next older block is loaded from the store.
    pub fn next(&mut self, fm: &FileManager) -> (r: Option<Vec<u8>>)
        requires
            old(self).inv(fm),
        ensures
            final (self).inv(fm),
            final (self).spec_path() == old(self).spec_path(),
            match r {
                None => old(self).remaining(fm).len() == 0 && *final (self) == *old(self),
                Some(rec) => old(self).remaining(fm).len() > 0 && rec@ == old(self).remaining(
                    fm,
                )[0] && final (self).remaining(fm) == old(self).remaining(fm).drop_first(),
            },
    {
        let block_size = fm.block_size();
        if self.current_position >= block_size && self.blk.block_no() == 0 {
            proof {
                assert(self.file(fm).take(0) =~= Seq::<Seq<u8>>::empty());
                assert(old(self).remaining(fm).len() == 0);
            }
            return None;
        }

        if self.current_position == block_size {
            proof {
                lemma_rev_log_take(self.file(fm), self.spec_block_no() - 1);
            }
            let new_no = self.blk.block_no() - 1;
            let nb = BlockId::new(self.blk.path().clone(), new_no);
            self.blk = nb;
            let read_result = fm.read(&self.blk, &mut self.page);
            proof {
                assert(read_result is Ok);
            }
            let b = match self.page.get_integer(0) {
                Ok(v) => v,
                Err(_) => 0,
            };
            self.boundary = b;
            self.current_position = b as usize;
            proof {
                assert(self.remaining(fm) == old(self).remaining(fm));
            }
        }

        let ghost before = *self;
        let rec = match self.page.get_bytes(self.current_position) {
            Ok(r) => r,
            Err(_) => {
                return None;
            },
        };
        let rec_vec = vstd::slice::slice_to_vec(rec);
        self.current_position = self.current_position + 4 + rec_vec.len();
        proof {
            assert(records_from(before.spec_page(), before.spec_position() as int) =~= seq![
                rec_vec@,
            ] + records_from(self.spec_page(), self.spec_position() as int));
            assert(before.remaining(fm)[0] == rec_vec@);
            assert(self.remaining(fm) =~= before.remaining(fm).drop_first());
            assert(before.remaining(fm) == old(self).remaining(fm));
        }
        Some(rec_vec)
    }
}

} // verus!
