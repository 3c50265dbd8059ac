//! The write-ahead log manager.
//!
//! The [`LogManager`] owns the single log file of the store: an in-memory
//! page mirroring the tail block, the tail block's identity, the highest
//! assigned log sequence number (LSN) and the highest LSN known to be
//! durable. Records are appended to the tail page in memory and become
//! durable when a flush — explicit, or forced by a block rollover —
//! writes the tail page to the store.

use vstd::prelude::*;

use crate::block_id::BlockId;
use crate::file_manager::{spec_file, zero_block, FileManager};
use crate::log_iterator::LogIterator;
use crate::log_records::{
    block_boundary, block_records, lemma_append_record, lemma_log_records_push,
    lemma_log_records_update_last, lemma_rev_log_records, log_records, rev_log_records,
    tail_covers, wf_block,
};
use crate::page::{spec_write_i32, Page};

verus! {

/// Owns the write-ahead log file: appends records to its tail block,
/// tracks assigned and durable LSNs, and hands out reverse iterators.
pub struct LogManager {
    log_file: String,
    log_page: Page,
    current_block: BlockId,
    latest_lsn: usize,
    latest_saved_lsn: usize,
}

impl LogManager {
    /// The name of the log file.
    pub closed spec fn spec_log_file(&self) -> Seq<char> {
        self.log_file@
    }

    /// The bytes of the in-memory tail page.
    pub closed spec fn spec_page(&self) -> Seq<u8> {
        self.log_page@
    }

    /// The highest LSN assigned so far; 0 when none has been.
    pub closed spec fn spec_latest_lsn(&self) -> usize {
        self.latest_lsn
    }

    /// The highest LSN known to be durable.
    pub closed spec fn spec_latest_saved_lsn(&self) -> usize {
        self.latest_saved_lsn
    }

    /// The identity of the tail block.
    pub closed spec fn spec_current_block(&self) -> crate::block_id::BlockIdView {
        self.current_block@
    }

    /// The number of the tail block.
    pub open spec fn spec_block_no(&self) -> u64 {
        self.spec_current_block().block_no
    }

    /// The log file's blocks as stored.
    pub open spec fn disk_blocks(&self, fm: &FileManager) -> Seq<Seq<u8>> {
        spec_file(fm@, self.spec_log_file())
    }

    /// All records of the log, oldest first, whether durable or still
    /// only in the tail page.
    pub open spec fn memory_records(&self, fm: &FileManager) -> Seq<Seq<u8>> {
        log_records(self.disk_blocks(fm).drop_last()) + block_records(self.spec_page()).reverse()
    }

    /// The records that are durable in the store, oldest first.
    pub open spec fn durable_records(&self, fm: &FileManager) -> Seq<Seq<u8>> {
        log_records(self.disk_blocks(fm))
    }

    /// Consistency of the manager with the store `fm`: the tail block is
    /// the last block of a well-formed log file, the in-memory page covers
    /// the disk tail, every non-tail block holds at least one record, and
    /// the LSN counters account for the records.
    ///
    /// The durable records are always the chronological prefix of the
    /// in-memory records whose length the last conjunct bounds: of the
    /// `spec_latest_lsn()` most recent records, all but the last
    /// `spec_latest_lsn() - spec_latest_saved_lsn()` are durable.
    pub open spec fn inv(&self, fm: &FileManager) -> bool {
        let bs = fm.spec_block_size() as int;
        let disk = self.disk_blocks(fm);
        &&& fm.wf()
        &&& 8 <= bs <= i32::MAX
        &&& fm@.contains_key(self.spec_log_file())
        &&& disk.len() == self.spec_current_block().block_no + 1
        &&& self.spec_current_block().path == self.spec_log_file()
        &&& self.spec_current_block().block_no < usize::MAX
        &&& forall|i: int| 0 <= i < disk.len() ==> wf_block(#[trigger] disk[i], bs)
        &&& forall|i: int| 0 <= i < disk.len() - 1 ==> (#[trigger] block_records(disk[i])).len() > 0
        &&& wf_block(self.spec_page(), bs)
        &&& tail_covers(self.spec_page(), disk.last())
        &&& self.spec_latest_saved_lsn() <= self.spec_latest_lsn()
        &&& self.spec_latest_lsn() <= self.memory_records(fm).len()
        &&& self.durable_records(fm).len() + self.spec_latest_lsn() >= self.memory_records(
            fm,
        ).len() + self.spec_latest_saved_lsn()
    }

    /// Opens the log file named `log_file` in the store `fm`: an absent or
    /// empty log gets one fresh, empty tail block; otherwise the last
    /// block of the existing log becomes the tail and is loaded into
    /// memory. LSN counters start at 0 either way.
    pub fn new(fm: &mut FileManager, log_file: String) -> (lm: Self)
        requires
            old(fm).wf(),
            8 <= old(fm).spec_block_size(),
            old(fm).spec_block_size() <= i32::MAX as usize,
            spec_file(old(fm)@, log_file@).len() < usize::MAX,
            forall|i: int|
                0 <= i < spec_file(old(fm)@, log_file@).len() ==> wf_block(
                    #[trigger] spec_file(old(fm)@, log_file@)[i],
                    old(fm).spec_block_size() as int,
                ),
            forall|i: int|
                0 <= i < spec_file(old(fm)@, log_file@).len() - 1 ==> (#[trigger] block_records(
                    spec_file(old(fm)@, log_file@)[i],
                )).len() > 0,
        ensures
            lm.inv(final (fm)),
            final (fm).spec_block_size() == old(fm).spec_block_size(),
            lm.spec_log_file() == log_file@,
            lm.spec_latest_lsn() == 0,
            lm.spec_latest_saved_lsn() == 0,
            lm.durable_records(final (fm)) == lm.memory_records(final (fm)),
            spec_file(old(fm)@, log_file@).len() == 0 ==> {
                &&& final (fm)@ == old(fm)@.insert(
                    log_file@,
                    seq![
                        spec_write_i32(
                            zero_block(old(fm).spec_block_size() as nat),
                            0,
                            old(fm).spec_block_size() as i32,
                        ),
                    ],
                )
                &&& lm.memory_records(final (fm)) == Seq::<Seq<u8>>::empty()
            },
            spec_file(old(fm)@, log_file@).len() > 0 ==> {
                &&& final (fm)@ == old(fm)@
                &&& lm.memory_records(final (fm)) == log_records(spec_file(old(fm)@, log_file@))
            },
    {
        let block_size = fm.block_size();
        let mut log_page = Page::with_size(block_size);
        let log_size = fm.size(&log_file);
        let current_block: BlockId;
        if log_size == 0 {
            let blk = fm.append_block(&log_file);
            let set_result = log_page.set_integer(0, block_size as i32);
            proof {
                assert(set_result is Ok);
                assert(log_page@ =~= spec_write_i32(
                    zero_block(block_size as nat),
                    0,
                    block_size as i32,
                ));
            }
            let write_result = fm.write(&blk, &log_page);
            current_block = blk;
            proof {
                crate::page::lemma_integer_round_trip(
                    zero_block(block_size as nat),
                    0,
                    block_size as i32,
                );
                assert(spec_file(fm@, log_file@) =~~= seq![log_page@]);
                assert(fm@ =~~= old(fm)@.insert(log_file@, seq![log_page@]));
                assert(block_boundary(log_page@) == block_size);
                assert(block_records(log_page@) =~= Seq::<Seq<u8>>::empty());
                assert(block_records(log_page@).skip(0) =~= block_records(log_page@));
                assert(tail_covers(log_page@, log_page@));
                assert(spec_file(fm@, log_file@).drop_last() =~= Seq::<Seq<u8>>::empty());
            }
        } else {
            let block = BlockId::new(log_file.clone(), log_size - 1);
            let read_result = fm.read(&block, &mut log_page);
            proof {
                assert(read_result is Ok);
            }
            current_block = block;
            proof {
                let disk = spec_file(fm@, log_file@);
                assert(log_page@ == disk.last());
                assert(block_records(log_page@).skip(0) =~= block_records(log_page@));
                assert(tail_covers(log_page@, disk.last()));
                assert(log_records(disk) == log_records(disk.drop_last()) + block_records(
                    disk.last(),
                ).reverse());
            }
        }
        LogManager { log_file, log_page, current_block, latest_lsn: 0, latest_saved_lsn: 0 }
    }

    /// Writes the tail page to the store and marks every assigned LSN
    /// durable. After the call the durable records are exactly the
    /// in-memory records.
    fn flush_internal(&mut self, fm: &mut FileManager)
        requires
            old(self).inv(old(fm)),
        ensures
            final (self).inv(final (fm)),
            final (fm).spec_block_size() == old(fm).spec_block_size(),
            final (self).spec_log_file() == old(self).spec_log_file(),
            final (self).spec_page() == old(self).spec_page(),
            final (self).spec_current_block() == old(self).spec_current_block(),
            final (self).spec_latest_lsn() == old(self).spec_latest_lsn(),
            final (self).spec_latest_saved_lsn() == old(self).spec_latest_lsn(),
            final (fm)@ == old(fm)@.insert(
                old(self).spec_log_file(),
                old(self).disk_blocks(old(fm)).update(
                    old(self).disk_blocks(old(fm)).len() - 1,
                    old(self).spec_page(),
                ),
            ),
            final (self).disk_blocks(final (fm)).len() == old(self).disk_blocks(old(fm)).len(),
            final (self).disk_blocks(final (fm)).last() == old(self).spec_page(),
            final (self).memory_records(final (fm)) == old(self).memory_records(old(fm)),
            final (self).durable_records(final (fm)) == old(self).memory_records(old(fm)),
    {
        let write_result = fm.write(&self.current_block, &self.log_page);
        self.latest_saved_lsn = self.latest_lsn;
        proof {
            let old_disk = old(self).disk_blocks(old(fm));
            let new_disk = self.disk_blocks(fm);
            assert(new_disk =~~= old_disk.update(old_disk.len() - 1, old(self).spec_page()));
            lemma_log_records_update_last(old_disk, old(self).spec_page());
            assert(new_disk.drop_last() =~= old_disk.drop_last());
            assert(tail_covers(self.spec_page(), new_disk.last())) by {
                let m = block_records(self.spec_page());
                assert(m.skip(0) =~= m);
            }
        }
    }

    /// Ensures every record up to (at least) `lsn` is durable: a no-op
    /// when `lsn` is below the highest durable LSN, and otherwise a write
    /// of the whole tail page, which makes every assigned LSN durable.
    pub fn flush(&mut self, fm: &mut FileManager, lsn: usize)
        requires
            old(self).inv(old(fm)),
        ensures
            final (self).inv(final (fm)),
            final (fm).spec_block_size() == old(fm).spec_block_size(),
            final (self).spec_log_file() == old(self).spec_log_file(),
            final (self).spec_page() == old(self).spec_page(),
            final (self).spec_latest_lsn() == old(self).spec_latest_lsn(),
            final (self).memory_records(final (fm)) == old(self).memory_records(old(fm)),
            final (self).disk_blocks(final (fm)).len() == old(self).disk_blocks(old(fm)).len(),
            final (self).spec_latest_saved_lsn() >= old(self).spec_latest_saved_lsn(),
            forall|p: Seq<char>|
                p != old(self).spec_log_file() ==> spec_file(final (fm)@, p) == spec_file(
                    old(fm)@,
                    p,
                ),
            lsn >= old(self).spec_latest_saved_lsn() ==> {
                &&& final (self).durable_records(final (fm)) == old(self).memory_records(old(fm))
                &&& final (self).spec_latest_saved_lsn() == old(self).spec_latest_lsn()
            },
            lsn < old(self).spec_latest_saved_lsn() ==> {
                &&& final (fm)@ == old(fm)@
                &&& *final (self) == *old(self)
            },
    {
        if lsn >= self.latest_saved_lsn {
            self.flush_internal(fm);
        }
        proof {
            if lsn >= old(self).spec_latest_saved_lsn() {
                assert forall|p: Seq<char>| p != old(self).spec_log_file() implies spec_file(
                    fm@,
                    p,
                ) == spec_file(old(fm)@, p) by {}
            }
        }
    }

    /// Allocates a fresh tail block at the end of the log file: the
    /// in-memory page's boundary is reset to the block size (empty) and
    /// the page is written as the new block's initial state. The caller
    /// remains responsible for retargeting the manager at the new block.
    fn append_new_block(&mut self, fm: &mut FileManager) -> (blk: BlockId)
        requires
            old(self).inv(old(fm)),
            old(self).disk_blocks(old(fm)).len() < usize::MAX,
            old(self).durable_records(old(fm)) == old(self).memory_records(old(fm)),
            block_records(old(self).disk_blocks(old(fm)).last()).len() > 0,
        ensures
            final (fm).wf(),
            forall|i: int|
                0 <= i < final (self).disk_blocks(final (fm)).len() ==> wf_block(
                    #[trigger] final (self).disk_blocks(final (fm))[i],
                    old(fm).spec_block_size() as int,
                ),
            forall|i: int|
                0 <= i < final (self).disk_blocks(final (fm)).len() - 1 ==> (
                #[trigger] block_records(final (self).disk_blocks(final (fm))[i])).len() > 0,
            final (fm).spec_block_size() == old(fm).spec_block_size(),
            final (self).spec_log_file() == old(self).spec_log_file(),
            final (self).spec_latest_lsn() == old(self).spec_latest_lsn(),
            final (self).spec_latest_saved_lsn() == old(self).spec_latest_saved_lsn(),
            blk@.path == old(self).spec_log_file(),
            blk@.block_no == old(self).disk_blocks(old(fm)).len(),
            final (self).spec_current_block() == old(self).spec_current_block(),
            forall|p: Seq<char>|
                p != old(self).spec_log_file() ==> spec_file(final (fm)@, p) == spec_file(
                    old(fm)@,
                    p,
                ),
            final (self).disk_blocks(final (fm)).len() == old(self).disk_blocks(old(fm)).len() + 1,
            final (self).disk_blocks(final (fm)).drop_last() == old(self).disk_blocks(old(fm)),
            block_records(final (self).spec_page()) == Seq::<Seq<u8>>::empty(),
            block_boundary(final (self).spec_page()) == old(fm).spec_block_size(),
            wf_block(final (self).spec_page(), old(fm).spec_block_size() as int),
            final (self).disk_blocks(final (fm)).last() == final (self).spec_page(),
            final (self).durable_records(final (fm)) == old(self).memory_records(old(fm)),
            final (self).memory_records(final (fm)) == old(self).memory_records(old(fm)),
    {
        let block_size = fm.block_size();
        let blk = fm.append_block(&self.log_file);
        let set_result = self.log_page.set_integer(0, block_size as i32);
        proof {
            assert(set_result is Ok);
            crate::page::lemma_integer_round_trip(old(self).spec_page(), 0, block_size as i32);
            assert(block_boundary(self.spec_page()) == block_size);
            assert(block_records(self.spec_page()) =~= Seq::<Seq<u8>>::empty());
        }
        let write_result = fm.write(&blk, &self.log_page);
        proof {
            let old_disk = old(self).disk_blocks(old(fm));
            let new_disk = spec_file(fm@, self.spec_log_file());
            assert(new_disk =~~= old_disk.push(self.spec_page()));
            lemma_log_records_push(old_disk, self.spec_page());
            assert(new_disk.drop_last() =~= old_disk);
        }
        blk
    }

    /// Appends `record` to the log and returns its LSN.
    ///
    /// The record lands in the in-memory tail page; when it does not fit
    /// in the space left there, the tail page is first made durable and a
    /// fresh tail block is allocated — the only way the log file grows.
    /// The record itself is only guaranteed durable once a later `flush`
    /// covers its LSN.
    pub fn append(&mut self, fm: &mut FileManager, record: &[u8]) -> (lsn: usize)
        requires
            old(self).inv(old(fm)),
            record@.len() + 8 <= old(fm).spec_block_size(),
            old(self).spec_latest_lsn() < usize::MAX,
            old(self).disk_blocks(old(fm)).len() < usize::MAX,
        ensures
            final (self).inv(final (fm)),
            final (fm).spec_block_size() == old(fm).spec_block_size(),
            final (self).spec_log_file() == old(self).spec_log_file(),
            lsn == old(self).spec_latest_lsn() + 1,
            final (self).spec_latest_lsn() == lsn,
            final (self).memory_records(final (fm)) == old(self).memory_records(old(fm)).push(
                record@,
            ),
            forall|p: Seq<char>|
                p != old(self).spec_log_file() ==> spec_file(final (fm)@, p) == spec_file(
                    old(fm)@,
                    p,
                ),
            block_boundary(old(self).spec_page()) >= record@.len() + 8 ==> {
                &&& final (fm)@ == old(fm)@
                &&& final (self).spec_latest_saved_lsn() == old(self).spec_latest_saved_lsn()
                &&& final (self).durable_records(final (fm)) == old(self).durable_records(old(fm))
            },
            block_boundary(old(self).spec_page()) < record@.len() + 8 ==> {
                &&& final (self).disk_blocks(final (fm)).len() == old(self).disk_blocks(
                    old(fm),
                ).len() + 1
                &&& final (self).disk_blocks(final (fm))[old(self).disk_blocks(old(fm)).len() - 1]
                    == old(self).spec_page()
                &&& final (self).spec_latest_saved_lsn() == old(self).spec_latest_lsn()
                &&& final (self).durable_records(final (fm)) == old(self).memory_records(old(fm))
            },
    {
        let block_size = fm.block_size();
        let boundary_read = self.log_page.get_integer(0);
        let mut boundary: usize = match boundary_read {
            Ok(v) => v as usize,
            Err(_) => 0,
        };
        proof {
            assert(boundary == block_boundary(old(self).spec_page()));
        }
        let record_size = record.len();
        let bytes_needed = record_size + 4;

        if boundary < 4 + bytes_needed {
            proof {
                // The tail page holds at least one record: its boundary
                // lies strictly below the block end.
                assert(block_boundary(self.spec_page()) < block_size);
                assert(block_records(self.spec_page()).len() > 0);
            }
            // Not enough space for the record and its length prefix: make
            // the current tail durable, then start a fresh tail block.
            self.flush_internal(fm);
            proof {
                assert(self.disk_blocks(fm).last() == self.spec_page());
            }
            let blk = self.append_new_block(fm);
            self.current_block = blk;
            let boundary_reread = self.log_page.get_integer(0);
            boundary = match boundary_reread {
                Ok(v) => v as usize,
                Err(_) => 0,
            };
            proof {
                assert(boundary == block_size);
                assert(self.disk_blocks(fm).last() == self.spec_page());
                assert(block_records(self.spec_page()).skip(0) =~= block_records(
                    self.spec_page(),
                ));
            }
        }

        let rec_pos = boundary - bytes_needed;
        let ghost page_before = self.spec_page();
        let set_bytes_result = self.log_page.set_bytes(rec_pos, record);
        proof {
            assert(set_bytes_result is Ok);
        }
        let set_int_result = self.log_page.set_integer(0, rec_pos as i32);
        proof {
            assert(set_int_result is Ok);
            lemma_append_record(page_before, block_size as int, record@);
            assert(block_records(self.spec_page()) == seq![record@] + block_records(page_before));
            // The new in-memory record sequence is the old one plus the
            // record, and the disk tail is still covered.
            let disk = self.disk_blocks(fm);
            let m_old = block_records(page_before);
            let m_new = block_records(self.spec_page());
            let d = block_records(disk.last());
            assert(m_new.skip(m_new.len() - d.len()) =~= m_old.skip(m_old.len() - d.len()));
            assert(m_new.reverse() =~= m_old.reverse().push(record@));
            assert(self.memory_records(fm) =~= log_records(disk.drop_last()) + m_old.reverse()
                + seq![record@]);
            assert(log_records(disk.drop_last()) + m_old.reverse() + seq![record@] =~= (
            log_records(disk.drop_last()) + m_old.reverse()).push(record@));
        }
        self.latest_lsn = self.latest_lsn + 1;
        self.latest_lsn
    }

    /// Returns a reverse iterator over the log's durable records, starting
    /// at the current tail block: a full scan produces exactly the durable
    /// records, most recently appended first.
    pub fn iter(&self, fm: &FileManager) -> (it: LogIterator)
        requires
            self.inv(fm),
        ensures
            it.inv(fm),
            it.spec_path() == self.spec_log_file(),
            it.remaining(fm) == rev_log_records(self.disk_blocks(fm)),
            it.remaining(fm) == self.durable_records(fm).reverse(),
    {
        let it = LogIterator::new(fm, self.current_block.clone());
        proof {
            assert(self.disk_blocks(fm).take(self.spec_current_block().block_no + 1)
                =~= self.disk_blocks(fm));
            lemma_rev_log_records(self.disk_blocks(fm));
        }
        it
    }
}

/// Law: the durable records are always a chronological prefix of the
/// in-memory records — the store never holds a record the manager does not
/// know, nor in another order.
pub proof fn lemma_durable_prefix(lm: &LogManager, fm: &FileManager)
    requires
        lm.inv(fm),
    ensures
        lm.durable_records(fm).len() <= lm.memory_records(fm).len(),
        lm.durable_records(fm) == lm.memory_records(fm).take(lm.durable_records(fm).len() as int),
{
    let disk = lm.disk_blocks(fm);
    let m = block_records(lm.spec_page());
    let d = block_records(disk.last());
    assert(d.reverse() =~= m.reverse().take(d.len() as int));
    assert(lm.durable_records(fm) =~= lm.memory_records(fm).take(
        lm.durable_records(fm).len() as int,
    ));
}

/// Law: every record whose LSN is at most the highest durable LSN is
/// observable in a scan of the durable log — the record that `append`
/// numbered `l` stands, unchanged, at its chronological place among the
/// durable records.
pub proof fn lemma_saved_lsn_durable(lm: &LogManager, fm: &FileManager, l: int)
    requires
        lm.inv(fm),
        1 <= l <= lm.spec_latest_saved_lsn(),
    ensures
        ({
            let i = lm.memory_records(fm).len() - lm.spec_latest_lsn() + l - 1;
            &&& 0 <= i < lm.durable_records(fm).len()
            &&& lm.durable_records(fm)[i] == lm.memory_records(fm)[i]
        }),
{
    lemma_durable_prefix(lm, fm);
}

} // verus!
