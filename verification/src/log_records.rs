//! The byte layout of write-ahead log blocks, as mathematical functions.
//!
//! Each log block's first 4 bytes are the boundary: the offset, within the
//! block, of the most recently appended record. Records are packed from
//! the end of the block backward toward the boundary, each as a 4-byte
//! big-endian length prefix followed by its bytes, so reading
//! left-to-right from the boundary visits records newest first.

use vstd::prelude::*;

use crate::page::{spec_bytes_readable, spec_read_bytes, spec_read_i32, spec_read_len};
use crate::page::{spec_write_bytes, spec_write_i32};
use crate::page::{lemma_bytes_round_trip, lemma_i32_be_round_trip, lemma_integer_round_trip};

verus! {

/// The boundary stored at the head of a log block: the offset of its most
/// recently appended record, or the block size when the block is empty.
pub open spec fn block_boundary(b: Seq<u8>) -> int {
    spec_read_i32(b, 0) as int
}

/// True when the bytes from `pos` to the end of the block parse exactly as
/// a sequence of length-prefixed records.
pub open spec fn wf_records_from(b: Seq<u8>, pos: int) -> bool
    decreases b.len() - pos
        when 0 <= pos <= b.len()
{
    ||| pos == b.len()
    ||| {
        &&& pos + 4 <= b.len()
        &&& 0 <= spec_read_len(b, pos)
        &&& pos + 4 + spec_read_len(b, pos) <= b.len()
        &&& wf_records_from(b, pos + 4 + spec_read_len(b, pos))
    }
}

/// The records stored from `pos` to the end of the block, newest first.
pub open spec fn records_from(b: Seq<u8>, pos: int) -> Seq<Seq<u8>>
    decreases b.len() - pos
        when 0 <= pos <= b.len()
{
    if pos == b.len() {
        Seq::empty()
    } else if pos + 4 <= b.len() && 0 <= spec_read_len(b, pos) && pos + 4 + spec_read_len(b, pos)
        <= b.len() {
        seq![spec_read_bytes(b, pos)] + records_from(b, pos + 4 + spec_read_len(b, pos))
    } else {
        Seq::empty()
    }
}

/// A well-formed log block of size `bs`: its boundary lies between the
/// boundary field itself and the block end, and everything from the
/// boundary on parses as records.
pub open spec fn wf_block(b: Seq<u8>, bs: int) -> bool {
    &&& b.len() == bs
    &&& 4 <= block_boundary(b) <= bs
    &&& wf_records_from(b, block_boundary(b))
}

/// The records of one block, newest first.
pub open spec fn block_records(b: Seq<u8>) -> Seq<Seq<u8>> {
    records_from(b, block_boundary(b))
}

/// All records of a sequence of log blocks, oldest first.
pub open spec fn log_records(blocks: Seq<Seq<u8>>) -> Seq<Seq<u8>>
    decreases blocks.len(),
{
    if blocks.len() == 0 {
        Seq::empty()
    } else {
        log_records(blocks.drop_last()) + block_records(blocks.last()).reverse()
    }
}

/// All records of a sequence of log blocks, newest first: later blocks
/// before earlier ones and, within a block, newer records before older.
pub open spec fn rev_log_records(blocks: Seq<Seq<u8>>) -> Seq<Seq<u8>>
    decreases blocks.len(),
{
    if blocks.len() == 0 {
        Seq::empty()
    } else {
        block_records(blocks.last()) + rev_log_records(blocks.drop_last())
    }
}

/// The in-memory tail page `mem` covers the on-disk tail block `disk`:
/// the disk holds some earlier flushed state of the same block, so its
/// records are exactly the older ones of the page (records are listed
/// newest first, so a suffix).
pub open spec fn tail_covers(mem: Seq<u8>, disk: Seq<u8>) -> bool {
    &&& block_records(disk).len() <= block_records(mem).len()
    &&& block_records(disk) == block_records(mem).skip(
        block_records(mem).len() - block_records(disk).len(),
    )
}

/// The two readings of a log agree: visiting later blocks first and, in
/// each block, newer records first, yields exactly the reverse of the
/// chronological record sequence.
pub proof fn lemma_rev_log_records(blocks: Seq<Seq<u8>>)
    ensures
        rev_log_records(blocks) == log_records(blocks).reverse(),
    decreases blocks.len(),
{
    if blocks.len() == 0 {
        assert(rev_log_records(blocks) =~= log_records(blocks).reverse());
    } else {
        lemma_rev_log_records(blocks.drop_last());
        assert(rev_log_records(blocks) =~= log_records(blocks).reverse());
    }
}

/// Parsing depends only on the bytes from `pos` on: two blocks of equal
/// length that agree there hold the same records.
pub proof fn lemma_records_from_agree(b1: Seq<u8>, b2: Seq<u8>, pos: int)
    requires
        0 <= pos <= b1.len(),
        b1.len() == b2.len(),
        forall|i: int| pos <= i < b1.len() ==> b1[i] == b2[i],
    ensures
        wf_records_from(b1, pos) == wf_records_from(b2, pos),
        records_from(b1, pos) == records_from(b2, pos),
    decreases b1.len() - pos,
{
    if pos == b1.len() {
    } else if pos + 4 <= b1.len() {
        assert(b1.subrange(pos, pos + 4) =~= b2.subrange(pos, pos + 4));
        let l = spec_read_len(b1, pos);
        if 0 <= l && pos + 4 + l <= b1.len() {
            assert(b1.subrange(pos + 4, pos + 4 + l) =~= b2.subrange(pos + 4, pos + 4 + l));
            lemma_records_from_agree(b1, b2, pos + 4 + l);
            assert(records_from(b1, pos) =~= records_from(b2, pos));
        }
    }
}

/// Appending a record to a well-formed block — writing its
/// length-prefixed bytes just below the boundary and moving the boundary
/// down onto it — leaves a well-formed block holding the new record in
/// front of the old ones.
pub proof fn lemma_append_record(b: Seq<u8>, bs: int, rec: Seq<u8>)
    requires
        wf_block(b, bs),
        bs <= i32::MAX as int,
        rec.len() + 8 <= block_boundary(b),
    ensures
        ({
            let pos = block_boundary(b) - 4 - rec.len();
            let b2 = spec_write_i32(spec_write_bytes(b, pos, rec), 0, pos as i32);
            &&& b2.len() == bs
            &&& wf_block(b2, bs)
            &&& block_boundary(b2) == pos
            &&& block_records(b2) == seq![rec] + block_records(b)
        }),
{
    let boundary = block_boundary(b);
    let pos = boundary - 4 - rec.len();
    let b1 = spec_write_bytes(b, pos, rec);
    let b2 = spec_write_i32(b1, 0, pos as i32);

    lemma_bytes_round_trip(b, pos, rec);
    lemma_integer_round_trip(b1, 0, pos as i32);
    lemma_i32_be_round_trip(pos as i32);

    // The boundary field of b2 reads back as pos.
    assert(b2.subrange(0, 4) =~= spec_write_i32(b1, 0, pos as i32).subrange(0, 4));
    assert(block_boundary(b2) == pos as i32 as int);
    assert(pos as i32 as int == pos);

    // b2 agrees with b1 from position 4 on, and b1 agrees with b from
    // position `boundary` on.
    assert(forall|i: int| 4 <= i < b2.len() ==> b2[i] == b1[i]);
    assert(forall|i: int| boundary <= i < b.len() ==> b1[i] == b[i]);

    // The record at pos in b2 is rec.
    assert(b2.subrange(pos, pos + 4) =~= b1.subrange(pos, pos + 4));
    assert(spec_read_len(b2, pos) == rec.len());
    assert(b2.subrange(pos + 4, pos + 4 + rec.len()) =~= b1.subrange(
        pos + 4,
        pos + 4 + rec.len(),
    ));
    assert(spec_read_bytes(b2, pos) == rec);

    // From the old boundary on, b2 parses exactly as b did.
    lemma_records_from_agree(b1, b, boundary);
    lemma_records_from_agree(b2, b1, boundary);
    assert(wf_records_from(b2, boundary));
    assert(records_from(b2, boundary) == records_from(b, boundary));

    assert(wf_records_from(b2, pos));
    assert(records_from(b2, pos) =~= seq![rec] + records_from(b2, boundary));
}

/// Chronological reading of a log that grew by one block at the end.
pub proof fn lemma_log_records_push(blocks: Seq<Seq<u8>>, b: Seq<u8>)
    ensures
        log_records(blocks.push(b)) == log_records(blocks) + block_records(b).reverse(),
{
    assert(blocks.push(b).drop_last() =~= blocks);
    assert(blocks.push(b).last() == b);
}

/// Chronological reading of a log whose last block was overwritten.
pub proof fn lemma_log_records_update_last(blocks: Seq<Seq<u8>>, b: Seq<u8>)
    requires
        blocks.len() > 0,
    ensures
        log_records(blocks.update(blocks.len() - 1, b)) == log_records(blocks.drop_last())
            + block_records(b).reverse(),
{
    let bu = blocks.update(blocks.len() - 1, b);
    assert(bu.drop_last() =~= blocks.drop_last());
    assert(bu.last() == b);
}

/// Newest-first reading of a log restricted to its first `k + 1` blocks.
pub proof fn lemma_rev_log_take(blocks: Seq<Seq<u8>>, k: int)
    requires
        0 <= k < blocks.len(),
    ensures
        rev_log_records(blocks.take(k + 1)) == block_records(blocks[k]) + rev_log_records(
            blocks.take(k),
        ),
{
    assert(blocks.take(k + 1).drop_last() =~= blocks.take(k));
    assert(blocks.take(k + 1).last() == blocks[k]);
}

} // verus!
