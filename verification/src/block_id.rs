//! Identification of fixed-size blocks within files of the store.

use vstd::prelude::*;

verus! {

/// The mathematical value of a [`BlockId`]: a file name and a zero-based
/// block number.
pub ghost struct BlockIdView {
    pub path: Seq<char>,
    pub block_no: u64,
}

/// Identifies a specific block within a file.
///
/// A `BlockId` combines a file name with a block number to uniquely
/// identify a fixed-size block of data within the store. Two `BlockId`s
/// are equal exactly when both the name and the number are equal.
#[derive(Debug)]
pub struct BlockId {
    path: String,
    block_no: u64,
}

impl View for BlockId {
    type V = BlockIdView;

    closed spec fn view(&self) -> BlockIdView {
        BlockIdView { path: self.path@, block_no: self.block_no }
    }
}

impl BlockId {
    /// Creates a new block identifier for block `block_no` of the file
    /// named `path`.
    pub fn new(path: String, block_no: u64) -> (b: Self)
        ensures
            b@.path == path@,
            b@.block_no == block_no,
    {
        Self { path, block_no }
    }

    /// Returns the file name for this block.
    pub fn path(&self) -> (p: &String)
        ensures
            p@ == self@.path,
    {
        &self.path
    }

    /// Returns the zero-based block number within the file.
    pub fn block_no(&self) -> (n: u64)
        ensures
            n == self@.block_no,
    {
        self.block_no
    }
}

impl Clone for BlockId {
    /// A clone identifies the same block.
    fn clone(&self) -> (b: Self)
        ensures
            b@ == self@,
    {
        BlockId { path: self.path.clone(), block_no: self.block_no }
    }
}

impl PartialEq for BlockId {
    fn eq(&self, other: &Self) -> (r: bool)
        ensures
            r == (self@ == other@),
    {
        let r = self.path == other.path && self.block_no == other.block_no;
        proof {
            if r {
                assert(self@ =~= other@);
            }
        }
        r
    }
}

impl vstd::std_specs::cmp::PartialEqSpecImpl for BlockId {
    open spec fn obeys_eq_spec() -> bool {
        true
    }

    open spec fn eq_spec(&self, other: &Self) -> bool {
        self@ == other@
    }
}

} // verus!
