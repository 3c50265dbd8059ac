//! The database handle: the storage kernel assembled.
//!
//! A [`SimpleDB`] wires together one block store, one write-ahead log
//! manager on the fixed log file name, and one buffer pool. Callers reach
//! the components through the public fields; the accessors mirror the
//! handle's read-only surface.

use vstd::prelude::*;
use vstd::string::StringExecFns;

use crate::buffer_manager::BufferManager;
use crate::file_manager::{spec_file, FileManager};
use crate::log_manager::LogManager;

verus! {

/// A database instance: block store, write-ahead log, and buffer pool.
pub struct SimpleDB {
    pub file_manager: FileManager,
    pub log_manager: LogManager,
    pub buffer_manager: BufferManager,
}

impl SimpleDB {
    /// Mutual consistency of the three components.
    pub open spec fn wf(&self) -> bool {
        &&& self.log_manager.inv(&self.file_manager)
        &&& self.buffer_manager.inv(&self.file_manager, &self.log_manager)
    }

    /// Creates a database named `dirname` with the given block size and a
    /// pool of eight buffers. The write-ahead log lives in the file
    /// `<dirname>/simpledb.log`, which starts empty.
    pub fn new(dirname: &str, block_size: usize) -> (db: Self)
        requires
            8 <= block_size,
            block_size <= i32::MAX as usize,
        ensures
            db.wf(),
            db.file_manager.spec_block_size() == block_size,
            db.log_manager.spec_log_file() == dirname@ + "/simpledb.log"@,
            db.log_manager.spec_latest_lsn() == 0,
            db.log_manager.spec_latest_saved_lsn() == 0,
            db.log_manager.memory_records(&db.file_manager) == Seq::<Seq<u8>>::empty(),
            db.log_manager.durable_records(&db.file_manager) == Seq::<Seq<u8>>::empty(),
            forall|p: Seq<char>|
                p != db.log_manager.spec_log_file() ==> spec_file(db.file_manager@, p) == Seq::<
                    Seq<u8>,
                >::empty(),
            db.buffer_manager.spec_pool().len() == 8,
            db.buffer_manager.spec_available() == 8,
            forall|i: int|
                0 <= i < 8 ==> (#[trigger] db.buffer_manager.spec_pool()[i]).spec_block() is None
                    && db.buffer_manager.spec_pool()[i].spec_pins() == 0
                    && db.buffer_manager.spec_pool()[i].spec_txnum() == -1,
    {
        let mut file_manager = FileManager::new(block_size);
        let log_file = String::from_str(dirname).concat("/simpledb.log");
        let log_manager = LogManager::new(&mut file_manager, log_file);
        let buffer_manager = BufferManager::new(&file_manager, &log_manager, 8);
        SimpleDB { file_manager, log_manager, buffer_manager }
    }

    /// Returns the file manager.
    pub fn file_manager(&self) -> (fm: &FileManager)
        ensures
            *fm == self.file_manager,
    {
        &self.file_manager
    }

    /// Returns the log manager.
    pub fn log_manager(&self) -> (lm: &LogManager)
        ensures
            *lm == self.log_manager,
    {
        &self.log_manager
    }
}

} // verus!
