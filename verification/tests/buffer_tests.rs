use rimple::block_id::BlockId;
use rimple::buffer_manager::BufferError;
use rimple::db::SimpleDB;
use rimple::page::Page;

fn db_with_data_blocks(block_size: usize, blocks: u64) -> (SimpleDB, String) {
    let mut db = SimpleDB::new("mydb", block_size);
    let path = String::from("mydb/table.tbl");
    for _ in 0..blocks {
        db.file_manager.append_block(&path);
    }
    (db, path)
}

fn log_record_bytes(s: &str, i: i32) -> Vec<u8> {
    let npos = Page::max_length(s);
    let mut page = Page::with_size(npos + 4);
    page.set_string(0, s).expect("record string");
    page.set_integer(npos, i).expect("record integer");
    page.content().to_vec()
}

#[test]
fn pin_accounting_exhausts_and_recovers() {
    let (mut db, path) = db_with_data_blocks(64, 10);
    assert_eq!(db.buffer_manager.available(), 8);

    let mut pinned = Vec::new();
    for n in 0..8u64 {
        let block = BlockId::new(path.clone(), n);
        let idx = db
            .buffer_manager
            .pin(&mut db.file_manager, &mut db.log_manager, &block)
            .expect("a free slot must take the pin");
        pinned.push(idx);
        assert_eq!(db.buffer_manager.available(), 8 - (n as usize) - 1);
    }
    assert_eq!(db.buffer_manager.available(), 0);

    // With every slot pinned, a further pin of a non-resident block can
    // only time out, and the pool is unchanged.
    let ninth = BlockId::new(path.clone(), 8);
    let res = db
        .buffer_manager
        .pin(&mut db.file_manager, &mut db.log_manager, &ninth);
    assert!(matches!(res, Err(BufferError::Timeout)));
    assert_eq!(db.buffer_manager.available(), 0);

    // Releasing any one pin restores a slot, and the blocked pin succeeds.
    db.buffer_manager.unpin(pinned[3]);
    assert_eq!(db.buffer_manager.available(), 1);
    let idx = db
        .buffer_manager
        .pin(&mut db.file_manager, &mut db.log_manager, &ninth)
        .expect("a slot was freed");
    assert_eq!(idx, pinned[3]);
    assert_eq!(db.buffer_manager.available(), 0);
}

#[test]
fn pin_of_resident_block_evicts_nothing() {
    let (mut db, path) = db_with_data_blocks(64, 4);
    let a = BlockId::new(path.clone(), 0);
    let b = BlockId::new(path.clone(), 1);

    let ia = db
        .buffer_manager
        .pin(&mut db.file_manager, &mut db.log_manager, &a)
        .expect("pin a");
    let ib = db
        .buffer_manager
        .pin(&mut db.file_manager, &mut db.log_manager, &b)
        .expect("pin b");
    assert_ne!(ia, ib);
    assert_eq!(db.buffer_manager.available(), 6);

    // Pinning a again finds the same buffer: no eviction, no slot taken.
    let ia2 = db
        .buffer_manager
        .pin(&mut db.file_manager, &mut db.log_manager, &a)
        .expect("repin a");
    assert_eq!(ia2, ia);
    assert_eq!(db.buffer_manager.available(), 6);
    assert!(db.buffer_manager.buffer(ib).block_id() == Some(&b));
    assert!(db.buffer_manager.buffer(ia).block_id() == Some(&a));

    // Two unpins are needed before the doubly pinned buffer frees up.
    db.buffer_manager.unpin(ia);
    assert!(db.buffer_manager.buffer(ia).is_pinned());
    assert_eq!(db.buffer_manager.available(), 6);
    db.buffer_manager.unpin(ia);
    assert!(!db.buffer_manager.buffer(ia).is_pinned());
    assert_eq!(db.buffer_manager.available(), 7);
}

#[test]
fn pin_of_missing_block_times_out_without_eviction() {
    let (mut db, path) = db_with_data_blocks(64, 2);
    let beyond = BlockId::new(path.clone(), 5);
    let res = db
        .buffer_manager
        .pin(&mut db.file_manager, &mut db.log_manager, &beyond);
    assert!(matches!(res, Err(BufferError::Timeout)));
    assert_eq!(db.buffer_manager.available(), 8);
}

#[test]
fn eviction_takes_first_unpinned_slot() {
    let (mut db, path) = db_with_data_blocks(64, 12);
    let mut indices = Vec::new();
    for n in 0..8u64 {
        let block = BlockId::new(path.clone(), n);
        indices.push(
            db.buffer_manager
                .pin(&mut db.file_manager, &mut db.log_manager, &block)
                .expect("pin"),
        );
    }
    db.buffer_manager.unpin(indices[2]);
    db.buffer_manager.unpin(indices[6]);
    // The linear scan repurposes the earliest unpinned slot.
    let fresh = BlockId::new(path.clone(), 9);
    let idx = db
        .buffer_manager
        .pin(&mut db.file_manager, &mut db.log_manager, &fresh)
        .expect("evicting pin");
    assert_eq!(idx, indices[2].min(indices[6]));
    assert!(db.buffer_manager.buffer(idx).block_id() == Some(&fresh));
}

#[test]
fn flush_makes_log_record_durable_before_data() {
    let (mut db, path) = db_with_data_blocks(64, 3);
    let block = BlockId::new(path.clone(), 1);
    let idx = db
        .buffer_manager
        .pin(&mut db.file_manager, &mut db.log_manager, &block)
        .expect("pin");

    // Append the log record describing a modification, mark the buffer.
    let record = log_record_bytes("update1", 77);
    let lsn = db.log_manager.append(&mut db.file_manager, &record);
    assert_eq!(lsn, 1);
    db.buffer_manager
        .buffer_mut(idx)
        .set_modified(3, lsn as i32);
    assert_eq!(db.buffer_manager.buffer(idx).modifying_txn(), 3);

    // Nothing durable yet: the log scan is empty.
    let mut it = db.log_manager.iter(&db.file_manager);
    assert!(it.next(&db.file_manager).is_none());

    // Committing transaction 3 flushes its buffer; the log record must
    // then be observable in a scan (write-ahead order).
    db.buffer_manager
        .flush_all(&mut db.file_manager, &mut db.log_manager, 3);

    let mut it = db.log_manager.iter(&db.file_manager);
    let first = it.next(&db.file_manager).expect("the record is durable");
    assert_eq!(first, record);
    assert!(it.next(&db.file_manager).is_none());

    // And the data block on disk now equals the buffer's page.
    let mut check = Page::with_size(64);
    assert!(db.file_manager.read(&block, &mut check).is_ok());
    assert_eq!(check.content(), db.buffer_manager.buffer(idx).contents().content());
}

#[test]
fn flush_all_leaves_other_transactions_alone() {
    let (mut db, path) = db_with_data_blocks(64, 4);
    let b0 = BlockId::new(path.clone(), 0);
    let b1 = BlockId::new(path.clone(), 1);
    let i0 = db
        .buffer_manager
        .pin(&mut db.file_manager, &mut db.log_manager, &b0)
        .expect("pin b0");
    let i1 = db
        .buffer_manager
        .pin(&mut db.file_manager, &mut db.log_manager, &b1)
        .expect("pin b1");

    let r1 = log_record_bytes("txn5", 5);
    let lsn1 = db.log_manager.append(&mut db.file_manager, &r1);
    db.buffer_manager.buffer_mut(i0).set_modified(5, lsn1 as i32);
    let r2 = log_record_bytes("txn6", 6);
    let lsn2 = db.log_manager.append(&mut db.file_manager, &r2);
    db.buffer_manager.buffer_mut(i1).set_modified(6, lsn2 as i32);

    db.buffer_manager
        .flush_all(&mut db.file_manager, &mut db.log_manager, 5);

    // Transaction 6's buffer still carries its mark; transaction 5's
    // flush wrote the whole tail page, so both records happen to be
    // durable, but only block 0 was written for data.
    assert_eq!(db.buffer_manager.buffer(i1).modifying_txn(), 6);
    assert_eq!(db.buffer_manager.buffer(i0).modifying_txn(), 5);
}
