use rimple::db::SimpleDB;
use rimple::log_manager::LogManager;
use rimple::page::Page;

fn create_log_record(s: String, i: i32) -> Vec<u8> {
    let npos = Page::max_length(&s);
    let mut page = Page::with_size(npos + 4);
    page.set_string(0, &s)
        .expect("Failed to write string to log record");
    page.set_integer(npos, i)
        .expect("Failed to write integer to log record");
    page.content().to_vec()
}

fn append_log_records(db: &mut SimpleDB, start: usize, end: usize) {
    println!("Appending log records from {} to {}", start, end);
    for i in start..=end {
        let record = create_log_record(format!("record{}", i), (i + 1000) as i32);
        let lsn = db.log_manager.append(&mut db.file_manager, &record);
        println!("Appended log record {} with LSN {}", i, lsn);
    }
    println!()
}

fn print_log_records(db: &SimpleDB) {
    println!("The log file contains the following records:");
    let mut it = db.log_manager.iter(&db.file_manager);
    while let Some(entry) = it.next(&db.file_manager) {
        let page = Page::with_bytes(entry);
        let s = page
            .get_string(0)
            .expect("Failed to read string from log record");
        let i = page
            .get_integer(Page::max_length(&s))
            .expect("Failed to read integer from log record");
        println!("{}: {}", s, i);
    }
    println!()
}

fn scan_log_payloads(db: &SimpleDB) -> Vec<(String, i32)> {
    let mut out = Vec::new();
    let mut it = db.log_manager.iter(&db.file_manager);
    while let Some(entry) = it.next(&db.file_manager) {
        let page = Page::with_bytes(entry);
        let s = page.get_string(0).expect("log record string");
        let i = page
            .get_integer(Page::max_length(&s))
            .expect("log record integer");
        out.push((s, i));
    }
    out
}

#[test]
fn example_run() {
    let mut db = SimpleDB::new("mydb", 400);
    append_log_records(&mut db, 1, 35);
    print_log_records(&db);
    append_log_records(&mut db, 36, 70);
    db.log_manager.flush(&mut db.file_manager, 65);
    print_log_records(&db);
}

#[test]
fn create_a_new_database() {
    let _db = SimpleDB::new("mydb", 4096);
}

#[test]
fn append_rolls_over_and_flushes_prior_tail() {
    // Block size 64: each record below occupies 20 bytes packed, so the
    // fourth append no longer fits beside the 4-byte boundary and forces
    // a rollover.
    let mut db = SimpleDB::new("mydb", 64);
    let log_path = String::from("mydb/simpledb.log");
    assert_eq!(db.file_manager.size(&log_path), 1);

    for i in 1..=3 {
        let record = create_log_record(format!("entry{:03}", i), i);
        db.log_manager.append(&mut db.file_manager, &record);
    }
    // Nothing flushed yet: a scan sees no records, and the file still has
    // its single block.
    assert_eq!(db.file_manager.size(&log_path), 1);
    assert!(scan_log_payloads(&db).is_empty());

    let record = create_log_record(String::from("entry004"), 4);
    db.log_manager.append(&mut db.file_manager, &record);

    // The rollover allocated a new block and flushed the prior tail: the
    // first three records are durable without any explicit flush.
    assert_eq!(db.file_manager.size(&log_path), 2);
    let scanned = scan_log_payloads(&db);
    assert_eq!(scanned.len(), 3);
    assert_eq!(scanned[0], (String::from("entry003"), 3));
    assert_eq!(scanned[1], (String::from("entry002"), 2));
    assert_eq!(scanned[2], (String::from("entry001"), 1));
}

#[test]
fn iteration_is_reverse_chronological() {
    let mut db = SimpleDB::new("mydb", 64);
    let mut last_lsn = 0;
    for i in 1..=9 {
        let record = create_log_record(format!("rev{:02}", i), 100 + i);
        last_lsn = db.log_manager.append(&mut db.file_manager, &record);
    }
    assert_eq!(last_lsn, 9);
    db.log_manager.flush(&mut db.file_manager, last_lsn);
    let scanned = scan_log_payloads(&db);
    assert_eq!(scanned.len(), 9);
    for (k, (s, i)) in scanned.iter().enumerate() {
        let expect = 9 - k as i32;
        assert_eq!(s.as_str(), format!("rev{:02}", expect));
        assert_eq!(*i, 100 + expect);
    }
}

#[test]
fn full_scenario_seventy_records_descending() {
    // Seventy records roll over several blocks; flushing up to record
    // 65's LSN writes the whole tail page, so every record becomes
    // durable.
    let mut db = SimpleDB::new("mydb", 400);
    let mut lsn_of_65 = 0;
    for i in 1..=70usize {
        let record = create_log_record(format!("record{}", i), (i + 1000) as i32);
        let lsn = db.log_manager.append(&mut db.file_manager, &record);
        assert_eq!(lsn, i);
        if i == 65 {
            lsn_of_65 = lsn;
        }
    }
    db.log_manager.flush(&mut db.file_manager, lsn_of_65);

    let scanned = scan_log_payloads(&db);
    assert_eq!(scanned.len(), 70);
    for (k, (s, i)) in scanned.iter().enumerate() {
        let expect = 70 - k;
        assert_eq!(s.as_str(), format!("record{}", expect));
        assert_eq!(*i as usize, 1000 + expect);
    }
    // Strictly descending numeric payloads.
    for w in scanned.windows(2) {
        assert!(w[0].1 > w[1].1);
    }
}

#[test]
fn tiny_blocks_scenario_seventy_records() {
    // At block size 64 only three records fit a block, so appending
    // record 70 itself rolls over and marks LSNs through 69 durable; a
    // flush for the older LSN 65 is then a no-op and record 70 stays in
    // memory until a flush covers it.
    let mut db = SimpleDB::new("mydb", 64);
    for i in 1..=70usize {
        let record = create_log_record(format!("record{}", i), (i + 1000) as i32);
        let lsn = db.log_manager.append(&mut db.file_manager, &record);
        assert_eq!(lsn, i);
    }
    db.log_manager.flush(&mut db.file_manager, 65);
    assert_eq!(scan_log_payloads(&db).len(), 69);

    db.log_manager.flush(&mut db.file_manager, 70);
    let scanned = scan_log_payloads(&db);
    assert_eq!(scanned.len(), 70);
    for (k, (s, i)) in scanned.iter().enumerate() {
        let expect = 70 - k;
        assert_eq!(s.as_str(), format!("record{}", expect));
        assert_eq!(*i as usize, 1000 + expect);
    }
}

#[test]
fn reopened_log_preserves_records_and_tail() {
    let mut db = SimpleDB::new("mydb", 64);
    for i in 1..=7 {
        let record = create_log_record(format!("old{:02}", i), i);
        db.log_manager.append(&mut db.file_manager, &record);
    }
    db.log_manager.flush(&mut db.file_manager, 7);

    // Opening the log anew over the same store finds the existing blocks:
    // the same records come back, and appending carries on in the tail.
    let mut reopened = LogManager::new(&mut db.file_manager, String::from("mydb/simpledb.log"));
    let mut it = reopened.iter(&db.file_manager);
    let mut seen = Vec::new();
    while let Some(entry) = it.next(&db.file_manager) {
        let page = Page::with_bytes(entry);
        let s = page.get_string(0).expect("record string");
        seen.push(s);
    }
    assert_eq!(seen.len(), 7);
    assert_eq!(seen[0], "old07");
    assert_eq!(seen[6], "old01");

    let record = create_log_record(String::from("old08"), 8);
    let lsn = reopened.append(&mut db.file_manager, &record);
    // The reopened manager numbers its own appends from 1.
    assert_eq!(lsn, 1);
    reopened.flush(&mut db.file_manager, lsn);
    let mut it = reopened.iter(&db.file_manager);
    let newest = it.next(&db.file_manager).expect("appended record");
    let page = Page::with_bytes(newest);
    assert_eq!(page.get_string(0).expect("string"), "old08");
}

#[test]
fn flush_below_saved_lsn_is_a_no_op() {
    let mut db = SimpleDB::new("mydb", 400);
    for i in 1..=5 {
        let record = create_log_record(format!("keep{}", i), i);
        db.log_manager.append(&mut db.file_manager, &record);
    }
    db.log_manager.flush(&mut db.file_manager, 5);
    assert_eq!(scan_log_payloads(&db).len(), 5);
    // Everything durable already: a flush for an older LSN changes nothing.
    db.log_manager.flush(&mut db.file_manager, 1);
    assert_eq!(scan_log_payloads(&db).len(), 5);
}
