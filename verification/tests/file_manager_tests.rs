use rimple::block_id::BlockId;
use rimple::file_manager::{FileError, FileManager};
use rimple::page::Page;

#[test]
fn block_id_identity_and_equality() {
    let a = BlockId::new(String::from("data.db"), 42);
    assert_eq!(a.block_no(), 42);
    assert_eq!(a.path().as_str(), "data.db");
    let b = BlockId::new(String::from("data.db"), 42);
    let c = BlockId::new(String::from("data.db"), 7);
    let d = BlockId::new(String::from("other.db"), 42);
    assert!(a == b);
    assert!(a != c);
    assert!(a != d);
    let e = a.clone();
    assert!(e == a);
}

#[test]
fn append_block_numbers_are_dense_from_zero() {
    let mut fm = FileManager::new(64);
    let path = String::from("new_file.db");
    assert_eq!(fm.size(&path), 0);
    let first = fm.append_block(&path);
    assert_eq!(first.block_no(), 0);
    let second = fm.append_block(&path);
    assert_eq!(second.block_no(), 1);
    assert_eq!(fm.size(&path), 2);
}

#[test]
fn write_and_read_roundtrip_blocks() {
    let mut fm = FileManager::new(64);
    let path = String::from("wr.bin");
    let bs = fm.block_size();
    assert_eq!(bs, 64);

    let mut p0 = Page::with_size(bs);
    for (i, b) in p0.content_mut().iter_mut().enumerate() {
        *b = (i as u8).wrapping_add(7);
    }
    let mut p3 = Page::with_size(bs);
    for (i, b) in p3.content_mut().iter_mut().enumerate() {
        *b = 255u8.wrapping_sub(i as u8);
    }

    let id0 = BlockId::new(path.clone(), 0);
    assert!(fm.write(&id0, &p0).is_ok());
    // Writing block 3 grows the file through zero-filled blocks 1 and 2.
    let id3 = BlockId::new(path.clone(), 3);
    assert!(fm.write(&id3, &p3).is_ok());
    assert_eq!(fm.size(&path), 4);

    let mut r0 = Page::with_size(bs);
    assert!(fm.read(&id0, &mut r0).is_ok());
    assert_eq!(r0.content(), p0.content());

    let mut r3 = Page::with_size(bs);
    assert!(fm.read(&id3, &mut r3).is_ok());
    assert_eq!(r3.content(), p3.content());

    let id1 = BlockId::new(path.clone(), 1);
    let mut r1 = Page::with_size(bs);
    assert!(fm.read(&id1, &mut r1).is_ok());
    assert!(r1.content().iter().all(|&b| b == 0));
}

#[test]
fn write_overwrites_existing_block() {
    let mut fm = FileManager::new(32);
    let path = String::from("overwrite.bin");
    let id = BlockId::new(path.clone(), 1);

    let mut first = Page::with_size(fm.block_size());
    first.content_mut().fill(0xAA);
    assert!(fm.write(&id, &first).is_ok());

    let mut second = Page::with_size(fm.block_size());
    second.content_mut().fill(0x55);
    assert!(fm.write(&id, &second).is_ok());

    let mut read_back = Page::with_size(fm.block_size());
    assert!(fm.read(&id, &mut read_back).is_ok());
    assert_eq!(read_back.content(), second.content());
}

#[test]
fn read_of_missing_block_fails_out_of_range() {
    let mut fm = FileManager::new(16);
    let absent = BlockId::new(String::from("nowhere.db"), 0);
    let mut page = Page::with_size(16);
    assert!(matches!(fm.read(&absent, &mut page), Err(FileError::BlockOutOfRange)));

    let path = String::from("short.db");
    fm.append_block(&path);
    let past_end = BlockId::new(path.clone(), 1);
    assert!(matches!(fm.read(&past_end, &mut page), Err(FileError::BlockOutOfRange)));
    // The failed reads left the page untouched.
    assert!(page.content().iter().all(|&b| b == 0));

    let ok = BlockId::new(path, 0);
    assert!(fm.read(&ok, &mut page).is_ok());
}

#[test]
fn files_are_kept_apart_by_name() {
    let mut fm = FileManager::new(8);
    let a = String::from("a.tbl");
    let b = String::from("b.tbl");
    let ba = fm.append_block(&a);
    fm.append_block(&b);
    let mut page = Page::with_size(8);
    page.content_mut().fill(9);
    assert!(fm.write(&ba, &page).is_ok());
    assert_eq!(fm.size(&a), 1);
    assert_eq!(fm.size(&b), 1);
    let mut back = Page::with_size(8);
    assert!(fm.read(&BlockId::new(b, 0), &mut back).is_ok());
    assert!(back.content().iter().all(|&x| x == 0));
}
