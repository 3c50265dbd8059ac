use rimple::page::{Page, PageError};

#[test]
fn with_size_initializes_zeroes_and_len() {
    let p = Page::with_size(8);
    assert_eq!(p.len(), 8);
    assert!(p.content().iter().all(|&b| b == 0));
}

#[test]
fn with_bytes_get_integer_big_endian() {
    let p = Page::with_bytes(vec![0x00, 0x00, 0x00, 0x7F]);
    let res = p.get_integer(0);
    assert!(matches!(res, Ok(n) if n == 127));
}

#[test]
fn set_get_integer_roundtrip_and_bytes() {
    let mut p = Page::with_size(8);
    let v: i32 = -123456;
    assert!(matches!(p.set_integer(0, v), Ok(())));
    assert!(matches!(p.get_integer(0), Ok(n) if n == v));
    assert_eq!(&p.content()[0..4], &v.to_be_bytes());
}

#[test]
fn set_get_bytes_roundtrip() {
    let mut p = Page::with_size(16);
    assert!(matches!(p.set_bytes(0, b"abc"), Ok(())));
    let res = p.get_bytes(0);
    assert!(matches!(res, Ok(bytes) if bytes == b"abc".to_vec()));
    assert_eq!(&p.content()[0..4], &3i32.to_be_bytes());
    assert_eq!(&p.content()[4..7], b"abc");
}

#[test]
fn set_get_string_roundtrip() {
    let mut p = Page::with_size(16);
    assert!(matches!(p.set_string(0, "hello"), Ok(())));
    assert!(matches!(p.get_string(0), Ok(s) if s == "hello"));
}

#[test]
fn out_of_bounds_on_get_integer() {
    let p = Page::with_size(8);
    let res = p.get_integer(6);
    assert!(matches!(res, Err(PageError::OutOfBounds)));
}

#[test]
fn out_of_bounds_on_set_integer() {
    let mut p = Page::with_size(8);
    let res = p.set_integer(6, 1);
    assert!(matches!(res, Err(PageError::OutOfBounds)));
}

#[test]
fn out_of_bounds_on_get_bytes_offset() {
    let p = Page::with_size(8);
    let res = p.get_bytes(6);
    assert!(matches!(res, Err(PageError::OutOfBounds)));
}

#[test]
fn size_exceeded_on_set_bytes() {
    let mut p = Page::with_size(5);
    let res = p.set_bytes(0, b"abcdef");
    match res {
        Err(PageError::SizeExceeded {
            requested,
            available,
        }) => {
            assert_eq!(requested, 10);
            assert_eq!(available, 5);
        }
        _ => panic!("expected SizeExceeded error"),
    }
}

#[test]
fn invalid_utf8_get_string() {
    let mut p = Page::with_size(16);
    assert!(matches!(p.set_bytes(0, &[0xFF, 0xFE, 0xFA]), Ok(())));
    let res = p.get_string(0);
    assert!(matches!(res, Err(PageError::InvalidData)));
}

#[test]
fn content_accessors_and_len() {
    let mut p = Page::with_size(4);
    let buf = p.content_mut();
    buf.copy_from_slice(&[1, 2, 3, 4]);
    assert_eq!(p.len(), 4);
    assert!(matches!(p.get_integer(0), Ok(n) if n == 0x01020304));
}

#[test]
fn get_bytes_length_overflow_returns_error() {
    let mut p = Page::with_size(8);
    // A stored length larger than the space left (10 > 8) is invalid.
    assert!(matches!(p.set_integer(0, 10), Ok(())));
    let res = p.get_bytes(0);
    assert!(matches!(res, Err(PageError::InvalidData)));
}

#[test]
fn get_bytes_negative_length_invalid_data() {
    let mut p = Page::with_size(8);
    // A negative stored length must be treated as invalid.
    assert!(matches!(p.set_integer(0, -1), Ok(())));
    let res = p.get_bytes(0);
    assert!(matches!(res, Err(PageError::InvalidData)));
}

#[test]
fn empty_and_maximal_payload_roundtrip() {
    let mut p = Page::with_size(16);
    assert!(matches!(p.set_bytes(0, b""), Ok(())));
    assert!(matches!(p.get_bytes(0), Ok(bytes) if bytes.is_empty()));
    // A payload of 12 bytes fills a 16-byte page exactly after its
    // 4-byte length prefix.
    let full = [7u8; 12];
    assert!(matches!(p.set_bytes(0, &full), Ok(())));
    assert!(matches!(p.get_bytes(0), Ok(bytes) if bytes == full.to_vec()));
    // One more byte no longer fits.
    let over = [7u8; 13];
    assert!(matches!(
        p.set_bytes(0, &over),
        Err(PageError::SizeExceeded { requested: 17, available: 16 })
    ));
    // An empty string round-trips too.
    assert!(matches!(p.set_string(0, ""), Ok(())));
    assert!(matches!(p.get_string(0), Ok(s) if s.is_empty()));
}

#[test]
fn max_length_counts_prefix_and_utf8_bytes() {
    assert_eq!(Page::max_length(""), 4);
    assert_eq!(Page::max_length("hello"), 9);
    // Multi-byte UTF-8: é is two bytes.
    assert_eq!(Page::max_length("é"), 6);
}

#[test]
fn set_integer_at_interior_offset_leaves_rest() {
    let mut p = Page::with_size(12);
    assert!(matches!(p.set_integer(4, 0x0A0B0C0D), Ok(())));
    assert_eq!(p.content()[0..4], [0, 0, 0, 0]);
    assert_eq!(p.content()[4..8], [0x0A, 0x0B, 0x0C, 0x0D]);
    assert_eq!(p.content()[8..12], [0, 0, 0, 0]);
    assert!(matches!(p.get_integer(4), Ok(n) if n == 0x0A0B0C0D));
}
