use leveldb::result::{Error, ErrorType};
use leveldb::slice::Slice;
use std::cmp::Ordering;

#[test]
fn compare_is_bytewise_with_prefix_first() {
    let ab = Slice::new(b"ab");
    let abc = Slice::new(b"abc");
    let abd = Slice::new(b"abd");
    assert_eq!(ab.compare(&abc), Ordering::Less);
    assert_eq!(abc.compare(&ab), Ordering::Greater);
    assert_eq!(abc.compare(&abd), Ordering::Less);
    assert_eq!(abd.compare(&abc), Ordering::Greater);
    assert_eq!(abc.compare(&Slice::new(b"abc")), Ordering::Equal);
    assert_eq!(Slice::new_empty().compare(&Slice::new(b"")), Ordering::Equal);
    assert_eq!(Slice::new(&[0xff]).compare(&Slice::new(&[0x01, 0x00])), Ordering::Greater);
}

#[test]
fn skip_starts_with_and_clear() {
    let mut s = Slice::new(b"hello world");
    assert_eq!(s.len(), 11);
    assert!(s.starts_with(&Slice::new(b"hello")));
    assert!(!s.starts_with(&Slice::new(b"world")));
    assert!(!Slice::new(b"he").starts_with(&Slice::new(b"hello")));
    s.skip(6);
    assert_eq!(s.data(), b"world");
    assert_eq!(s.index(0), b'w');
    assert_eq!(s.to_string(), "world");
    assert!(!s.empty());
    s.clear();
    assert!(s.empty());
    assert_eq!(s.raw_data().len(), 0);
}

#[test]
fn to_string_replaces_invalid_utf8() {
    assert_eq!(Slice::new(&[b'a', 0xff, b'b']).to_string(), "a\u{fffd}b");
    assert_eq!(Slice::new(b"").to_string(), "");
}

#[test]
fn error_text() {
    assert_eq!(ErrorType::NotFound.as_str(), "NotFoundError");
    assert_eq!(ErrorType::IOError.as_str(), "IOError");
    let e = Error::new(ErrorType::Corruption, "bad block");
    assert_eq!(e.error_type(), ErrorType::Corruption);
    assert_eq!(e.description(), "bad block");
    assert_eq!(e.to_string(), "LevelDB CorruptionError: bad block");
    assert_eq!(Error::new(ErrorType::InvalidArgument, "").to_string(), "LevelDB InvalidArgumentError");
}

#[test]
fn slices_are_equal_by_bytes() {
    let owned = vec![b'a', b'b'];
    assert!(Slice::new(&owned) == Slice::new(b"ab"));
    assert!(Slice::new(b"ab") != Slice::new(b"abc"));
    assert!(Slice::new_empty() == Slice::new(b""));
}
