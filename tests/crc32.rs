use leveldb::crc32;
use leveldb::crc32::{unmask, value};

#[test]
pub fn startd_results() {
    assert_eq!(value(b"123456789"), 0xe3069283);
}

#[test]
pub fn values() {
    assert_ne!(value("a".as_bytes()), value("foo".as_bytes()));
}

#[test]
pub fn mask() {
    let crc = value("foo".as_bytes());
    assert_ne!(crc32::mask(crc), crc);
    assert_ne!(crc32::mask(crc32::mask(crc)), crc);
    assert_eq!(unmask(crc32::mask(crc)), crc);
    assert_eq!(unmask(unmask(crc32::mask(crc32::mask(crc)))), crc);
}

#[test]
fn mask_known_values() {
    assert_eq!(crc32::mask(0), 0xa282ead8);
    assert_eq!(crc32::mask(0x8000), 0xa282ead9);
    assert_eq!(unmask(0xa282ead8), 0);
}

#[test]
fn mask_round_trip_on_samples() {
    for x in [1u32, 2, 0x7fff, 0x8000, 0xdeadbeef, 0xffffffff, 0xe3069283] {
        assert_eq!(unmask(crc32::mask(x)), x);
        assert_eq!(crc32::mask(unmask(x)), x);
        assert_ne!(crc32::mask(x), x);
    }
}

#[test]
fn checksum_of_empty_input() {
    assert_eq!(value(b""), 0);
}
