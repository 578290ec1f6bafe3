use depgraph::hash::{content_hash, hex16};
use depgraph::time::{date_of, iso8601};
use std::hash::{Hash, Hasher};

#[test]
fn numbers_have_sixteen_digits() {
    assert_eq!(hex16(0), "0000000000000000");
    assert_eq!(hex16(0x0123_4567_89ab_cdef), "0123456789abcdef");
    assert_eq!(hex16(u64::MAX), "ffffffffffffffff");
    for n in [1u64, 15, 16, 255, 1 << 63, 123456789] {
        assert_eq!(hex16(n), format!("{n:016x}"));
    }
}

#[test]
fn different_numbers_have_different_digits() {
    assert_ne!(hex16(16), hex16(1));
    assert_ne!(hex16(10), hex16(0));
}

#[test]
fn hashes_are_those_of_the_default_hasher() {
    for bytes in [&b""[..], b"a", b"hello world", &[7; 300]] {
        let mut hasher = std::collections::hash_map::DefaultHasher::new();
        bytes.hash(&mut hasher);
        assert_eq!(content_hash(bytes), format!("{:016x}", hasher.finish()));
    }
    assert_ne!(content_hash(b"a"), content_hash(b"b"));
    assert_eq!(content_hash(b"a"), content_hash(b"a"));
    assert_eq!(content_hash(b"a").len(), 16);
}

#[test]
fn moments_are_written_out() {
    assert_eq!(iso8601(0), "1970-01-01T00:00:00Z");
    assert_eq!(iso8601(951_782_399), "2000-02-28T23:59:59Z");
    assert_eq!(iso8601(951_782_400), "2000-02-29T00:00:00Z");
    assert_eq!(iso8601(1_700_000_000), "2023-11-14T22:13:20Z");
    assert_eq!(iso8601(4_107_542_399), "2100-02-28T23:59:59Z");
    assert_eq!(iso8601(4_107_542_400), "2100-03-01T00:00:00Z");
    assert_eq!(iso8601(253_402_300_799), "9999-12-31T23:59:59Z");
    assert_eq!(iso8601(253_402_300_800), "10000-01-01T00:00:00Z");
}

#[test]
fn dates_follow_one_another() {
    assert_eq!(date_of(58), (1970, 2, 28));
    assert_eq!(date_of(59), (1970, 3, 1));
    assert_eq!(date_of(365), (1971, 1, 1));
    assert_eq!(date_of(364), (1970, 12, 31));
    let mut last = (0, 0, 0);
    for day in 0..40_000u64 {
        let date = date_of(day);
        assert!(last < date);
        last = date;
    }
}
