use interceptor::ptr::{bytes_eq, clone_bytes, concat_c_strings, split_c_strings, MayBePtr, Number, Ptr};
use interceptor::trace::{append_string_mirror, in_place_write_bytes, scan_chunk, u64_from_le8};

fn v(bytes: &[u8]) -> Vec<u8> {
    let mut r = Vec::new();
    for b in bytes {
        r.push(*b);
    }
    r
}

#[test]
fn split_flat_buffer_into_strings() {
    // the flat form of execve's ["sh", "-c", "echo hi", NULL]
    let flat = v(b"sh\0-c\0echo hi\0\0");
    let parts = split_c_strings(&flat);
    assert_eq!(parts.len(), 3);
    assert_eq!(parts[0], v(b"sh\0"));
    assert_eq!(parts[1], v(b"-c\0"));
    assert_eq!(parts[2], v(b"echo hi\0"));
}

#[test]
fn split_stops_at_terminator_and_drops_tail_without_nul() {
    assert_eq!(split_c_strings(&v(b"\0whatever")).len(), 0);
    assert_eq!(split_c_strings(&v(b"")).len(), 0);
    // no NUL at all: no complete string
    assert_eq!(split_c_strings(&v(b"abc")).len(), 0);
    // a complete string followed by an unterminated tail keeps only the first
    let parts = split_c_strings(&v(b"ab\0cd"));
    assert_eq!(parts.len(), 1);
    assert_eq!(parts[0], v(b"ab\0"));
}

#[test]
fn concat_is_the_inverse_of_split() {
    let flat = v(b"sh\0-c\0echo hi\0\0");
    let parts = split_c_strings(&flat);
    let back = concat_c_strings(&parts);
    // everything up to the terminating NUL is reproduced byte for byte
    assert_eq!(back, v(b"sh\0-c\0echo hi\0"));
}

#[test]
fn iter_walks_nul_terminated_chunks() {
    let mbp = MayBePtr { inner: v(b"a\0bc\0\0"), origin: 0x100 };
    let mut it = mbp.iter();
    assert_eq!(it.next(&mbp), Some(v(b"a\0")));
    assert_eq!(it.next(&mbp), Some(v(b"bc\0")));
    assert_eq!(it.next(&mbp), Some(v(b"\0")));
    assert_eq!(it.next(&mbp), None);
}

#[test]
fn in_place_writeback_keeps_shorter_buffer() {
    // openat("1.c") rewritten in place to "2.c": the kernel sees "2.c"
    let orig = v(b"1.c\0");
    let new = v(b"2.c\0");
    assert_eq!(in_place_write_bytes(&orig, &new), v(b"2.c\0"));
}

#[test]
fn in_place_writeback_truncates_longer_buffer() {
    // growing the string without replacing the pointer truncates to the
    // original length: a documented contract, not a bug
    let orig = v(b"1.c\0");
    let new = v(b"1.cpp\0");
    assert_eq!(in_place_write_bytes(&orig, &new), v(b"1.cp"));
}

#[test]
fn in_place_writeback_of_unchanged_buffer_is_identity() {
    // read a string, do not modify it, write it back: unchanged byte for byte
    let orig = v(b"hello\0");
    assert_eq!(in_place_write_bytes(&orig, &orig), orig);
}

#[test]
fn le_bytes_decode() {
    assert_eq!(u64_from_le8(&v(&[0, 0, 0, 0, 0, 0, 0, 0])), 0);
    assert_eq!(u64_from_le8(&v(&[1, 0, 0, 0, 0, 0, 0, 0])), 1);
    assert_eq!(u64_from_le8(&v(&[0x78, 0x56, 0x34, 0x12, 0, 0, 0, 0])), 0x12345678);
    assert_eq!(
        u64_from_le8(&v(&[0xff, 0xff, 0xff, 0xff, 0xff, 0xff, 0xff, 0xff])),
        u64::MAX
    );
}

#[test]
fn integer_conversions_round_trip() {
    // a zero register round-trips as 0
    assert_eq!(u64::from_u64(0).to_u64(), 0);
    assert_eq!(i32::from_u64(u64::MAX), -1);
    assert_eq!((-1i32).to_u64(), u64::MAX);
    assert_eq!(u8::from_u64(0x1ff), 0xff);
    assert_eq!(i64::from_u64(5).to_u64(), 5);
    assert_eq!(usize::from_u64(42), 42usize);
}

#[test]
fn integer_mirror_hands_out_its_value() {
    let m = MayBePtr { inner: 7u64, origin: 7 };
    assert_eq!(m.get(), 7u64);
    let s = MayBePtr { inner: v(b"x\0"), origin: 0x20 };
    assert_eq!(s.get_bytes(), v(b"x\0"));
}

#[test]
fn byte_helpers() {
    assert!(bytes_eq(&v(b"abc"), &v(b"abc")));
    assert!(!bytes_eq(&v(b"abc"), &v(b"abd")));
    assert!(!bytes_eq(&v(b"abc"), &v(b"ab")));
    assert_eq!(clone_bytes(&v(b"xy")), v(b"xy"));
}

#[test]
fn scan_chunk_appends_through_the_first_nul() {
    let buf = v(b"ab\0cdefg");
    let mut data = v(b"x");
    // a NUL among the bytes read: the prefix through it joins the mirror and
    // the walk is done
    assert!(scan_chunk(&mut data, &buf, 8));
    assert_eq!(data, v(b"xab\0"));
    // no NUL among the bytes read: they join whole and the walk goes on
    let mut data2 = v(b"");
    assert!(!scan_chunk(&mut data2, &buf, 2));
    assert_eq!(data2, v(b"ab"));
    // nothing read: nothing appended, walk goes on (the caller stops it)
    let mut data3 = v(b"y");
    assert!(!scan_chunk(&mut data3, &buf, 0));
    assert_eq!(data3, v(b"y"));
}

#[test]
fn append_string_mirror_closes_on_empty() {
    let mut inner = v(b"sh\0");
    assert!(!append_string_mirror(&mut inner, &v(b"-c\0")));
    assert_eq!(inner, v(b"sh\0-c\0"));
    assert!(append_string_mirror(&mut inner, &v(b"")));
    assert_eq!(inner, v(b"sh\0-c\0\0"));
}
