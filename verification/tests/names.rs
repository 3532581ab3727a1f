use interceptor::table::{hex_bytes, load_syscall_table, parse_line, parse_u64, trimmed_bytes};

fn v(bytes: &[u8]) -> Vec<u8> {
    let mut r = Vec::new();
    for b in bytes {
        r.push(*b);
    }
    r
}

#[test]
fn parse_decimal_numbers() {
    assert_eq!(parse_u64(&v(b"123")), Some(123));
    assert_eq!(parse_u64(&v(b"0")), Some(0));
    assert_eq!(parse_u64(&v(b" 42 ")), Some(42));
    assert_eq!(parse_u64(&v(b"18446744073709551615")), Some(u64::MAX));
    assert_eq!(parse_u64(&v(b"18446744073709551616")), None);
    assert_eq!(parse_u64(&v(b"999999999999999999999999")), None);
    assert_eq!(parse_u64(&v(b"")), None);
    assert_eq!(parse_u64(&v(b"  ")), None);
    assert_eq!(parse_u64(&v(b"12a")), None);
    assert_eq!(parse_u64(&v(b"-1")), None);
}

#[test]
fn trim_strips_surrounding_whitespace() {
    assert_eq!(trimmed_bytes(&v(b"  read\t\n")), v(b"read"));
    assert_eq!(trimmed_bytes(&v(b"read")), v(b"read"));
    assert_eq!(trimmed_bytes(&v(b"   ")), v(b""));
}

#[test]
fn parse_single_lines() {
    assert_eq!(parse_line(&v(b"0\tread")), Some((0, v(b"read"))));
    assert_eq!(parse_line(&v(b" 257 \t openat ")), Some((257, v(b"openat"))));
    // a line without a tab is malformed
    assert_eq!(parse_line(&v(b"0 read")), None);
    // so is one whose number does not parse
    assert_eq!(parse_line(&v(b"x\tread")), None);
}

#[test]
fn load_table_and_look_names_up() {
    let t = load_syscall_table(&v(b"0\tread\n1\twrite\n257\topenat\n")).unwrap();
    assert_eq!(t.get(0), Some(&v(b"read")));
    assert_eq!(t.get(1), Some(&v(b"write")));
    assert_eq!(t.get(257), Some(&v(b"openat")));
    assert_eq!(t.get(2), None);
}

#[test]
fn trailing_newline_makes_no_difference() {
    let with = load_syscall_table(&v(b"0\tread\n1\twrite\n")).unwrap();
    let without = load_syscall_table(&v(b"0\tread\n1\twrite")).unwrap();
    for no in [0u64, 1, 2] {
        assert_eq!(with.get(no), without.get(no));
    }
}

#[test]
fn one_malformed_line_spoils_the_table() {
    assert!(load_syscall_table(&v(b"0\tread\nbroken\n1\twrite\n")).is_none());
}

#[test]
fn duplicate_number_later_line_wins() {
    let t = load_syscall_table(&v(b"5\tfirst\n5\tsecond\n")).unwrap();
    assert_eq!(t.get(5), Some(&v(b"second")));
}

#[test]
fn empty_text_gives_an_empty_table() {
    let t = load_syscall_table(&v(b"")).unwrap();
    assert_eq!(t.get(0), None);
}

#[test]
fn hex_text_of_syscall_numbers() {
    assert_eq!(hex_bytes(0), v(b"0"));
    assert_eq!(hex_bytes(1), v(b"1"));
    assert_eq!(hex_bytes(10), v(b"a"));
    assert_eq!(hex_bytes(0x1ff), v(b"1ff"));
    assert_eq!(hex_bytes(u64::MAX), v(b"ffffffffffffffff"));
}
