use advent_puzzles::text::{
    lines, parse_i64, parse_u64, parse_usize, split_any, split_at_byte, trim,
};

fn strs(parts: Vec<Vec<u8>>) -> Vec<String> {
    parts.into_iter().map(|p| String::from_utf8(p).unwrap()).collect()
}

#[test]
fn splitting() {
    assert_eq!(strs(split_at_byte(b"a,b,,c", b',')), vec!["a", "b", "", "c"]);
    assert_eq!(strs(split_at_byte(b"", b',')), vec![""]);
    assert_eq!(strs(split_at_byte(b",", b',')), vec!["", ""]);
    assert_eq!(strs(split_any(b"[ab]{c}", b"[]{}")), vec!["", "ab", "", "c", ""]);
}

#[test]
fn trimming() {
    assert_eq!(trim(b"  a b\t\r\n"), b"a b".to_vec());
    assert_eq!(trim(b" \n "), b"".to_vec());
    assert_eq!(trim(b""), b"".to_vec());
    assert_eq!(trim(b"x"), b"x".to_vec());
}

#[test]
fn lines_of_text() {
    assert_eq!(strs(lines(b"a\nb\n")), vec!["a", "b"]);
    assert_eq!(strs(lines(b"a\r\nb")), vec!["a", "b"]);
    assert_eq!(strs(lines(b"a\n\nb")), vec!["a", "", "b"]);
    assert_eq!(strs(lines(b"")), Vec::<String>::new());
    assert_eq!(strs(lines(b"\n")), vec![""]);
}

#[test]
fn numbers() {
    assert_eq!(parse_u64(b"0"), Some(0));
    assert_eq!(parse_u64(b"+17"), Some(17));
    assert_eq!(parse_u64(b"007"), Some(7));
    assert_eq!(parse_u64(b"18446744073709551615"), Some(u64::MAX));
    assert_eq!(parse_u64(b"18446744073709551616"), None);
    assert_eq!(parse_u64(b"99999999999999999999999"), None);
    assert_eq!(parse_u64(b""), None);
    assert_eq!(parse_u64(b"+"), None);
    assert_eq!(parse_u64(b"-1"), None);
    assert_eq!(parse_u64(b"1a"), None);
    assert_eq!(parse_u64(b" 1"), None);
    assert_eq!(parse_usize(b"42"), Some(42));
    assert_eq!(parse_i64(b"-42"), Some(-42));
    assert_eq!(parse_i64(b"+42"), Some(42));
    assert_eq!(parse_i64(b"9223372036854775807"), Some(i64::MAX));
    assert_eq!(parse_i64(b"9223372036854775808"), None);
    assert_eq!(parse_i64(b"-9223372036854775808"), Some(i64::MIN));
    assert_eq!(parse_i64(b"-9223372036854775809"), None);
    assert_eq!(parse_i64(b"-"), None);
    assert_eq!(parse_i64(b"--1"), None);
}
