use rgit::digest;
use rgit::ignore::IgnoreFilter;
use rgit::paths::Paths;
use rgit::text::{
    copy_range, find, lex_le_bytes, parse_decimal, push_decimal, same_bytes, split_on,
    starts_with,
};

#[test]
fn digest_of_nothing_is_the_known_value() {
    assert_eq!(digest(b""), b"da39a3ee5e6b4b0d3255bfef95601890afd80709".to_vec());
}

#[test]
fn digest_of_abc_is_the_known_value() {
    assert_eq!(digest(b"abc"), b"a9993e364706816aba3e25717850c26c9cd0d89d".to_vec());
}

#[test]
fn digest_is_forty_lower_case_hex_characters() {
    let d = digest(b"some bytes");
    assert_eq!(d.len(), 40);
    assert!(d.iter().all(|b| b.is_ascii_digit() || (b'a'..=b'f').contains(b)));
}

#[test]
fn digest_differs_from_its_input() {
    let input = b"da39a3ee5e6b4b0d3255bfef95601890afd80709".to_vec();
    assert_ne!(digest(&input), input);
}

#[test]
fn decimal_of_zero_is_one_digit() {
    let mut buf = Vec::new();
    push_decimal(&mut buf, 0);
    assert_eq!(buf, b"0".to_vec());
}

#[test]
fn decimal_is_appended_without_leading_zeros() {
    let mut buf = b"n=".to_vec();
    push_decimal(&mut buf, 1_002_030);
    assert_eq!(buf, b"n=1002030".to_vec());
    let mut max = Vec::new();
    push_decimal(&mut max, u64::MAX);
    assert_eq!(max, b"18446744073709551615".to_vec());
}

#[test]
fn parse_decimal_reads_digits_only() {
    assert_eq!(parse_decimal(b"33188"), Some(33188));
    assert_eq!(parse_decimal(b"0"), Some(0));
    assert_eq!(parse_decimal(b"007"), Some(7));
    assert_eq!(parse_decimal(b""), None);
    assert_eq!(parse_decimal(b"12a"), None);
    assert_eq!(parse_decimal(b"+12"), None);
    assert_eq!(parse_decimal(b"-1"), None);
}

#[test]
fn parse_decimal_stops_at_32_bits() {
    assert_eq!(parse_decimal(b"4294967295"), Some(u32::MAX));
    assert_eq!(parse_decimal(b"4294967296"), None);
    assert_eq!(parse_decimal(b"99999999999999999999"), None);
    assert_eq!(parse_decimal(b"0000000000004294967295"), Some(u32::MAX));
}

#[test]
fn find_gives_the_first_occurrence_or_the_length() {
    assert_eq!(find(b"a/b/c", b'/'), 1);
    assert_eq!(find(b"abc", b'/'), 3);
    assert_eq!(find(b"", b'/'), 0);
    assert_eq!(find(b"/x", b'/'), 0);
}

#[test]
fn split_keeps_empty_pieces() {
    assert_eq!(split_on(b"a b", b' '), vec![b"a".to_vec(), b"b".to_vec()]);
    assert_eq!(split_on(b"", b' '), vec![Vec::<u8>::new()]);
    assert_eq!(
        split_on(b" a  ", b' '),
        vec![b"".to_vec(), b"a".to_vec(), b"".to_vec(), b"".to_vec()]
    );
}

#[test]
fn copy_range_and_prefixes() {
    assert_eq!(copy_range(b"hello", 1, 3), b"el".to_vec());
    assert_eq!(copy_range(b"hello", 5, 5), Vec::<u8>::new());
    assert!(starts_with(b"hello", b"he"));
    assert!(starts_with(b"hello", b""));
    assert!(!starts_with(b"he", b"hello"));
    assert!(!starts_with(b"hello", b"hi"));
    assert!(same_bytes(b"x", b"x"));
    assert!(!same_bytes(b"x", b"xy"));
}

#[test]
fn lexicographic_order_on_bytes() {
    assert!(lex_le_bytes(b"", b""));
    assert!(lex_le_bytes(b"", b"a"));
    assert!(!lex_le_bytes(b"a", b""));
    assert!(lex_le_bytes(b"a", b"ab"));
    assert!(lex_le_bytes(b"ab", b"b"));
    assert!(!lex_le_bytes(b"b", b"ab"));
    assert!(lex_le_bytes(b"same", b"same"));
}

#[test]
fn ignore_filter_excludes_lines_and_what_lies_under_them() {
    let filter = IgnoreFilter::new(b"target\nnotes.txt\r\n");
    assert!(!filter.is_valid(b"target"));
    assert!(!filter.is_valid(b"target/debug/app"));
    assert!(filter.is_valid(b"targets/x"));
    assert!(!filter.is_valid(b"notes.txt"));
    assert!(filter.is_valid(b"src/notes.txt"));
    assert!(filter.is_valid(b"a.txt"));
}

#[test]
fn ignore_filter_always_excludes_the_metadata_directories() {
    let filter = IgnoreFilter::new(b"");
    assert!(!filter.is_valid(b".git"));
    assert!(!filter.is_valid(b".git/config"));
    assert!(!filter.is_valid(b".rgit"));
    assert!(!filter.is_valid(b".rgit/objects/abc"));
    assert!(filter.is_valid(b".gitignore"));
    assert!(filter.is_valid(b"a/.rgit"));
}

#[test]
fn ignore_filter_with_an_empty_line_excludes_absolute_paths() {
    let filter = IgnoreFilter::new(b"x\n\ny");
    assert!(!filter.is_valid(b"/etc/passwd"));
    assert!(!filter.is_valid(b""));
    assert!(!filter.is_valid(b"y"));
    assert!(filter.is_valid(b"z"));
}

#[test]
fn repository_paths() {
    assert_eq!(Paths::root(), b".rgit".to_vec());
    assert_eq!(Paths::objects(), b".rgit/objects".to_vec());
    assert_eq!(Paths::refs(), b".rgit/refs".to_vec());
    assert_eq!(Paths::heads(), b".rgit/refs/heads".to_vec());
    assert_eq!(Paths::HEAD(), b".rgit/HEAD".to_vec());
    assert_eq!(Paths::index(), b".rgit/index.json".to_vec());
    assert_eq!(Paths::ignore(), b".gitignore".to_vec());
    assert_eq!(
        Paths::dirs(),
        vec![b".rgit/objects".to_vec(), b".rgit/refs".to_vec(), b".rgit/refs/heads".to_vec()]
    );
    assert_eq!(Paths::object(b"abc"), b".rgit/objects/abc".to_vec());
    assert_eq!(Paths::head(b"main"), b".rgit/refs/heads/main".to_vec());
}
