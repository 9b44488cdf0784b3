use duplihere::text::{is_white_space_char, trim_text};
use duplihere::ignore::parse_decimal;
use duplihere::text::line_range_bytes;
use duplihere::{
    get_ignore_hashes, hash_text, parse_ignore_line, signatures_from_bytes, FileId, IgnoreLine,
    Options, MIN_LINES_FLOOR,
};

#[test]
fn lines_are_trimmed_before_hashing() {
    let a = signatures_from_bytes(b"  hello world \t\nnext\n");
    let b = signatures_from_bytes(b"hello world\n   next");
    assert_eq!(a.len(), 2);
    assert_eq!(a, b);
    assert_eq!(a[0], hash_text("hello world"));
    assert_ne!(a[0], hash_text("  hello world \t\n"));
}

#[test]
fn line_count_follows_line_feeds() {
    assert_eq!(signatures_from_bytes(b"").len(), 0);
    assert_eq!(signatures_from_bytes(b"a").len(), 1);
    assert_eq!(signatures_from_bytes(b"a\n").len(), 1);
    assert_eq!(signatures_from_bytes(b"a\nb").len(), 2);
    assert_eq!(signatures_from_bytes(b"\n\n\n").len(), 3);
}

#[test]
fn invalid_utf8_is_decoded_lossily() {
    let s = signatures_from_bytes(b"\xffabc\n");
    assert_eq!(s[0], hash_text("\u{FFFD}abc"));
}

#[test]
fn different_lines_hash_differently() {
    assert_ne!(hash_text("a"), hash_text("b"));
    assert_eq!(hash_text("same"), hash_text("same"));
}

#[test]
fn ignore_lines_are_read() {
    assert_eq!(parse_ignore_line(""), IgnoreLine::Skip);
    assert_eq!(parse_ignore_line("   "), IgnoreLine::Skip);
    assert_eq!(parse_ignore_line("# note"), IgnoreLine::Skip);
    assert_eq!(parse_ignore_line("  #1234"), IgnoreLine::Skip);
    assert_eq!(parse_ignore_line("1234"), IgnoreLine::Hash(1234));
    assert_eq!(parse_ignore_line("  +77 \r"), IgnoreLine::Hash(77));
    assert_eq!(parse_ignore_line("18446744073709551615"), IgnoreLine::Hash(u64::MAX));
    assert_eq!(parse_ignore_line("18446744073709551616"), IgnoreLine::Invalid);
    assert_eq!(parse_ignore_line("-1"), IgnoreLine::Invalid);
    assert_eq!(parse_ignore_line("12 34"), IgnoreLine::Invalid);
    assert_eq!(parse_ignore_line("abc"), IgnoreLine::Invalid);
}

#[test]
fn ignore_file_gives_set_and_invalid_lines() {
    let lines: Vec<String> =
        vec!["# header", "", "10", "bad", "20", "10"].into_iter().map(String::from).collect();
    let list = get_ignore_hashes(&lines);
    assert_eq!(list.hashes.len(), 2);
    assert!(list.hashes.contains(&10));
    assert!(list.hashes.contains(&20));
    assert_eq!(list.invalid, vec!["bad".to_string()]);
}

#[test]
fn file_names_get_dense_ids() {
    let mut ids = FileId::new();
    assert_eq!(ids.register_file("/a"), Some(0));
    assert_eq!(ids.register_file("/b"), Some(1));
    assert_eq!(ids.register_file("/a"), None);
    assert_eq!(ids.number_files(), 2);
    assert_eq!(ids.id_to_name(1), "/b");
    assert_eq!(ids.id_to_name(0), "/a");
}

#[test]
fn options_defaults_and_threshold() {
    let mut o = Options::default();
    assert_eq!(o.lines, 6);
    assert!(!o.print);
    assert!(!o.json);
    assert!(o.file_globs.is_empty());
    assert!(o.ignore.is_empty());
    assert_eq!(o.threads, 4);
    assert!(o.lines_valid());
    o.lines = MIN_LINES_FLOOR - 1;
    assert!(!o.lines_valid());
    o.lines = MIN_LINES_FLOOR;
    assert!(o.lines_valid());
}

#[test]
fn line_range_copies_whole_lines() {
    let data = b"zero\none\ntwo\nthree";
    assert_eq!(line_range_bytes(data, 1, 2), b"one\ntwo\n".to_vec());
    assert_eq!(line_range_bytes(data, 3, 5), b"three".to_vec());
    assert_eq!(line_range_bytes(data, 7, 1), Vec::<u8>::new());
    assert_eq!(line_range_bytes(data, 0, 0), Vec::<u8>::new());
}

#[test]
fn decimal_values_are_read_exactly() {
    assert_eq!(parse_decimal("0"), Some(0));
    assert_eq!(parse_decimal("+0042"), Some(42));
    assert_eq!(parse_decimal("18446744073709551615"), Some(u64::MAX));
    assert_eq!(parse_decimal("18446744073709551616"), None);
    assert_eq!(parse_decimal("99999999999999999999999"), None);
    assert_eq!(parse_decimal(""), None);
    assert_eq!(parse_decimal("+"), None);
    assert_eq!(parse_decimal("++1"), None);
    assert_eq!(parse_decimal("-1"), None);
    assert_eq!(parse_decimal("1a"), None);
    assert_eq!(parse_decimal("\u{0663}"), None);
}

#[test]
fn unicode_white_space_is_trimmed() {
    let a = signatures_from_bytes("\u{3000}\u{a0} body\u{2009}\r\n".as_bytes());
    assert_eq!(a[0], hash_text("body"));
    let b = signatures_from_bytes("\u{200b}body\n".as_bytes());
    assert_ne!(b[0], hash_text("body"));
}

#[test]
fn registered_names_are_known() {
    let mut ids = FileId::new();
    assert!(!ids.is_registered("/x"));
    assert_eq!(ids.register_file("/x"), Some(0));
    assert!(ids.is_registered("/x"));
    assert!(!ids.is_registered("/y"));
}

#[test]
fn trim_matches_std() {
    for s in ["", "   ", "  a b  ", "\t\u{2028}x\u{3000}", "\u{200b}y\u{200b}", "z", " \u{85}q\r\n"] {
        assert_eq!(trim_text(s), s.trim());
    }
    assert!(is_white_space_char('\u{a0}'));
    assert!(!is_white_space_char('\u{200b}'));
    assert!(!is_white_space_char('a'));
}
