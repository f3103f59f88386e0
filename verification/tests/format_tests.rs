use flamegraph::attrs::parse_frame_attrs;
use flamegraph::folded::{format_entry, parse_line, Entry};
use flamegraph::util::{fmt_u64, parse_u64, split_lines, trim_bytes};

#[test]
fn numbers_format_and_parse_exactly() {
    assert_eq!(fmt_u64(0), b"0".to_vec());
    assert_eq!(fmt_u64(42), b"42".to_vec());
    assert_eq!(fmt_u64(u64::MAX), b"18446744073709551615".to_vec());
    assert_eq!(parse_u64(b"0"), Some(0));
    assert_eq!(parse_u64(b"18446744073709551615"), Some(u64::MAX));
    assert_eq!(parse_u64(b"18446744073709551616"), None);
    assert_eq!(parse_u64(b""), None);
    assert_eq!(parse_u64(b"12a"), None);
}

#[test]
fn folded_lines_parse_at_the_last_space() {
    let e = parse_line(b"a b;c d 12").unwrap();
    assert_eq!(e.key, b"a b;c d".to_vec());
    assert_eq!(e.count, 12);
}

#[test]
fn folded_lines_are_trimmed_before_parsing() {
    let e = parse_line(b"  a;b 3 \r").unwrap();
    assert_eq!(e.key, b"a;b".to_vec());
    assert_eq!(e.count, 3);
}

#[test]
fn malformed_folded_lines_are_rejected() {
    assert!(parse_line(b"").is_none());
    assert!(parse_line(b"   ").is_none());
    assert!(parse_line(b"nospace").is_none());
    assert!(parse_line(b"a notanumber").is_none());
    assert!(parse_line(b" 12").is_none());
}

#[test]
fn formatting_then_parsing_is_identity() {
    let e = Entry { key: b"x;y z;w".to_vec(), count: 987654321 };
    let line = format_entry(&e);
    assert_eq!(line, b"x;y z;w 987654321".to_vec());
    let back = parse_line(&line).unwrap();
    assert_eq!(back.key, e.key);
    assert_eq!(back.count, e.count);
}

#[test]
fn line_splitting_keeps_blank_lines_but_no_trailing_one() {
    let lines = split_lines(b"a\n\nb\n");
    let views: Vec<Vec<u8>> = lines;
    assert_eq!(views, vec![b"a".to_vec(), b"".to_vec(), b"b".to_vec()]);
    let lines2 = split_lines(b"a\nb");
    assert_eq!(lines2, vec![b"a".to_vec(), b"b".to_vec()]);
    assert_eq!(split_lines(b"").len(), 0);
}

#[test]
fn trimming_removes_surrounding_whitespace_only() {
    assert_eq!(trim_bytes(b"  a b \t"), b"a b".to_vec());
    assert_eq!(trim_bytes(b"ab"), b"ab".to_vec());
    assert_eq!(trim_bytes(b" \t "), Vec::<u8>::new());
}

#[test]
fn attr_lines_keep_only_recognized_keys() {
    let attrs = parse_frame_attrs(
        b"main\thref=/x\ttitle=The main loop\tweird=1\nnotabs\n\tnobody=2\n",
    );
    assert_eq!(attrs.entries.len(), 1);
    assert_eq!(attrs.entries[0].0, b"main".to_vec());
    assert_eq!(attrs.entries[0].1.len(), 2);
    assert_eq!(attrs.entries[0].1[0].0, b"href".to_vec());
    assert_eq!(attrs.entries[0].1[0].1, b"/x".to_vec());
    assert_eq!(attrs.entries[0].1[1].0, b"title".to_vec());
    assert_eq!(attrs.entries[0].1[1].1, b"The main loop".to_vec());
}

#[test]
fn attr_values_may_contain_spaces_and_equals() {
    let attrs = parse_frame_attrs(b"f\tstyle=stroke: red; fill=none\n");
    assert_eq!(attrs.entries[0].1[0].1, b"stroke: red; fill=none".to_vec());
}
