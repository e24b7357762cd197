use libsnow_generators::text::{last_segment_of, split_chars, trim_char_of};

#[test]
fn split_keeps_empty_pieces() {
    assert_eq!(split_chars("a\nb\n", '\n'), vec!["a", "b", ""]);
    assert_eq!(split_chars("", '\n'), vec![""]);
    assert_eq!(split_chars("abc", '\n'), vec!["abc"]);
}

#[test]
fn last_segment_is_after_the_last_separator() {
    assert_eq!(last_segment_of("nixos/23.11/nixos-23.11.1234.abcdef", '/'), "nixos-23.11.1234.abcdef");
    assert_eq!(last_segment_of("nixos-23.11.1234.abcdef", '.'), "abcdef");
    assert_eq!(last_segment_of("plain", '/'), "plain");
    assert_eq!(last_segment_of("dir/", '/'), "");
}

#[test]
fn trim_removes_quotes_at_both_ends_only() {
    assert_eq!(trim_char_of("\"\"a\"b\"", '"'), "a\"b");
    assert_eq!(trim_char_of("\"\"\"", '"'), "");
    assert_eq!(trim_char_of("none", '"'), "none");
}
