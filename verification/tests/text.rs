use ferro_pipeit::text::{bytes_lt, is_whitespace, split_words};

#[test]
fn split_words_skips_every_kind_of_whitespace() {
    assert_eq!(split_words("  a\tbb\n c  "), vec!["a", "bb", "c"]);
    assert_eq!(split_words("x\u{3000}y\u{A0}z"), vec!["x", "y", "z"]);
    assert!(split_words("   ").is_empty());
    assert!(split_words("").is_empty());
    assert_eq!(split_words("héllo wörld"), vec!["héllo", "wörld"]);
}

#[test]
fn whitespace_matches_std() {
    for c in ['a', ' ', '\t', '\n', '\u{0B}', '\u{85}', '\u{2007}', '\u{200B}', '\u{3000}', 'é', '_'] {
        assert_eq!(is_whitespace(c), c.is_whitespace());
    }
}

#[test]
fn byte_order_is_lexicographic() {
    assert!(bytes_lt(b"abc", b"abd"));
    assert!(bytes_lt(b"ab", b"abc"));
    assert!(!bytes_lt(b"abc", b"ab"));
    assert!(!bytes_lt(b"abc", b"abc"));
    assert!(bytes_lt(b"", b"a"));
    assert!(bytes_lt(b"Z", b"a"));
}

