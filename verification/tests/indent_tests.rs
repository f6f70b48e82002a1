use replacer::indent::{find_last_ident, update_ident, update_ident_inplace};

#[test]
fn test_find_last_ident() {
    assert_eq!(find_last_ident("a\nb"), "".to_string());
    assert_eq!(find_last_ident("a\n  b"), "  ".to_string());
    assert_eq!(find_last_ident("a\n     b"), "     ".to_string());
    assert_eq!(find_last_ident("a\n\nb"), "".to_string());
    assert_eq!(find_last_ident("a\nb\n "), " ".to_string());
    assert_eq!(find_last_ident("  "), "  ".to_string());
}

#[test]
fn test_update_ident() {
    assert_eq!(update_ident("a\nb", "  "), "a\n  b");
    assert_eq!(update_ident("a\nb\nc", "   "), "a\n   b\n   c");
    assert_eq!(update_ident("a\nb\nc\n", "   "), "a\n   b\n   c\n");
}

#[test]
fn extractor_fragments_without_line_break() {
    assert_eq!(find_last_ident(""), "");
    assert_eq!(find_last_ident("ab"), "");
    assert_eq!(find_last_ident("  ab"), "  ");
    assert_eq!(find_last_ident("\t x"), "\t ");
}

#[test]
fn extractor_takes_suffix_after_last_break() {
    assert_eq!(find_last_ident("  a\n    b"), "    ");
    assert_eq!(find_last_ident("x\n"), "");
}

#[test]
fn propagator_single_line_unchanged() {
    assert_eq!(update_ident("abc", "   "), "abc");
    assert_eq!(update_ident("abc\n", "  "), "abc\n");
    assert_eq!(update_ident("", "  "), "");
}

#[test]
fn propagator_inplace() {
    let mut s = "a\nb".to_string();
    update_ident_inplace(&mut s, "    ");
    assert_eq!(s, "a\n    b");
}
