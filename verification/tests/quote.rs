use xquo::quote::{DoQuote, QuoteBasic, QuotePrintable};

#[test]
fn quote_line_by_basic() {
    let qb = QuoteBasic {};

    let quoted = qb.quote("test".to_string());
    assert_eq!(quoted, "'test'");

    let quoted = qb.quote("test test".to_string());
    assert_eq!(quoted, "'test test'");

    let quoted = qb.quote("test'test".to_string());
    assert_eq!(quoted, "'test'\"'\"'test'");

    let quoted = qb.quote("test\ntest".to_string());
    assert_eq!(quoted, "'test\ntest'");

    let quoted = qb.quote("test テスト".to_string());
    assert_eq!(quoted, "'test テスト'");

    let quoted = qb.quote("test'テスト".to_string());
    assert_eq!(quoted, "'test'\"'\"'テスト'");

    let quoted = qb.quote("test''テスト".to_string());
    assert_eq!(quoted, "'test'\"'\"''\"'\"'テスト'");

    let quoted = qb.quote("test'\nテスト".to_string());
    assert_eq!(quoted, "'test'\"'\"'\nテスト'");

    let quoted = qb.quote("test'🦀テスト".to_string());
    assert_eq!(quoted, "'test'\"'\"'🦀テスト'");
}

#[test]
fn quote_line_by_printable() {
    let qb = QuotePrintable {};

    let quoted = qb.quote("test\u{8}test".to_string());
    assert_eq!(quoted, "'test'$'\\b''test'");

    let quoted = qb.quote("test test\u{8}".to_string());
    assert_eq!(quoted, "'test test'$'\\b'''");

    let quoted = qb.quote("test\ntest".to_string());
    assert_eq!(quoted, "'test'$'\\n''test'");

    let quoted = qb.quote("test test\n".to_string());
    assert_eq!(quoted, "'test test'$'\\n'''");
}

#[test]
fn wrap_single_quote_escapes_each_quote() {
    let qb = QuoteBasic {};
    assert_eq!(qb.wrap_single_quote("a'b".to_string()), "a'\"'\"'b");
    assert_eq!(qb.wrap_single_quote("no quotes".to_string()), "no quotes");
    assert_eq!(qb.wrap_single_quote("''".to_string()), "'\"'\"''\"'\"'");
}

#[test]
fn replace_rewrites_controls_only_for_printable() {
    let qp = QuotePrintable {};
    assert_eq!(qp.replace("a\nb\u{8}c".to_string()), "a'$'\\n''b'$'\\b''c");
    let qb = QuoteBasic {};
    assert_eq!(qb.replace("a\nb\u{8}c".to_string()), "a\nb\u{8}c");
}

#[test]
fn quoted_line_is_wrapped_in_single_quotes() {
    let qb = QuoteBasic {};
    let qp = QuotePrintable {};
    for line in ["", "it's", "a\nb", "\u{8}", "'"] {
        for quoted in [qb.quote(line.to_string()), qp.quote(line.to_string())] {
            assert!(quoted.starts_with('\''));
            assert!(quoted.ends_with('\''));
            assert!(quoted.chars().count() >= 2);
        }
    }
}
