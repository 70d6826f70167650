use odoo_ls_core::noqa::{
    combine_noqa_info, extract_noqas, is_suppressed, parse_noqa_comment, NoqaInfo, SourceToken, TokenKind,
};

fn codes(n: &NoqaInfo) -> Vec<String> {
    match n {
        NoqaInfo::Codes(c) => {
            let mut c = c.clone();
            c.sort();
            c
        }
        _ => panic!("expected codes"),
    }
}

fn tok(kind: TokenKind, start: u32, line: u32, text: &str) -> SourceToken {
    SourceToken { kind, start, line, text: text.to_string() }
}

#[test]
fn plain_noqa_comment_suppresses_all() {
    assert!(matches!(parse_noqa_comment("# noqa"), Some(NoqaInfo::All)));
    assert!(matches!(parse_noqa_comment("#noqa"), Some(NoqaInfo::All)));
    assert!(matches!(parse_noqa_comment("# odools: noqa"), Some(NoqaInfo::All)));
}

#[test]
fn noqa_comment_with_codes() {
    let n = parse_noqa_comment("# noqa: OLS01000, OLS02001").unwrap();
    assert_eq!(codes(&n), vec!["OLS01000".to_string(), "OLS02001".to_string()]);
    let n = parse_noqa_comment("# odools: noqa:OLS03001 OLS03002").unwrap();
    assert_eq!(codes(&n), vec!["OLS03001".to_string(), "OLS03002".to_string()]);
}

#[test]
fn codes_stop_at_a_second_noqa() {
    let n = parse_noqa_comment("#noqa A1 noqa B2").unwrap();
    assert_eq!(codes(&n), vec!["A1".to_string()]);
}

#[test]
fn other_comments_are_no_suppression() {
    assert!(parse_noqa_comment("# just a comment").is_none());
    assert!(parse_noqa_comment("").is_none());
    assert!(parse_noqa_comment("#  noqa").is_none());
}

#[test]
fn combine_keeps_all() {
    let r = combine_noqa_info(&vec![NoqaInfo::Codes(vec!["A".to_string()]), NoqaInfo::All]);
    assert!(matches!(r, NoqaInfo::All));
}

#[test]
fn combine_unites_codes_once() {
    let r = combine_noqa_info(&vec![
        NoqaInfo::Codes(vec!["B".to_string(), "A".to_string()]),
        NoqaInfo::Nothing,
        NoqaInfo::Codes(vec!["A".to_string(), "C".to_string()]),
    ]);
    assert_eq!(codes(&r), vec!["A".to_string(), "B".to_string(), "C".to_string()]);
    let r = combine_noqa_info(&vec![]);
    assert!(codes(&r).is_empty());
}

#[test]
fn trailing_comment_suppresses_only_its_line() {
    let tokens = vec![
        tok(TokenKind::Other, 0, 0, "x"),
        tok(TokenKind::Other, 2, 0, "="),
        tok(TokenKind::Other, 4, 0, "1"),
        tok(TokenKind::Comment, 6, 0, "# noqa"),
        tok(TokenKind::Other, 14, 1, "y"),
    ];
    let s = extract_noqas(&tokens);
    assert!(is_suppressed(&s.lines, 0, Some("OLS01000")));
    assert!(is_suppressed(&s.lines, 0, None));
    assert!(!is_suppressed(&s.lines, 1, Some("OLS01000")));
    assert!(s.blocs.is_empty());
}

#[test]
fn trailing_comment_with_codes_suppresses_only_them() {
    let tokens = vec![
        tok(TokenKind::Other, 0, 3, "x"),
        tok(TokenKind::Comment, 2, 3, "# noqa: OLS01000"),
    ];
    let s = extract_noqas(&tokens);
    assert!(is_suppressed(&s.lines, 3, Some("OLS01000")));
    assert!(!is_suppressed(&s.lines, 3, Some("OLS01001")));
}

#[test]
fn block_comment_anchors_on_next_def() {
    let tokens = vec![
        tok(TokenKind::Other, 0, 0, "import"),
        tok(TokenKind::Comment, 10, 1, "# noqa: OLS02001"),
        tok(TokenKind::NonLogicalNewline, 26, 1, ""),
        tok(TokenKind::Def, 27, 2, "def"),
    ];
    let s = extract_noqas(&tokens);
    assert!(s.lines.is_empty());
    assert!(is_suppressed(&s.blocs, 27, Some("OLS02001")));
    assert!(!is_suppressed(&s.blocs, 27, Some("OLS01000")));
    assert!(!is_suppressed(&s.blocs, 0, Some("OLS02001")));
}

#[test]
fn comment_before_any_statement_covers_the_file() {
    let tokens = vec![tok(TokenKind::Comment, 0, 0, "# noqa"), tok(TokenKind::Other, 7, 1, "x")];
    let s = extract_noqas(&tokens);
    assert!(is_suppressed(&s.blocs, 0, Some("ANY")));
}

#[test]
fn two_block_comments_on_one_anchor_merge() {
    let mut s = odoo_ls_core::noqa::NoqaScan::new();
    s.add_noqa_bloc(5, NoqaInfo::Codes(vec!["A".to_string()]));
    s.add_noqa_bloc(5, NoqaInfo::Codes(vec!["B".to_string()]));
    assert!(is_suppressed(&s.blocs, 5, Some("A")));
    assert!(is_suppressed(&s.blocs, 5, Some("B")));
    assert!(!is_suppressed(&s.blocs, 5, Some("C")));
}
