use brainflak::parser::{parse, locate, Diag, DiagKind};
use brainflak::ast::Inst;

fn parse_ok(src: &str) -> (Vec<Inst>, Vec<Diag>) {
    let mut diags = Vec::new();
    let tree = parse(src, &mut diags).expect("expected a parse");
    (tree, diags)
}

fn parse_err(src: &str) -> Vec<Diag> {
    let mut diags = Vec::new();
    assert!(parse(src, &mut diags).is_none(), "expected a failure");
    diags
}

#[test]
fn nilads_parse() {
    let (t, d) = parse_ok("(){}[]<>");
    assert!(matches!(t[..], [Inst::One, Inst::Pop, Inst::Size, Inst::Toggle]));
    assert!(d.is_empty());
}

#[test]
fn compounds_parse() {
    let (t, d) = parse_ok("(()){()}[()]<()>");
    assert_eq!(t.len(), 4);
    assert!(matches!(&t[0], Inst::Push(s) if matches!(s[..], [Inst::One])));
    assert!(matches!(&t[1], Inst::Loop(s) if matches!(s[..], [Inst::One])));
    assert!(matches!(&t[2], Inst::Negate(s) if matches!(s[..], [Inst::One])));
    assert!(matches!(&t[3], Inst::Exec(s) if matches!(s[..], [Inst::One])));
    assert!(d.is_empty());
}

#[test]
fn junk_inside_nilad_warns_but_parses() {
    let (t, d) = parse_ok("(1)");
    assert!(matches!(t[..], [Inst::One]));
    // the closer also follows junk on the same line, which warns first
    assert_eq!(d.len(), 2);
    assert_eq!(d[0], Diag { kind: DiagKind::JunkAfterInstructions, pos: 2 });
    assert_eq!(d[1], Diag { kind: DiagKind::JunkInNilad, pos: 1 });
}

#[test]
fn junk_before_instructions_on_a_line_warns() {
    let (t, d) = parse_ok("push ()");
    assert!(matches!(t[..], [Inst::One]));
    assert_eq!(d.len(), 1);
    assert_eq!(d[0].kind, DiagKind::JunkAfterInstructions);
    assert_eq!(d[0].pos, 5);
}

#[test]
fn line_comments_hide_instructions() {
    let (t, d) = parse_ok("# this (( is ignored\n()");
    assert!(matches!(t[..], [Inst::One]));
    assert!(d.is_empty());
}

#[test]
fn block_comments_nest() {
    let (t, d) = parse_ok("#{ outer { inner } still} ()");
    assert!(matches!(t[..], [Inst::One]));
    assert!(d.is_empty());
}

#[test]
fn unclosed_block_comment_is_fatal() {
    let d = parse_err("#{ never closed");
    assert_eq!(*d.last().unwrap(), Diag { kind: DiagKind::UnclosedBlockComment, pos: 0 });
}

#[test]
fn unclosed_delimiter_is_fatal() {
    let d = parse_err("(()");
    assert_eq!(*d.last().unwrap(), Diag { kind: DiagKind::UnclosedDelimiter, pos: 0 });
}

#[test]
fn mismatched_closing_delimiter_is_fatal() {
    let d = parse_err("(()}");
    assert_eq!(d.last().unwrap().kind, DiagKind::MismatchedDelimiter);
    assert_eq!(d.last().unwrap().pos, 3);
}

#[test]
fn stray_closing_delimiter_is_fatal() {
    let d = parse_err("())");
    assert_eq!(*d.last().unwrap(), Diag { kind: DiagKind::StrayClosingDelimiter, pos: 2 });
}

#[test]
fn junk_may_precede_a_closer() {
    let (t, d) = parse_ok("(() done)");
    assert!(matches!(&t[0], Inst::Push(s) if matches!(s[..], [Inst::One])));
    assert_eq!(t.len(), 1);
    // the junk sits before the closer on the same line, which warns
    assert_eq!(d, vec![Diag { kind: DiagKind::JunkAfterInstructions, pos: 8 }]);
}

#[test]
fn locate_reports_line_and_column() {
    let (line, col, text) = locate("ab\ncd", 4);
    assert_eq!(line, 2);
    assert_eq!(col, 2);
    assert_eq!(text.iter().collect::<String>(), "cd");
}

#[test]
fn locate_at_start() {
    let (line, col, text) = locate("hello\nworld", 0);
    assert_eq!(line, 1);
    assert_eq!(col, 1);
    assert_eq!(text.iter().collect::<String>(), "hello");
}
