//! The lexer and parser: from source text to the instruction tree, with
//! the diagnostics the language calls for.  Both are specified exactly: a
//! state machine folded over the characters for the lexer, a recursive
//! descent over the tokens for the parser.
use vstd::prelude::*;
use vstd::string::StrSliceExecFns;
use crate::ast::{Inst, Ast};

verus! {

/// The four bracket kinds.
#[derive(Clone, Copy, Debug, PartialEq, Eq, Structural)]
pub enum DelimType {
    Paren,
    Brace,
    Bracket,
    Angle,
}

/// A token: an opening or closing bracket, or a maximal run of junk.
#[derive(Clone, Copy, Debug, PartialEq, Eq, Structural)]
pub enum TokenType {
    Open(DelimType),
    Close(DelimType),
    Junk,
}

/// A token with the character offset it starts at.
#[derive(Clone, Copy, Debug, PartialEq, Eq, Structural)]
pub struct Token {
    pub ty: TokenType,
    pub pos: usize,
}

/// What a diagnostic reports.
#[derive(Clone, Copy, Debug, PartialEq, Eq, Structural)]
pub enum DiagKind {
    /// Warning: instruction characters after junk on the same line.
    JunkAfterInstructions,
    /// Warning: junk characters enclosed within a nilad.
    JunkInNilad,
    /// Fatal: a block comment is never closed.
    UnclosedBlockComment,
    /// Fatal: an opened group is never closed.
    UnclosedDelimiter,
    /// Fatal: a group is closed by the wrong bracket kind.
    MismatchedDelimiter,
    /// Fatal: a closing bracket with no group open.
    StrayClosingDelimiter,
}

/// A diagnostic, with the character offset it points at.
#[derive(Clone, Copy, Debug, PartialEq, Eq, Structural)]
pub struct Diag {
    pub kind: DiagKind,
    pub pos: usize,
}

/// Whether a diagnostic kind is fatal rather than a style warning.
pub open spec fn diag_is_fatal(k: DiagKind) -> bool {
    match k {
        DiagKind::JunkAfterInstructions | DiagKind::JunkInNilad => false,
        _ => true,
    }
}

/// Named result of `char::is_whitespace`: whether a character counts as
/// whitespace depends on the character alone.
pub uninterp spec fn is_space(c: char) -> bool;

/// Relies on `char::is_whitespace`: a pure character property.
#[verifier::external_body]
fn char_is_space(c: char) -> (r: bool)
    ensures
        r == is_space(c),
{
    c.is_whitespace()
}

/// The token type of a bracket character, if it is one.
pub open spec fn spec_delim_of(c: char) -> Option<TokenType> {
    if c == '(' {
        Some(TokenType::Open(DelimType::Paren))
    } else if c == ')' {
        Some(TokenType::Close(DelimType::Paren))
    } else if c == '{' {
        Some(TokenType::Open(DelimType::Brace))
    } else if c == '}' {
        Some(TokenType::Close(DelimType::Brace))
    } else if c == '[' {
        Some(TokenType::Open(DelimType::Bracket))
    } else if c == ']' {
        Some(TokenType::Close(DelimType::Bracket))
    } else if c == '<' {
        Some(TokenType::Open(DelimType::Angle))
    } else if c == '>' {
        Some(TokenType::Close(DelimType::Angle))
    } else {
        None
    }
}

fn delim_of(c: char) -> (r: Option<TokenType>)
    ensures
        r == spec_delim_of(c),
{
    if c == '(' {
        Some(TokenType::Open(DelimType::Paren))
    } else if c == ')' {
        Some(TokenType::Close(DelimType::Paren))
    } else if c == '{' {
        Some(TokenType::Open(DelimType::Brace))
    } else if c == '}' {
        Some(TokenType::Close(DelimType::Brace))
    } else if c == '[' {
        Some(TokenType::Open(DelimType::Bracket))
    } else if c == ']' {
        Some(TokenType::Close(DelimType::Bracket))
    } else if c == '<' {
        Some(TokenType::Open(DelimType::Angle))
    } else if c == '>' {
        Some(TokenType::Close(DelimType::Angle))
    } else {
        None
    }
}

/// The lexer's state after some prefix of the input: the tokens and
/// warnings emitted so far, the line-comment and pending-hash flags, the
/// flag that remembers junk earlier on the current line, and the block
/// comment depth.
pub ghost struct LexSt {
    pub toks: Seq<Token>,
    pub warns: Seq<Diag>,
    pub line_comment: bool,
    pub last_hash: bool,
    pub false_comment: bool,
    pub depth: nat,
}

pub open spec fn lex_init() -> LexSt {
    LexSt {
        toks: Seq::empty(),
        warns: Seq::empty(),
        line_comment: false,
        last_hash: false,
        false_comment: false,
        depth: 0,
    }
}

/// One character of lexing.  A line comment opened by the marker turns
/// into a nestable block comment when a brace follows the marker at once;
/// junk runs coalesce into a single token; a bracket reached while junk
/// sits earlier on the same line draws a warning.
pub open spec fn lex_step(st: LexSt, c: char, pos: usize) -> LexSt {
    if st.line_comment {
        LexSt {
            toks: st.toks,
            warns: st.warns,
            line_comment: !((st.last_hash && c == '{') || c == '\n'),
            last_hash: false,
            false_comment: st.false_comment,
            depth: if st.last_hash && c == '{' {
                1
            } else {
                st.depth
            },
        }
    } else if st.depth > 0 {
        LexSt {
            toks: st.toks,
            warns: st.warns,
            line_comment: st.line_comment,
            last_hash: st.last_hash,
            false_comment: st.false_comment,
            depth: if c == '{' {
                st.depth + 1
            } else if c == '}' {
                (st.depth - 1) as nat
            } else {
                st.depth
            },
        }
    } else {
        match spec_delim_of(c) {
            Some(ty) => LexSt {
                toks: st.toks.push(Token { ty, pos }),
                warns: if st.false_comment {
                    st.warns.push(Diag { kind: DiagKind::JunkAfterInstructions, pos })
                } else {
                    st.warns
                },
                line_comment: st.line_comment,
                last_hash: st.last_hash,
                false_comment: false,
                depth: st.depth,
            },
            None => if c == '#' {
                LexSt {
                    toks: st.toks,
                    warns: st.warns,
                    line_comment: true,
                    last_hash: true,
                    false_comment: st.false_comment,
                    depth: st.depth,
                }
            } else {
                LexSt {
                    toks: if st.toks.len() == 0 || !(st.toks.last().ty is Junk) {
                        st.toks.push(Token { ty: TokenType::Junk, pos })
                    } else {
                        st.toks
                    },
                    warns: st.warns,
                    line_comment: st.line_comment,
                    last_hash: st.last_hash,
                    false_comment: if c == '\n' {
                        false
                    } else if !is_space(c) {
                        true
                    } else {
                        st.false_comment
                    },
                    depth: st.depth,
                }
            },
        }
    }
}

/// The lexer's state after the first `i` characters of `s`.
pub open spec fn lex_st(s: Seq<char>, i: int) -> LexSt
    decreases i,
{
    if i <= 0 {
        lex_init()
    } else {
        lex_step(lex_st(s, i - 1), s[i - 1], (i - 1) as usize)
    }
}

/// The block comment depth never exceeds the number of characters read.
proof fn lemma_lex_depth(s: Seq<char>, i: int)
    requires
        0 <= i,
    ensures
        lex_st(s, i).depth <= i,
    decreases i,
{
    if i > 0 {
        lemma_lex_depth(s, i - 1);
    }
}

/// The lexer.  Yields the token list, or nothing when a block comment is
/// never closed; appends every warning, and the fatal unclosed-comment
/// diagnostic, to `diags`.
#[verifier::loop_isolation(false)]
pub fn lex(s: &str, diags: &mut Vec<Diag>) -> (r: Option<Vec<Token>>)
    ensures
        ({
            let fin = lex_st(s@, s@.len() as int);
            match r {
                Some(ts) => fin.depth == 0 && ts@ == fin.toks && final(diags)@ == old(diags)@
                    + fin.warns,
                None => fin.depth > 0 && final(diags)@ == old(diags)@ + fin.warns.push(
                    Diag { kind: DiagKind::UnclosedBlockComment, pos: 0 },
                ),
            }
        }),
{
    let n = s.unicode_len();
    let mut ts: Vec<Token> = Vec::new();
    let mut line_comment = false;
    let mut last_hash = false;
    let mut false_comment = false;
    let mut depth: usize = 0;
    let ghost base = diags@;
    let mut i: usize = 0;
    proof {
        assert(ts@ =~= lex_st(s@, 0).toks);
        assert(diags@ =~= base + lex_st(s@, 0).warns);
    }
    while i < n
        invariant
            i <= n,
            n == s@.len(),
            ts@ == lex_st(s@, i as int).toks,
            diags@ == base + lex_st(s@, i as int).warns,
            line_comment == lex_st(s@, i as int).line_comment,
            last_hash == lex_st(s@, i as int).last_hash,
            false_comment == lex_st(s@, i as int).false_comment,
            depth as nat == lex_st(s@, i as int).depth,
        decreases n - i,
    {
        proof {
            lemma_lex_depth(s@, i as int);
        }
        let c = s.get_char(i);
        if line_comment {
            if last_hash && c == '{' {
                line_comment = false;
                depth = 1;
            } else if c == '\n' {
                line_comment = false;
            }
            last_hash = false;
        } else if depth > 0 {
            if c == '{' {
                depth = depth + 1;
            } else if c == '}' {
                depth = depth - 1;
            }
        } else {
            match delim_of(c) {
                Some(ty) => {
                    ts.push(Token { ty, pos: i });
                    if false_comment {
                        diags.push(Diag { kind: DiagKind::JunkAfterInstructions, pos: i });
                        false_comment = false;
                    } else {
                        false_comment = false;
                    }
                },
                None => {
                    if c == '#' {
                        line_comment = true;
                        last_hash = true;
                    } else {
                        if c == '\n' {
                            false_comment = false;
                        } else if !char_is_space(c) {
                            false_comment = true;
                        }
                        let at_junk = ts.len() > 0 && matches!(ts[ts.len() - 1].ty, TokenType::Junk);
                        if !at_junk {
                            ts.push(Token { ty: TokenType::Junk, pos: i });
                        }
                    }
                },
            }
        }
        i += 1;
    }
    if depth > 0 {
        diags.push(Diag { kind: DiagKind::UnclosedBlockComment, pos: 0 });
        None
    } else {
        Some(ts)
    }
}


/// Mathematical form of an instruction tree.
pub ghost enum GInst {
    One,
    Size,
    Pop,
    Toggle,
    Push(Seq<GInst>),
    Negate(Seq<GInst>),
    Loop(Seq<GInst>),
    Exec(Seq<GInst>),
}

pub open spec fn inst_view(i: Inst) -> GInst
    decreases i, 0nat, 0nat,
{
    match i {
        Inst::One => GInst::One,
        Inst::Size => GInst::Size,
        Inst::Pop => GInst::Pop,
        Inst::Toggle => GInst::Toggle,
        Inst::Push(a) => GInst::Push(asts_view_from(a@, 0)),
        Inst::Negate(a) => GInst::Negate(asts_view_from(a@, 0)),
        Inst::Loop(a) => GInst::Loop(asts_view_from(a@, 0)),
        Inst::Exec(a) => GInst::Exec(asts_view_from(a@, 0)),
    }
}

pub open spec fn asts_view_from(s: Seq<Inst>, k: int) -> Seq<GInst>
    decreases s, 1nat, s.len() - k,
{
    if k < 0 || k >= s.len() {
        Seq::empty()
    } else {
        seq![inst_view(s[k])] + asts_view_from(s, k + 1)
    }
}

pub open spec fn asts_view(s: Seq<Inst>) -> Seq<GInst>
    decreases s, 2nat, 0nat,
{
    asts_view_from(s, 0)
}

pub proof fn lemma_asts_view_len(s: Seq<Inst>, k: int)
    requires
        0 <= k <= s.len(),
    ensures
        asts_view_from(s, k).len() == s.len() - k,
        forall|j: int|
            k <= j < s.len() ==> asts_view_from(s, k)[j - k] == inst_view(#[trigger] s[j]),
    decreases s.len() - k,
{
    if k < s.len() {
        lemma_asts_view_len(s, k + 1);
    }
}

/// Inserting an instruction at the front prepends its view.
pub proof fn lemma_asts_view_insert(s: Seq<Inst>, x: Inst)
    ensures
        asts_view(s.insert(0, x)) == seq![inst_view(x)] + asts_view(s),
    decreases s.len(),
{
    lemma_asts_view_len(s, 0);
    lemma_asts_view_len(s.insert(0, x), 0);
    let l = s.insert(0, x);
    assert forall|j: int| 0 <= j < l.len() implies asts_view_from(l, 0)[j] == (seq![inst_view(x)]
        + asts_view(s))[j] by {
        assert(asts_view_from(l, 0)[j] == inst_view(l[j]));
        if j > 0 {
            assert(l[j] == s[j - 1]);
            assert(asts_view_from(s, 0)[j - 1] == inst_view(s[j - 1]));
        }
    }
    assert(asts_view(s.insert(0, x)) =~= seq![inst_view(x)] + asts_view(s));
}

/// The nilad of a bracket kind.
pub open spec fn nilad_of(t: DelimType) -> GInst {
    match t {
        DelimType::Paren => GInst::One,
        DelimType::Brace => GInst::Pop,
        DelimType::Bracket => GInst::Size,
        DelimType::Angle => GInst::Toggle,
    }
}

/// The compound node of a bracket kind.
pub open spec fn compound_of(t: DelimType, sub: Seq<GInst>) -> GInst {
    match t {
        DelimType::Paren => GInst::Push(sub),
        DelimType::Brace => GInst::Loop(sub),
        DelimType::Bracket => GInst::Negate(sub),
        DelimType::Angle => GInst::Exec(sub),
    }
}

/// Result of parsing one group: the instructions, or nothing after a
/// fatal diagnostic; the index of the first token not consumed; every
/// diagnostic emitted, in order.
pub ghost struct PRes {
    pub out: Option<Seq<GInst>>,
    pub next: int,
    pub diags: Seq<Diag>,
}

/// Recursive descent over the tokens from index `i`: instructions collect
/// until a closing bracket or the end; an opener followed at once by its
/// closer (possibly around junk, which draws a warning) is a nilad; any
/// other opener starts a compound node whose group must end with the
/// matching closer, junk before that closer allowed.
pub open spec fn p_group(ts: Seq<Token>, i: int) -> PRes
    decreases ts.len() - i,
{
    if i < 0 || i >= ts.len() {
        PRes { out: Some(Seq::empty()), next: if i < 0 { 0 } else { i }, diags: Seq::empty() }
    } else {
        match ts[i].ty {
            TokenType::Close(_) => PRes { out: Some(Seq::empty()), next: i, diags: Seq::empty() },
            TokenType::Junk => p_group(ts, i + 1),
            TokenType::Open(t) => {
                if i + 2 < ts.len() && ts[i + 1].ty is Junk && ts[i + 2].ty == TokenType::Close(t) {
                    let rest = p_group(ts, i + 3);
                    PRes {
                        out: match rest.out {
                            Some(r) => Some(seq![nilad_of(t)] + r),
                            None => None,
                        },
                        next: rest.next,
                        diags: seq![
                            Diag { kind: DiagKind::JunkInNilad, pos: ts[i + 1].pos },
                        ] + rest.diags,
                    }
                } else if i + 1 < ts.len() && ts[i + 1].ty == TokenType::Close(t) {
                    let rest = p_group(ts, i + 2);
                    PRes {
                        out: match rest.out {
                            Some(r) => Some(seq![nilad_of(t)] + r),
                            None => None,
                        },
                        next: rest.next,
                        diags: rest.diags,
                    }
                } else {
                    let inner = p_group(ts, i + 1);
                    match inner.out {
                        None => PRes { out: None, next: inner.next, diags: inner.diags },
                        Some(sub) => {
                            let j = inner.next;
                            if j >= ts.len() {
                                PRes {
                                    out: None,
                                    next: j,
                                    diags: inner.diags.push(
                                        Diag { kind: DiagKind::UnclosedDelimiter, pos: ts[i].pos },
                                    ),
                                }
                            } else {
                                let two = ts[j].ty is Junk;
                                if two && j + 1 >= ts.len() {
                                    PRes {
                                        out: None,
                                        next: j,
                                        diags: inner.diags.push(
                                            Diag {
                                                kind: DiagKind::MismatchedDelimiter,
                                                pos: ts[j].pos,
                                            },
                                        ),
                                    }
                                } else {
                                    let attempt = if two {
                                        ts[j + 1].ty
                                    } else {
                                        ts[j].ty
                                    };
                                    let l: int = if two {
                                        2
                                    } else {
                                        1
                                    };
                                    if attempt == TokenType::Close(t) {
                                        if j + l <= i {
                                            PRes { out: None, next: j, diags: inner.diags }
                                        } else {
                                            let rest = p_group(ts, j + l);
                                            PRes {
                                                out: match rest.out {
                                                    Some(r) => Some(
                                                        seq![compound_of(t, sub)] + r,
                                                    ),
                                                    None => None,
                                                },
                                                next: rest.next,
                                                diags: inner.diags + rest.diags,
                                            }
                                        }
                                    } else {
                                        PRes {
                                            out: None,
                                            next: j,
                                            diags: inner.diags.push(
                                                Diag {
                                                    kind: DiagKind::MismatchedDelimiter,
                                                    pos: if ts[j].pos == usize::MAX || !two {
                                                        ts[j].pos
                                                    } else {
                                                        (ts[j].pos + 1) as usize
                                                    },
                                                },
                                            ),
                                        }
                                    }
                                }
                            }
                        },
                    }
                }
            },
        }
    }
}

/// Parsing never moves backwards, and it stops only at the end of the
/// tokens or on a closing bracket.
pub proof fn lemma_p_group_advance(ts: Seq<Token>, i: int)
    requires
        0 <= i <= ts.len(),
    ensures
        i <= p_group(ts, i).next <= ts.len(),
        p_group(ts, i).out is Some ==> (p_group(ts, i).next == ts.len() || ts[p_group(
            ts,
            i,
        ).next].ty is Close),
    decreases ts.len() - i,
{
    if i < ts.len() {
        match ts[i].ty {
            TokenType::Close(_) => {},
            TokenType::Junk => {
                lemma_p_group_advance(ts, i + 1);
            },
            TokenType::Open(t) => {
                if i + 2 < ts.len() && ts[i + 1].ty is Junk && ts[i + 2].ty == TokenType::Close(
                    t,
                ) {
                    lemma_p_group_advance(ts, i + 3);
                } else if i + 1 < ts.len() && ts[i + 1].ty == TokenType::Close(t) {
                    lemma_p_group_advance(ts, i + 2);
                } else {
                    lemma_p_group_advance(ts, i + 1);
                    let inner = p_group(ts, i + 1);
                    if inner.out is Some && inner.next < ts.len() {
                        let j = inner.next;
                        let two = ts[j].ty is Junk;
                        if !(two && j + 1 >= ts.len()) {
                            let l: int = if two {
                                2
                            } else {
                                1
                            };
                            let attempt = if two {
                                ts[j + 1].ty
                            } else {
                                ts[j].ty
                            };
                            if attempt == TokenType::Close(t) {
                                lemma_p_group_advance(ts, j + l);
                            }
                        }
                    }
                }
            },
        }
    }
}

/// One group of the token stream, mirrored on `p_group`.
#[verifier::rlimit(100)]
fn parse_group(ts: &Vec<Token>, i: usize, diags: &mut Vec<Diag>) -> (r: (Option<Ast>, usize))
    requires
        i <= ts.len(),
    ensures
        ({
            let g = p_group(ts@, i as int);
            &&& r.1 as int == g.next
            &&& final(diags)@ == old(diags)@ + g.diags
            &&& match r.0 {
                Some(a) => g.out == Some(asts_view(a@)),
                None => g.out is None,
            }
        }),
    decreases ts@.len() - i,
{
    proof {
        lemma_p_group_advance(ts@, i as int);
    }
    if i >= ts.len() {
        proof {
            assert(diags@ =~= diags@ + Seq::<Diag>::empty());
            assert(asts_view_from(Seq::<Inst>::empty(), 0) =~= Seq::<GInst>::empty());
        }
        return (Some(Vec::new()), i);
    }
    match ts[i].ty {
        TokenType::Close(_) => {
            proof {
                assert(diags@ =~= diags@ + Seq::<Diag>::empty());
                assert(asts_view_from(Seq::<Inst>::empty(), 0) =~= Seq::<GInst>::empty());
            }
            (Some(Vec::new()), i)
        },
        TokenType::Junk => parse_group(ts, i + 1, diags),
        TokenType::Open(t) => {
            let junk_nilad = ts.len() - i > 2 && matches!(ts[i + 1].ty, TokenType::Junk) && ts[i
                + 2].ty == TokenType::Close(t);
            let plain_nilad = !junk_nilad && ts.len() - i > 1 && ts[i + 1].ty == TokenType::Close(
                t,
            );
            if junk_nilad || plain_nilad {
                let ghost pre = diags@;
                if junk_nilad {
                    diags.push(Diag { kind: DiagKind::JunkInNilad, pos: ts[i + 1].pos });
                }
                let skip: usize = if junk_nilad {
                    3
                } else {
                    2
                };
                let (rest, j) = parse_group(ts, i + skip, diags);
                let nilad = match t {
                    DelimType::Paren => Inst::One,
                    DelimType::Brace => Inst::Pop,
                    DelimType::Bracket => Inst::Size,
                    DelimType::Angle => Inst::Toggle,
                };
                proof {
                    if junk_nilad {
                        assert(pre + seq![
                            Diag { kind: DiagKind::JunkInNilad, pos: ts@[i as int + 1].pos },
                        ] + p_group(ts@, i as int + 3).diags =~= pre + (seq![
                            Diag { kind: DiagKind::JunkInNilad, pos: ts@[i as int + 1].pos },
                        ] + p_group(ts@, i as int + 3).diags));
                    }
                }
                match rest {
                    Some(mut v) => {
                        let ghost before = v@;
                        v.insert(0, nilad);
                        proof {
                            lemma_asts_view_insert(before, nilad);
                        }
                        (Some(v), j)
                    },
                    None => (None, j),
                }
            } else {
                let open_pos = ts[i].pos;
                let (inner, j) = parse_group(ts, i + 1, diags);
                match inner {
                    None => (None, j),
                    Some(sub) => {
                        proof {
                            lemma_p_group_advance(ts@, i as int + 1);
                        }
                        if j >= ts.len() {
                            diags.push(Diag { kind: DiagKind::UnclosedDelimiter, pos: open_pos });
                            return (None, j);
                        }
                        let two = matches!(ts[j].ty, TokenType::Junk);
                        if two && j + 1 >= ts.len() {
                            diags.push(
                                Diag { kind: DiagKind::MismatchedDelimiter, pos: ts[j].pos },
                            );
                            return (None, j);
                        }
                        let attempt = if two {
                            ts[j + 1].ty
                        } else {
                            ts[j].ty
                        };
                        let l: usize = if two {
                            2
                        } else {
                            1
                        };
                        if attempt == TokenType::Close(t) {
                            let (rest, j2) = parse_group(ts, j + l, diags);
                            let node = match t {
                                DelimType::Paren => Inst::Push(sub),
                                DelimType::Brace => Inst::Loop(sub),
                                DelimType::Bracket => Inst::Negate(sub),
                                DelimType::Angle => Inst::Exec(sub),
                            };
                            match rest {
                                Some(mut v) => {
                                    let ghost before = v@;
                                    v.insert(0, node);
                                    proof {
                                        lemma_asts_view_insert(before, node);
                                    }
                                    (Some(v), j2)
                                },
                                None => (None, j2),
                            }
                        } else {
                            let mpos: usize = if ts[j].pos == usize::MAX || !two {
                                ts[j].pos
                            } else {
                                ts[j].pos + 1
                            };
                            diags.push(Diag { kind: DiagKind::MismatchedDelimiter, pos: mpos });
                            (None, j)
                        }
                    },
                }
            }
        },
    }
}

/// What parsing a whole source text yields: the tree, or nothing after a
/// fatal diagnostic, and every diagnostic in order of discovery.
pub open spec fn spec_parse(s: Seq<char>) -> (Option<Seq<GInst>>, Seq<Diag>) {
    let fin = lex_st(s, s.len() as int);
    if fin.depth > 0 {
        (None, fin.warns.push(Diag { kind: DiagKind::UnclosedBlockComment, pos: 0 }))
    } else {
        let g = p_group(fin.toks, 0);
        match g.out {
            None => (None, fin.warns + g.diags),
            Some(r) => if g.next < fin.toks.len() {
                (
                    None,
                    (fin.warns + g.diags).push(
                        Diag {
                            kind: DiagKind::StrayClosingDelimiter,
                            pos: fin.toks[g.next].pos,
                        },
                    ),
                )
            } else {
                (Some(r), fin.warns + g.diags)
            },
        }
    }
}

/// Parse a whole source text: lex it, parse the top-level group, and
/// refuse leftover closing brackets.  The tree is returned exactly when
/// no fatal diagnostic was emitted; all diagnostics append to `diags`.
pub fn parse(s: &str, diags: &mut Vec<Diag>) -> (r: Option<Ast>)
    ensures
        ({
            let (out, ds) = spec_parse(s@);
            &&& final(diags)@ == old(diags)@ + ds
            &&& match r {
                Some(a) => out == Some(asts_view(a@)),
                None => out is None,
            }
        }),
{
    let toks = lex(s, diags);
    match toks {
        None => None,
        Some(ts) => {
            let ghost mid = diags@;
            let (out, next) = parse_group(&ts, 0, diags);
            proof {
                let fin = lex_st(s@, s@.len() as int);
                vstd::seq_lib::lemma_concat_associative(
                    old(diags)@,
                    fin.warns,
                    p_group(fin.toks, 0).diags,
                );
            }
            match out {
                None => None,
                Some(a) => {
                    if next < ts.len() {
                        diags.push(
                            Diag { kind: DiagKind::StrayClosingDelimiter, pos: ts[next].pos },
                        );
                        None
                    } else {
                        Some(a)
                    }
                },
            }
        },
    }
}


/// Newlines among the first `i` characters.
pub open spec fn nl_count(s: Seq<char>, i: int) -> nat
    decreases i,
{
    if i <= 0 {
        0
    } else {
        nl_count(s, i - 1) + (if s[i - 1] == '\n' {
            1nat
        } else {
            0nat
        })
    }
}

/// The 1-based column after the first `i` characters: reset by each
/// newline, advanced by every other character.
pub open spec fn col_after(s: Seq<char>, i: int) -> nat
    decreases i,
{
    if i <= 0 {
        1
    } else if s[i - 1] == '\n' {
        1
    } else {
        col_after(s, i - 1) + 1
    }
}

/// Index of the first character of the line containing position `i`.
pub open spec fn line_start(s: Seq<char>, i: int) -> int
    decreases i,
{
    if i <= 0 {
        0
    } else if s[i - 1] == '\n' {
        i
    } else {
        line_start(s, i - 1)
    }
}

/// Index just past the last character of the line containing position
/// `i`: the next newline, or the end of the text.
pub open spec fn line_stop(s: Seq<char>, i: int) -> int
    decreases s.len() - i,
{
    if i < 0 || i >= s.len() {
        s.len() as int
    } else if s[i] == '\n' {
        i
    } else {
        line_stop(s, i + 1)
    }
}

proof fn lemma_line_start_bounds(s: Seq<char>, i: int)
    requires
        0 <= i <= s.len(),
    ensures
        0 <= line_start(s, i) <= i,
    decreases i,
{
    if i > 0 && s[i - 1] != '\n' {
        lemma_line_start_bounds(s, i - 1);
    }
}

proof fn lemma_line_stop_bounds(s: Seq<char>, i: int)
    requires
        0 <= i <= s.len(),
    ensures
        i <= line_stop(s, i) <= s.len(),
    decreases s.len() - i,
{
    if i < s.len() && s[i] != '\n' {
        lemma_line_stop_bounds(s, i + 1);
    }
}

/// The 1-based line and column of a character offset, and the text of the
/// line it falls on: what a diagnostic report points the reader at.
#[verifier::loop_isolation(false)]
pub fn locate(s: &str, pos: usize) -> (r: (usize, usize, Vec<char>))
    requires
        s@.len() < usize::MAX,
    ensures
        ({
            let m = if pos <= s@.len() {
                pos as int
            } else {
                s@.len() as int
            };
            &&& r.0 as nat == 1 + nl_count(s@, m)
            &&& r.1 as nat == col_after(s@, m)
            &&& r.2@ == s@.subrange(line_start(s@, m), line_stop(s@, m))
        }),
{
    let n = s.unicode_len();
    let m: usize = if pos <= n {
        pos
    } else {
        n
    };
    let mut line: usize = 1;
    let mut col: usize = 1;
    let mut start: usize = 0;
    let mut i: usize = 0;
    while i < m
        invariant
            i <= m <= n,
            n == s@.len(),
            line <= i + 1,
            col <= i + 1,
            line as nat == 1 + nl_count(s@, i as int),
            col as nat == col_after(s@, i as int),
            start as int == line_start(s@, i as int),
        decreases m - i,
    {
        let c = s.get_char(i);
        if c == '\n' {
            line = line + 1;
            col = 1;
            start = i + 1;
        } else {
            col = col + 1;
        }
        i += 1;
    }
    proof {
        assert(line_start(s@, m as int) == start as int);
    }
    let mut stop: usize = m;
    while stop < n
        invariant
            m <= stop <= n,
            line_stop(s@, m as int) == line_stop(s@, stop as int),
            forall|j: int| m <= j < stop ==> s@[j] != '\n',
        decreases n - stop,
    {
        let c = s.get_char(stop);
        if c == '\n' {
            break ;
        }
        stop += 1;
    }
    proof {
        lemma_line_start_bounds(s@, m as int);
        lemma_line_stop_bounds(s@, m as int);
        assert(line_stop(s@, m as int) == stop as int);
    }
    let mut text: Vec<char> = Vec::new();
    let mut j: usize = start;
    proof {
        assert(text@ =~= s@.subrange(start as int, start as int));
    }
    while j < stop
        invariant
            start <= j <= stop,
            stop <= n,
            n == s@.len(),
            text@ == s@.subrange(start as int, j as int),
        decreases stop - j,
    {
        let c = s.get_char(j);
        text.push(c);
        proof {
            assert(text@ =~= s@.subrange(start as int, j as int + 1));
        }
        j += 1;
    }
    (line, col, text)
}

} // verus!
