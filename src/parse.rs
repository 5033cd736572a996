use vstd::prelude::*;
use vstd::string::*;

use crate::ast::{ExprView, Expression};

verus! {

/// The kinds of token of the source language.
#[derive(Debug, Clone, Copy, PartialEq, Eq, Structural)]
pub enum TokenKind {
    Let,
    In,
    BSlash,
    Eq,
    Dot,
    LParen,
    RParen,
    Id,
    True,
    False,
    EOF,
    Error,
}

/// A token: its kind, and where its text starts and how many chars it has.
#[derive(Debug, Clone, Copy, PartialEq, Eq, Structural)]
pub struct Token {
    pub kind: TokenKind,
    pub pos: usize,
    pub len: usize,
}

/// Why parsing failed.
#[derive(Debug, PartialEq, Eq)]
pub enum ParseError {
    UnexpectedToken { unexpected: TokenKind, expected: Vec<TokenKind>, pos: usize },
    InvalidToken { lexeme: String, pos: usize },
}

/// A parse error as a value.
pub enum ParseErrorView {
    UnexpectedToken(TokenKind, Seq<TokenKind>, usize),
    InvalidToken(Seq<char>, usize),
}

impl ParseError {
    pub open spec fn value(self) -> ParseErrorView {
        match self {
            ParseError::UnexpectedToken { unexpected, expected, pos } => ParseErrorView::UnexpectedToken(
                unexpected,
                expected@,
                pos,
            ),
            ParseError::InvalidToken { lexeme, pos } => ParseErrorView::InvalidToken(lexeme@, pos),
        }
    }
}

pub open spec fn parse_value(r: Result<Expression, ParseError>) -> Result<ExprView, ParseErrorView> {
    match r {
        Ok(e) => Ok(e.value()),
        Err(x) => Err(x.value()),
    }
}

pub open spec fn token_value(r: Result<Token, ParseError>) -> Result<Token, ParseErrorView> {
    match r {
        Ok(t) => Ok(t),
        Err(x) => Err(x.value()),
    }
}

impl TokenKind {
    /// How the token kind is written in messages.
    pub fn text(&self) -> (r: &'static str)
        ensures
            r@ == token_text(*self),
    {
        match self {
            TokenKind::Let => {
                proof {
                    reveal_strlit("let");
                }
                "let"
            },
            TokenKind::In => {
                proof {
                    reveal_strlit("in");
                }
                "in"
            },
            TokenKind::BSlash => {
                proof {
                    reveal_strlit("\\");
                }
                "\\"
            },
            TokenKind::Eq => {
                proof {
                    reveal_strlit("=");
                }
                "="
            },
            TokenKind::Dot => {
                proof {
                    reveal_strlit(".");
                }
                "."
            },
            TokenKind::LParen => {
                proof {
                    reveal_strlit("(");
                }
                "("
            },
            TokenKind::RParen => {
                proof {
                    reveal_strlit(")");
                }
                ")"
            },
            TokenKind::Id => {
                proof {
                    reveal_strlit("ID");
                }
                "ID"
            },
            TokenKind::True => {
                proof {
                    reveal_strlit("true");
                }
                "true"
            },
            TokenKind::False => {
                proof {
                    reveal_strlit("false");
                }
                "false"
            },
            TokenKind::EOF => {
                proof {
                    reveal_strlit("End of File");
                }
                "End of File"
            },
            TokenKind::Error => {
                proof {
                    reveal_strlit("Error");
                }
                "Error"
            },
        }
    }
}

pub open spec fn token_text(k: TokenKind) -> Seq<char> {
    match k {
        TokenKind::Let => seq!['l', 'e', 't'],
        TokenKind::In => seq!['i', 'n'],
        TokenKind::BSlash => seq!['\\'],
        TokenKind::Eq => seq!['='],
        TokenKind::Dot => seq!['.'],
        TokenKind::LParen => seq!['('],
        TokenKind::RParen => seq![')'],
        TokenKind::Id => seq!['I', 'D'],
        TokenKind::True => seq!['t', 'r', 'u', 'e'],
        TokenKind::False => seq!['f', 'a', 'l', 's', 'e'],
        TokenKind::EOF => seq!['E', 'n', 'd', ' ', 'o', 'f', ' ', 'F', 'i', 'l', 'e'],
        TokenKind::Error => seq!['E', 'r', 'r', 'o', 'r'],
    }
}

impl Token {
    pub fn new(kind: TokenKind, pos: usize, len: usize) -> (r: Token)
        ensures
            r == (Token { kind, pos, len }),
    {
        Token { kind, pos, len }
    }
}

impl Default for Token {
    /// An `EOF` token of length 0 at the start.
    fn default() -> (r: Token)
        ensures
            r == (Token { kind: TokenKind::EOF, pos: 0, len: 0 }),
    {
        Token::new(TokenKind::EOF, 0, 0)
    }
}

/// Whether `c` is alphabetic in Unicode's sense.
pub uninterp spec fn alphabetic(c: char) -> bool;

/// Whether `c` has Unicode's White_Space property: tab to carriage return,
/// space, next line, no-break space, ogham space mark, the spaces from en quad
/// to hair space, line and paragraph separators, narrow no-break space,
/// medium mathematical space and ideographic space.
pub open spec fn whitespace(c: char) -> bool {
    let u = c as u32;
    (0x9 <= u && u <= 0xD) || u == 0x20 || u == 0x85 || u == 0xA0 || u == 0x1680 || (0x2000 <= u
        && u <= 0x200A) || u == 0x2028 || u == 0x2029 || u == 0x202F || u == 0x205F || u == 0x3000
}

/// Relies on char::is_alphabetic: the Unicode Alphabetic property of `c`,
/// which within ASCII holds of the letters alone.
#[verifier::external_body]
fn is_alphabetic(c: char) -> (r: bool)
    ensures
        r == alphabetic(c),
        (c as u32) < 128 ==> (r <==> ('a' <= c <= 'z' || 'A' <= c <= 'Z')),
{
    c.is_alphabetic()
}

/// Whether `c` is white space, as `char::is_whitespace` decides it.
fn is_whitespace(c: char) -> (r: bool)
    ensures
        r == whitespace(c),
{
    let u = c as u32;
    (0x9 <= u && u <= 0xD) || u == 0x20 || u == 0x85 || u == 0xA0 || u == 0x1680 || (0x2000 <= u
        && u <= 0x200A) || u == 0x2028 || u == 0x2029 || u == 0x202F || u == 0x205F || u == 0x3000
}

/// A char that may continue an identifier.
pub open spec fn ident_char(c: char) -> bool {
    alphabetic(c) || c == '\'' || c == '_'
}

/// The end of the run of identifier chars of `s` from `pos`.
pub open spec fn ident_end(s: Seq<char>, pos: nat) -> nat
    decreases s.len() - pos,
{
    if pos < s.len() && ident_char(s[pos as int]) {
        ident_end(s, pos + 1)
    } else {
        pos
    }
}

/// The kind of a word: a reserved word's own kind, else `Id`.
pub open spec fn word_kind(w: Seq<char>) -> TokenKind {
    if w == seq!['l', 'e', 't'] {
        TokenKind::Let
    } else if w == seq!['i', 'n'] {
        TokenKind::In
    } else if w == seq!['t', 'r', 'u', 'e'] {
        TokenKind::True
    } else if w == seq!['f', 'a', 'l', 's', 'e'] {
        TokenKind::False
    } else {
        TokenKind::Id
    }
}

/// The kind of a token of one punctuation char.
pub open spec fn punct_kind(c: char) -> Option<TokenKind> {
    if c == '\\' {
        Some(TokenKind::BSlash)
    } else if c == '=' {
        Some(TokenKind::Eq)
    } else if c == '.' {
        Some(TokenKind::Dot)
    } else if c == '(' {
        Some(TokenKind::LParen)
    } else if c == ')' {
        Some(TokenKind::RParen)
    } else {
        None
    }
}

pub open spec fn tok(kind: TokenKind, pos: nat, len: nat) -> Token {
    Token { kind, pos: pos as usize, len: len as usize }
}

/// The token of `s` that starts at or after `pos` (white space skipped), and
/// the position after it. At the end of `s` it is `EOF`, of length 1, and the
/// position stays.
pub open spec fn lex_at(s: Seq<char>, pos: nat) -> (Token, nat)
    decreases s.len() - pos,
{
    if pos >= s.len() {
        (tok(TokenKind::EOF, pos, 1), pos)
    } else {
        let c = s[pos as int];
        if punct_kind(c) is Some {
            (tok(punct_kind(c)->0, pos, 1), pos + 1)
        } else if alphabetic(c) {
            let e = ident_end(s, pos + 1);
            (tok(word_kind(s.subrange(pos as int, e as int)), pos, (e - pos) as nat), e)
        } else if whitespace(c) {
            lex_at(s, pos + 1)
        } else {
            (tok(TokenKind::Error, pos, 1), pos + 1)
        }
    }
}

pub proof fn lemma_ident_end(s: Seq<char>, pos: nat)
    requires
        pos <= s.len(),
    ensures
        pos <= ident_end(s, pos) <= s.len(),
    decreases s.len() - pos,
{
    if pos < s.len() && ident_char(s[pos as int]) {
        lemma_ident_end(s, pos + 1);
    }
}

/// A token other than `EOF` takes at least one char; `EOF` is met only at the end.
pub proof fn lemma_lex_at(s: Seq<char>, pos: nat)
    requires
        pos <= s.len(),
    ensures
        pos <= lex_at(s, pos).1 <= s.len(),
        lex_at(s, pos).0.kind != TokenKind::EOF ==> lex_at(s, pos).1 > pos,
        lex_at(s, pos).0.kind == TokenKind::EOF ==> lex_at(s, pos).1 == s.len(),
        lex_at(s, pos).0.pos + lex_at(s, pos).0.len <= s.len() || lex_at(s, pos).0.kind
            == TokenKind::EOF,
        lex_at(s, pos).0.pos == lex_at(s, pos).0.pos as nat,
    decreases s.len() - pos,
{
    if pos < s.len() {
        let c = s[pos as int];
        if punct_kind(c) is Some {
        } else if alphabetic(c) {
            lemma_ident_end(s, pos + 1);
        } else if whitespace(c) {
            lemma_lex_at(s, pos + 1);
        }
    }
}

/// The first `n` tokens of `s` from `pos` on, and the position after them.
pub open spec fn lex_run(s: Seq<char>, pos: nat, n: nat) -> (Seq<Token>, nat)
    decreases n,
{
    if n == 0 {
        (Seq::empty(), pos)
    } else {
        let (t, q) = lex_at(s, pos);
        let (ts, e) = lex_run(s, q, (n - 1) as nat);
        (seq![t] + ts, e)
    }
}

/// The kinds that may start an expression, in the order messages list them.
pub open spec fn expr_start() -> Seq<TokenKind> {
    seq![
        TokenKind::LParen,
        TokenKind::Id,
        TokenKind::BSlash,
        TokenKind::Let,
        TokenKind::True,
        TokenKind::False,
    ]
}

/// `e` reports the token `t` where one of `expected` was needed.
pub open spec fn is_unexpected(e: ParseError, t: Token, expected: Seq<TokenKind>) -> bool {
    match e {
        ParseError::UnexpectedToken { unexpected, expected: x, pos } => unexpected == t.kind
            && x@ == expected && pos == t.pos,
        _ => false,
    }
}

/// `e` reports the token `t` of `src` as invalid.
pub open spec fn is_invalid(e: ParseError, t: Token, src: Seq<char>) -> bool {
    match e {
        ParseError::InvalidToken { lexeme, pos } => lexeme@ == src.subrange(
            t.pos as int,
            t.pos + t.len,
        ) && pos == t.pos,
        _ => false,
    }
}

/// The kinds before which an application ends.
pub open spec fn ends_app(k: TokenKind) -> bool {
    k == TokenKind::EOF || k == TokenKind::RParen || k == TokenKind::In
}

pub open spec fn not_eof_count(ts: Seq<Token>) -> nat
    decreases ts.len(),
{
    if ts.len() == 0 {
        0
    } else {
        not_eof_count(ts.drop_last()) + if ts.last().kind == TokenKind::EOF {
            0nat
        } else {
            1nat
        }
    }
}

/// The parser's state as a value: the source, the lexer's position, and the
/// lookahead tokens.
pub open spec fn next_state(st: (Seq<char>, nat, Seq<Token>)) -> (Seq<char>, nat, Seq<Token>) {
    (st.0, lex_at(st.0, st.1).1, st.2.drop_first().push(lex_at(st.0, st.1).0))
}

pub open spec fn state_measure(st: (Seq<char>, nat, Seq<Token>)) -> nat {
    (st.0.len() - st.1) as nat + not_eof_count(st.2)
}

pub open spec fn lexeme_of(src: Seq<char>, t: Token) -> Seq<char> {
    src.subrange(t.pos as int, t.pos + t.len)
}

/// Consumes a token of kind `k`, or reports the token found instead.
pub open spec fn expect_spec(st: (Seq<char>, nat, Seq<Token>), k: TokenKind) -> (
    (Seq<char>, nat, Seq<Token>),
    Result<Token, ParseErrorView>,
) {
    let t = st.2[0];
    if t.kind == k {
        (next_state(st), Ok(t))
    } else {
        (st, Err(ParseErrorView::UnexpectedToken(t.kind, seq![k], t.pos)))
    }
}

/// The error for a recursion that would not consume input; it never arises
/// from a well-formed parser state.
pub open spec fn stuck(st: (Seq<char>, nat, Seq<Token>)) -> ParseErrorView {
    ParseErrorView::InvalidToken(Seq::empty(), st.2[0].pos)
}

/// An atom: a name, `true`, `false`, `( expr )`, `\ name . expr` or
/// `let name = expr in expr`.
pub open spec fn parse_atom_spec(st: (Seq<char>, nat, Seq<Token>)) -> (
    (Seq<char>, nat, Seq<Token>),
    Result<ExprView, ParseErrorView>,
)
    decreases state_measure(st), 0nat,
{
    let src = st.0;
    let tok = st.2[0];
    let s1 = next_state(st);
    match tok.kind {
        TokenKind::Id => (s1, Ok(ExprView::Var(lexeme_of(src, tok)))),
        TokenKind::True => (s1, Ok(ExprView::True)),
        TokenKind::False => (s1, Ok(ExprView::False)),
        TokenKind::Error => (s1, Err(ParseErrorView::InvalidToken(lexeme_of(src, tok), tok.pos))),
        TokenKind::LParen => if state_measure(s1) < state_measure(st) {
            let (s2, r) = parse_expr_spec(s1);
            match r {
                Err(x) => (s2, Err(x)),
                Ok(e) => {
                    let (s3, c) = expect_spec(s2, TokenKind::RParen);
                    match c {
                        Err(x) => (s3, Err(x)),
                        Ok(_) => (s3, Ok(e)),
                    }
                },
            }
        } else {
            (s1, Err(stuck(s1)))
        },
        TokenKind::BSlash => {
            let (s2, n) = expect_spec(s1, TokenKind::Id);
            match n {
                Err(x) => (s2, Err(x)),
                Ok(nt) => {
                    let (s3, d) = expect_spec(s2, TokenKind::Dot);
                    match d {
                        Err(x) => (s3, Err(x)),
                        Ok(_) => if state_measure(s3) < state_measure(st) {
                            let (s4, r) = parse_expr_spec(s3);
                            match r {
                                Err(x) => (s4, Err(x)),
                                Ok(e) => (s4, Ok(ExprView::Abs(lexeme_of(src, nt), Box::new(e)))),
                            }
                        } else {
                            (s3, Err(stuck(s3)))
                        },
                    }
                },
            }
        },
        TokenKind::Let => {
            let (s2, n) = expect_spec(s1, TokenKind::Id);
            match n {
                Err(x) => (s2, Err(x)),
                Ok(nt) => {
                    let (s3, q) = expect_spec(s2, TokenKind::Eq);
                    match q {
                        Err(x) => (s3, Err(x)),
                        Ok(_) => if state_measure(s3) < state_measure(st) {
                            let (s4, r0) = parse_expr_spec(s3);
                            match r0 {
                                Err(x) => (s4, Err(x)),
                                Ok(e0) => {
                                    let (s5, i) = expect_spec(s4, TokenKind::In);
                                    match i {
                                        Err(x) => (s5, Err(x)),
                                        Ok(_) => if state_measure(s5) < state_measure(st) {
                                            let (s6, r1) = parse_expr_spec(s5);
                                            match r1 {
                                                Err(x) => (s6, Err(x)),
                                                Ok(e1) => (
                                                    s6,
                                                    Ok(
                                                        ExprView::Let(
                                                            lexeme_of(src, nt),
                                                            Box::new(e0),
                                                            Box::new(e1),
                                                        ),
                                                    ),
                                                ),
                                            }
                                        } else {
                                            (s5, Err(stuck(s5)))
                                        },
                                    }
                                },
                            }
                        } else {
                            (s3, Err(stuck(s3)))
                        },
                    }
                },
            }
        },
        _ => (s1, Err(ParseErrorView::UnexpectedToken(tok.kind, expr_start(), tok.pos))),
    }
}

/// An expression: an atom, then atoms applied to it one by one.
pub open spec fn parse_expr_spec(st: (Seq<char>, nat, Seq<Token>)) -> (
    (Seq<char>, nat, Seq<Token>),
    Result<ExprView, ParseErrorView>,
)
    decreases state_measure(st), 1nat,
{
    let (s1, r) = parse_atom_spec(st);
    match r {
        Err(x) => (s1, Err(x)),
        Ok(e) => if state_measure(s1) < state_measure(st) {
            parse_apps_spec(s1, e)
        } else {
            (s1, Err(stuck(s1)))
        },
    }
}

/// Applies `lhs` to the atoms that follow, up to `EOF`, `)` or `in`.
pub open spec fn parse_apps_spec(st: (Seq<char>, nat, Seq<Token>), lhs: ExprView) -> (
    (Seq<char>, nat, Seq<Token>),
    Result<ExprView, ParseErrorView>,
)
    decreases state_measure(st), 2nat,
{
    let t = st.2[0];
    if ends_app(t.kind) {
        (st, Ok(lhs))
    } else if t.kind == TokenKind::Error {
        (st, Err(ParseErrorView::InvalidToken(lexeme_of(st.0, t), t.pos)))
    } else {
        let (s1, r) = parse_atom_spec(st);
        match r {
            Err(x) => (s1, Err(x)),
            Ok(rhs) => if state_measure(s1) < state_measure(st) {
                parse_apps_spec(s1, ExprView::App(Box::new(lhs), Box::new(rhs)))
            } else {
                (s1, Err(stuck(s1)))
            },
        }
    }
}

/// The source, the position of the lexer in it, and four tokens of lookahead.
pub struct ParseContext {
    src: Vec<char>,
    pos: usize,
    buf: Vec<Token>,
}

impl ParseContext {
    pub closed spec fn chars(self) -> Seq<char> {
        self.src@
    }

    pub closed spec fn at(self) -> nat {
        self.pos as nat
    }

    pub closed spec fn tokens(self) -> Seq<Token> {
        self.buf@
    }

    pub open spec fn state(self) -> (Seq<char>, nat, Seq<Token>) {
        (self.chars(), self.at(), self.tokens())
    }

    /// Four tokens are buffered; after an `EOF` only `EOF` follows and the
    /// lexer is at the end; every other token lies within the source.
    pub open spec fn wf(self) -> bool {
        &&& self.tokens().len() == 4
        &&& self.at() <= self.chars().len()
        &&& forall|i: int|
            0 <= i < 4 && (#[trigger] self.tokens()[i]).kind == TokenKind::EOF ==> self.at()
                == self.chars().len() && forall|j: int|
                i < j < 4 ==> (#[trigger] self.tokens()[j]).kind == TokenKind::EOF
        &&& forall|i: int|
            0 <= i < 4 && (#[trigger] self.tokens()[i]).kind != TokenKind::EOF ==> self.tokens()[i].pos
                + self.tokens()[i].len <= self.chars().len()
    }

    /// What is left to read: chars ahead of the lexer and buffered tokens.
    pub open spec fn measure(self) -> nat {
        (self.chars().len() - self.at()) as nat + not_eof_count(self.tokens())
    }

    /// A context over `src` with its first four tokens buffered.
    pub fn new(src: &str) -> (r: ParseContext)
        ensures
            r.wf(),
            r.chars() == src@,
            (r.tokens(), r.at()) == lex_run(src@, 0, 4),
    {
        let n = src.unicode_len();
        let mut chars: Vec<char> = Vec::new();
        let mut i: usize = 0;
        while i < n
            invariant
                n == src@.len(),
                i <= n,
                chars@ == src@.subrange(0, i as int),
            decreases n - i,
        {
            chars.push(src.get_char(i));
            assert(src@.subrange(0, i + 1) =~= src@.subrange(0, i as int).push(src@[i as int]));
            i = i + 1;
        }
        assert(src@.subrange(0, n as int) =~= src@);
        let mut ctx = ParseContext { src: chars, pos: 0, buf: Vec::new() };
        let t0 = ctx.lex();
        let t1 = ctx.lex();
        let t2 = ctx.lex();
        let t3 = ctx.lex();
        ctx.buf.push(t0);
        ctx.buf.push(t1);
        ctx.buf.push(t2);
        ctx.buf.push(t3);
        proof {
            let s = src@;
            let (q1, q2, q3) = (lex_at(s, 0).1, lex_at(s, lex_at(s, 0).1).1, lex_at(
                s,
                lex_at(s, lex_at(s, 0).1).1,
            ).1);
            lemma_lex_at(s, 0);
            lemma_lex_at(s, q1);
            lemma_lex_at(s, q2);
            lemma_lex_at(s, q3);
            reveal_with_fuel(lex_run, 5);
            assert(ctx.buf@ =~= lex_run(s, 0, 4).0);
        }
        ctx
    }

    /// Consumes the first buffered token and lexes one more into the buffer.
    pub fn next(&mut self) -> (r: Token)
        requires
            old(self).wf(),
        ensures
            final(self).wf(),
            r == old(self).tokens()[0],
            final(self).chars() == old(self).chars(),
            final(self).tokens() == old(self).tokens().drop_first().push(
                lex_at(old(self).chars(), old(self).at()).0,
            ),
            final(self).at() == lex_at(old(self).chars(), old(self).at()).1,
            final(self).state() == next_state(old(self).state()),
            final(self).measure() <= old(self).measure(),
            r.kind != TokenKind::EOF ==> final(self).measure() < old(self).measure(),
    {
        proof {
            lemma_lex_at(self.src@, self.pos as nat);
        }
        let ghost b = self.buf@;
        let tok = self.lex();
        let first = self.buf[0];
        self.buf.remove(0);
        self.buf.push(tok);
        proof {
            let nb = self.buf@;
            assert(nb =~= b.drop_first().push(tok));
            assert(b =~= seq![b[0]] + b.drop_first());
            lemma_not_eof_count_front(b);
            lemma_not_eof_count_push(b.drop_first(), tok);
            assert forall|i: int|
                0 <= i < 4 && (#[trigger] nb[i]).kind == TokenKind::EOF implies self.pos
                == self.src@.len() && forall|j: int|
                i < j < 4 ==> (#[trigger] nb[j]).kind == TokenKind::EOF by {
                if i < 3 {
                    assert(nb[i] == b[i + 1]);
                    assert forall|j: int| i < j < 4 implies (#[trigger] nb[j]).kind == TokenKind::EOF by {
                        if j < 3 {
                            assert(nb[j] == b[j + 1]);
                        }
                    }
                }
            }
            assert forall|i: int|
                0 <= i < 4 && (#[trigger] nb[i]).kind != TokenKind::EOF implies nb[i].pos + nb[i].len
                <= self.src@.len() by {
                if i < 3 {
                    assert(nb[i] == b[i + 1]);
                }
            }
            if first.kind == TokenKind::EOF {
                assert(b[1].kind == TokenKind::EOF);
            }
        }
        first
    }

    /// The buffered token `n` places ahead.
    pub fn peek_nth(&self, n: usize) -> (r: Token)
        requires
            self.wf(),
            n < 4,
        ensures
            r == self.tokens()[n as int],
    {
        self.buf[n]
    }

    /// Consumes the next token if it is of kind `k`, else fails.
    pub fn expect(&mut self, k: TokenKind) -> (r: Result<Token, ParseError>)
        requires
            old(self).wf(),
        ensures
            final(self).wf(),
            final(self).chars() == old(self).chars(),
            final(self).measure() <= old(self).measure(),
            old(self).tokens()[0].kind == k ==> r == Ok::<Token, ParseError>(old(self).tokens()[0])
                && final(self).tokens() == old(self).tokens().drop_first().push(
                lex_at(old(self).chars(), old(self).at()).0,
            ) && final(self).at() == lex_at(old(self).chars(), old(self).at()).1,
            old(self).tokens()[0].kind != k ==> *final(self) == *old(self) && r is Err
                && is_unexpected(r->Err_0, old(self).tokens()[0], seq![k]),
            r is Ok && k != TokenKind::EOF ==> final(self).measure() < old(self).measure(),
            (final(self).state(), token_value(r)) == expect_spec(old(self).state(), k),
    {
        let tok = self.peek_nth(0);
        if tok.kind != k {
            let mut expected: Vec<TokenKind> = Vec::new();
            expected.push(k);
            Err(ParseError::UnexpectedToken { unexpected: tok.kind, expected, pos: tok.pos })
        } else {
            Ok(self.next())
        }
    }

    /// The text of a token within the source.
    pub fn lexeme(&self, tok: Token) -> (r: String)
        requires
            tok.pos + tok.len <= self.chars().len(),
        ensures
            r@ == self.chars().subrange(tok.pos as int, tok.pos + tok.len),
    {
        let mut out = String::new();
        let _ = self.src.len();
        let mut i = tok.pos;
        let end = tok.pos + tok.len;
        while i < end
            invariant
                tok.pos <= i <= end,
                end == tok.pos + tok.len,
                end <= self.src@.len(),
                out@ == self.src@.subrange(tok.pos as int, i as int),
            decreases end - i,
        {
            crate::show::push_char(&mut out, self.src[i]);
            assert(self.src@.subrange(tok.pos as int, i + 1) =~= self.src@.subrange(
                tok.pos as int,
                i as int,
            ).push(self.src@[i as int]));
            i = i + 1;
        }
        out
    }

    /// Whether the source chars from `start` to `end` spell `w`.
    fn spells(&self, start: usize, end: usize, w: &str) -> (r: bool)
        requires
            start <= end <= self.chars().len(),
        ensures
            r == (self.chars().subrange(start as int, end as int) == w@),
    {
        let n = w.unicode_len();
        if end - start != n {
            assert(self.src@.subrange(start as int, end as int).len() != w@.len());
            return false;
        }
        let mut i: usize = 0;
        while i < n
            invariant
                n == w@.len(),
                end - start == n,
                end <= self.src@.len(),
                i <= n,
                forall|j: int| 0 <= j < i ==> self.src@[start + j] == w@[j],
            decreases n - i,
        {
            if self.src[start + i] != w.get_char(i) {
                assert(self.src@.subrange(start as int, end as int)[i as int] != w@[i as int]);
                return false;
            }
            i = i + 1;
        }
        assert(self.src@.subrange(start as int, end as int) =~= w@);
        true
    }

    /// Lexes the next token of the source.
    fn lex(&mut self) -> (r: Token)
        requires
            old(self).pos <= old(self).src@.len(),
        ensures
            (r, final(self).pos as nat) == lex_at(old(self).src@, old(self).pos as nat),
            final(self).src == old(self).src,
            final(self).buf == old(self).buf,
            final(self).pos <= final(self).src@.len(),
    {
        proof {
            lemma_lex_at(self.src@, self.pos as nat);
        }
        loop
            invariant
                self.pos <= self.src@.len(),
                lex_at(self.src@, self.pos as nat) == lex_at(old(self).src@, old(self).pos as nat),
                self.src == old(self).src,
                self.buf == old(self).buf,
            decreases self.src@.len() - self.pos,
        {
            let pos = self.pos;
            if pos >= self.src.len() {
                return Token::new(TokenKind::EOF, pos, 1);
            }
            let c = self.src[pos];
            self.pos = pos + 1;
            if c == '\\' {
                return Token::new(TokenKind::BSlash, pos, 1);
            } else if c == '=' {
                return Token::new(TokenKind::Eq, pos, 1);
            } else if c == '.' {
                return Token::new(TokenKind::Dot, pos, 1);
            } else if c == '(' {
                return Token::new(TokenKind::LParen, pos, 1);
            } else if c == ')' {
                return Token::new(TokenKind::RParen, pos, 1);
            } else if is_alphabetic(c) {
                while self.pos < self.src.len() && (is_alphabetic(self.src[self.pos])
                    || self.src[self.pos] == '\'' || self.src[self.pos] == '_')
                    invariant
                        pos + 1 <= self.pos <= self.src@.len(),
                        ident_end(self.src@, (pos + 1) as nat) == ident_end(self.src@, self.pos as nat),
                        self.src == old(self).src,
                        self.buf == old(self).buf,
                    decreases self.src@.len() - self.pos,
                {
                    self.pos = self.pos + 1;
                }
                let end = self.pos;
                let kind = if self.spells(pos, end, "let") {
                    TokenKind::Let
                } else if self.spells(pos, end, "in") {
                    TokenKind::In
                } else if self.spells(pos, end, "true") {
                    TokenKind::True
                } else if self.spells(pos, end, "false") {
                    TokenKind::False
                } else {
                    TokenKind::Id
                };
                proof {
                    reveal_strlit("let");
                    reveal_strlit("in");
                    reveal_strlit("true");
                    reveal_strlit("false");
                    assert("let"@ =~= seq!['l', 'e', 't']);
                    assert("in"@ =~= seq!['i', 'n']);
                    assert("true"@ =~= seq!['t', 'r', 'u', 'e']);
                    assert("false"@ =~= seq!['f', 'a', 'l', 's', 'e']);
                    assert(kind == word_kind(self.src@.subrange(pos as int, end as int)));
                }
                return Token::new(kind, pos, end - pos);
            } else if is_whitespace(c) {
                continue;
            } else {
                return Token::new(TokenKind::Error, pos, 1);
            }
        }
    }
}

/// What the first two tokens `ts[0]`, `ts[1]` decide of a parse: an invalid
/// or misplaced first token fails; a constant or name followed by the end of
/// an application is the whole expression; one followed by an invalid token
/// fails on it.
pub open spec fn first_tokens_decide(
    ts: Seq<Token>,
    src: Seq<char>,
    r: Result<Expression, ParseError>,
) -> bool {
    let t = ts[0];
    let atom = t.kind == TokenKind::True || t.kind == TokenKind::False || t.kind == TokenKind::Id;
    &&& t.kind == TokenKind::Error ==> r is Err && is_invalid(r->Err_0, t, src)
    &&& (t.kind == TokenKind::EOF || t.kind == TokenKind::RParen || t.kind == TokenKind::In
        || t.kind == TokenKind::Eq || t.kind == TokenKind::Dot) ==> r is Err && is_unexpected(
        r->Err_0,
        t,
        expr_start(),
    )
    &&& atom && ts[1].kind == TokenKind::Error ==> r is Err && is_invalid(r->Err_0, ts[1], src)
    &&& t.kind == TokenKind::True && ends_app(ts[1].kind) ==> r == Ok::<Expression, ParseError>(
        Expression::True,
    )
    &&& t.kind == TokenKind::False && ends_app(ts[1].kind) ==> r == Ok::<Expression, ParseError>(
        Expression::False,
    )
    &&& t.kind == TokenKind::Id && ends_app(ts[1].kind) ==> r is Ok && is_var_of(
        r->Ok_0,
        src.subrange(t.pos as int, t.pos + t.len),
    )
}

/// `e` is the variable named `name`.
pub open spec fn is_var_of(e: Expression, name: Seq<char>) -> bool {
    match e {
        Expression::Var { name: n } => n@ == name,
        _ => false,
    }
}

/// What the first token `ts[0]` decides of an atom: an invalid or misplaced
/// token fails; a constant or a name is the whole atom.
pub open spec fn first_token_decides(ts: Seq<Token>, src: Seq<char>, r: Result<Expression, ParseError>) -> bool {
    let t = ts[0];
    &&& t.kind == TokenKind::Error ==> r is Err && is_invalid(r->Err_0, t, src)
    &&& (t.kind == TokenKind::EOF || t.kind == TokenKind::RParen || t.kind == TokenKind::In
        || t.kind == TokenKind::Eq || t.kind == TokenKind::Dot) ==> r is Err && is_unexpected(
        r->Err_0,
        t,
        expr_start(),
    )
    &&& t.kind == TokenKind::True ==> r == Ok::<Expression, ParseError>(Expression::True)
    &&& t.kind == TokenKind::False ==> r == Ok::<Expression, ParseError>(Expression::False)
    &&& t.kind == TokenKind::Id ==> r is Ok && is_var_of(
        r->Ok_0,
        src.subrange(t.pos as int, t.pos + t.len),
    )
}

/// Parses one atom: a name, a constant, a parenthesised expression, an
/// abstraction or a `let`; the last two extend as far as the expression goes.
pub fn parse_atom(ctx: &mut ParseContext) -> (r: Result<Expression, ParseError>)
    requires
        old(ctx).wf(),
    ensures
        final(ctx).wf(),
        final(ctx).chars() == old(ctx).chars(),
        final(ctx).measure() <= old(ctx).measure(),
        old(ctx).tokens()[0].kind != TokenKind::EOF ==> final(ctx).measure() < old(ctx).measure(),
        first_token_decides(old(ctx).tokens(), old(ctx).chars(), r),
        r is Ok ==> expr_start().contains(old(ctx).tokens()[0].kind),
        old(ctx).tokens()[0].kind == TokenKind::True || old(ctx).tokens()[0].kind == TokenKind::False
            || old(ctx).tokens()[0].kind == TokenKind::Id ==> final(ctx).tokens()[0] == old(
            ctx,
        ).tokens()[1],
        (final(ctx).state(), parse_value(r)) == parse_atom_spec(old(ctx).state()),
    decreases ctx.measure(), 0nat,
{
    let tok = ctx.next();
    proof {
        assert(expr_start()[0] == TokenKind::LParen && expr_start()[1] == TokenKind::Id
            && expr_start()[2] == TokenKind::BSlash && expr_start()[3] == TokenKind::Let
            && expr_start()[4] == TokenKind::True && expr_start()[5] == TokenKind::False);
    }
    match tok.kind {
        TokenKind::LParen => {
            let e = match parse_expr(ctx) {
                Ok(e) => e,
                Err(x) => {
                    return Err(x);
                },
            };
            match ctx.expect(TokenKind::RParen) {
                Ok(_) => {},
                Err(x) => {
                    return Err(x);
                },
            }
            Ok(e)
        },
        TokenKind::Id => Ok(Expression::Var { name: ctx.lexeme(tok) }),
        TokenKind::BSlash => {
            let name = match ctx.expect(TokenKind::Id) {
                Ok(t) => ctx.lexeme(t),
                Err(x) => {
                    return Err(x);
                },
            };
            match ctx.expect(TokenKind::Dot) {
                Ok(_) => {},
                Err(x) => {
                    return Err(x);
                },
            }
            let e = match parse_expr(ctx) {
                Ok(e) => e,
                Err(x) => {
                    return Err(x);
                },
            };
            Ok(Expression::Abs { name, e: Box::new(e) })
        },
        TokenKind::Let => {
            let name = match ctx.expect(TokenKind::Id) {
                Ok(t) => ctx.lexeme(t),
                Err(x) => {
                    return Err(x);
                },
            };
            match ctx.expect(TokenKind::Eq) {
                Ok(_) => {},
                Err(x) => {
                    return Err(x);
                },
            }
            let e0 = match parse_expr(ctx) {
                Ok(e) => e,
                Err(x) => {
                    return Err(x);
                },
            };
            match ctx.expect(TokenKind::In) {
                Ok(_) => {},
                Err(x) => {
                    return Err(x);
                },
            }
            let e1 = match parse_expr(ctx) {
                Ok(e) => e,
                Err(x) => {
                    return Err(x);
                },
            };
            Ok(Expression::Let { name, e0: Box::new(e0), e1: Box::new(e1) })
        },
        TokenKind::True => Ok(Expression::True),
        TokenKind::False => Ok(Expression::False),
        TokenKind::Error => Err(ParseError::InvalidToken { lexeme: ctx.lexeme(tok), pos: tok.pos }),
        _ => {
            let mut expected: Vec<TokenKind> = Vec::new();
            expected.push(TokenKind::LParen);
            expected.push(TokenKind::Id);
            expected.push(TokenKind::BSlash);
            expected.push(TokenKind::Let);
            expected.push(TokenKind::True);
            expected.push(TokenKind::False);
            assert(expected@ =~= expr_start());
            Err(ParseError::UnexpectedToken { unexpected: tok.kind, expected, pos: tok.pos })
        },
    }
}

/// Parses an expression: atoms applied to one another, left-associatively,
/// up to `EOF`, `)` or `in`.
pub fn parse_expr(ctx: &mut ParseContext) -> (r: Result<Expression, ParseError>)
    requires
        old(ctx).wf(),
    ensures
        final(ctx).wf(),
        final(ctx).chars() == old(ctx).chars(),
        final(ctx).measure() <= old(ctx).measure(),
        old(ctx).tokens()[0].kind != TokenKind::EOF ==> final(ctx).measure() < old(ctx).measure(),
        first_tokens_decide(old(ctx).tokens(), old(ctx).chars(), r),
        r is Ok ==> ends_app(final(ctx).tokens()[0].kind),
        (final(ctx).state(), parse_value(r)) == parse_expr_spec(old(ctx).state()),
    decreases ctx.measure(), 1nat,
{
    let ghost m0 = ctx.measure();
    let ghost ts = ctx.tokens();
    let mut lhs = match parse_atom(ctx) {
        Ok(e) => e,
        Err(x) => {
            return Err(x);
        },
    };
    let ghost lhs0 = lhs;
    let ghost tok = ts[0];
    let ghost atom = (tok.kind == TokenKind::True || tok.kind == TokenKind::False || tok.kind
        == TokenKind::Id) && (ends_app(ts[1].kind) || ts[1].kind == TokenKind::Error);
    loop
        invariant
            ctx.wf(),
            ctx.chars() == old(ctx).chars(),
            ctx.measure() < m0,
            m0 == old(ctx).measure(),
            ts == old(ctx).tokens(),
            tok == ts[0],
            atom == ((tok.kind == TokenKind::True || tok.kind == TokenKind::False || tok.kind
                == TokenKind::Id) && (ends_app(ts[1].kind) || ts[1].kind == TokenKind::Error)),
            atom ==> ctx.tokens()[0] == ts[1] && lhs == lhs0,
            expr_start().contains(tok.kind),
            first_token_decides(ts, ctx.chars(), Ok::<Expression, ParseError>(lhs0)),
            parse_expr_spec(old(ctx).state()) == parse_apps_spec(ctx.state(), lhs.value()),
        ensures
            parse_expr_spec(old(ctx).state()) == (ctx.state(), Ok::<ExprView, ParseErrorView>(lhs.value())),
            ctx.wf(),
            ctx.chars() == old(ctx).chars(),
            ctx.measure() < m0,
            ends_app(ctx.tokens()[0].kind),
            atom ==> lhs == lhs0,
        decreases ctx.measure(),
    {
        let t = ctx.peek_nth(0);
        match t.kind {
            TokenKind::EOF | TokenKind::RParen | TokenKind::In => {
                break;
            },
            TokenKind::Error => {
                return Err(ParseError::InvalidToken { lexeme: ctx.lexeme(t), pos: t.pos });
            },
            _ => {},
        }
        let rhs = match parse_atom(ctx) {
            Ok(e) => e,
            Err(x) => {
                return Err(x);
            },
        };
        lhs = Expression::App { e0: Box::new(lhs), e1: Box::new(rhs) };
    }
    Ok(lhs)
}

/// The state before the first token of `src` is consumed.
pub open spec fn start_state(src: Seq<char>) -> (Seq<char>, nat, Seq<Token>) {
    (src, lex_run(src, 0, 4).1, lex_run(src, 0, 4).0)
}

/// A whole input: one expression, then the end of input.
pub open spec fn parse_spec(src: Seq<char>) -> Result<ExprView, ParseErrorView> {
    let (s1, r) = parse_expr_spec(start_state(src));
    match r {
        Err(x) => Err(x),
        Ok(e) => match expect_spec(s1, TokenKind::EOF).1 {
            Ok(_) => Ok(e),
            Err(x) => Err(x),
        },
    }
}

/// Parses `src` as one expression that takes the whole input; a `)` or `in`
/// left over is reported as unexpected where the end was due.
pub fn parse(src: &str) -> (r: Result<Expression, ParseError>)
    ensures
        parse_value(r) == parse_spec(src@),
        r is Ok ==> parse_expr_spec(start_state(src@)).0.2[0].kind == TokenKind::EOF,
{
    let mut ctx = ParseContext::new(src);
    let e = match parse_expr(&mut ctx) {
        Ok(e) => e,
        Err(x) => {
            return Err(x);
        },
    };
    match ctx.expect(TokenKind::EOF) {
        Ok(_) => Ok(e),
        Err(x) => Err(x),
    }
}

proof fn lemma_not_eof_count_push(ts: Seq<Token>, t: Token)
    ensures
        not_eof_count(ts.push(t)) == not_eof_count(ts) + if t.kind == TokenKind::EOF {
            0nat
        } else {
            1nat
        },
{
    assert(ts.push(t).drop_last() =~= ts);
}

proof fn lemma_not_eof_count_front(ts: Seq<Token>)
    requires
        ts.len() > 0,
    ensures
        not_eof_count(ts) == not_eof_count(ts.drop_first()) + if ts[0].kind == TokenKind::EOF {
            0nat
        } else {
            1nat
        },
    decreases ts.len(),
{
    if ts.len() > 1 {
        lemma_not_eof_count_front(ts.drop_last());
        assert(ts.drop_last().drop_first() =~= ts.drop_first().drop_last());
    } else {
        assert(ts.drop_first() =~= Seq::<Token>::empty());
        assert(ts.drop_last() =~= Seq::<Token>::empty());
    }
}

} // verus!
