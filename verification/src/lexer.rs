//! The lexer: turns source text into tokens. Positions are byte offsets into
//! the source. Whitespace and `//` line comments separate tokens.
use vstd::prelude::*;

use vstd::string::StringSliceAdditionalSpecFns;

use crate::text::{chars_to_string, latin1, latin1_string, str_chars, trim_ascii, trim_chars};

verus! {

broadcast use vstd::utf8::encode_utf8_valid_utf8, vstd::utf8::encode_utf8_decode_utf8;

/// The kinds of tokens.
#[derive(Debug, Clone, PartialEq)]
pub enum TokenKind {
    Ident(String),
    Int(i64),
    Str(String),
    Bytes(Vec<u8>),
    /// The trimmed text of an `explain { ... }` block.
    Explain(String),
    KwExtern,
    KwData,
    KwMatch,
    KwFn,
    KwLet,
    KwFor,
    KwIf,
    KwElse,
    KwTrue,
    KwFalse,
    /// `explain` that is not followed by a brace block.
    KwExplain,
    LParen,
    RParen,
    LBrace,
    RBrace,
    LBracket,
    RBracket,
    Comma,
    Colon,
    Semicolon,
    Eq,
    FatArrow,
    Bar,
    Plus,
    Minus,
    Star,
    Slash,
    Percent,
    EqEq,
    BangEq,
    Lt,
    LtEq,
    Gt,
    GtEq,
    AndAnd,
    OrOr,
    Bang,
    Pipe,
    Hash,
    DotDot,
    Invalid(char),
    Eof,
}

/// A token and the byte offset where it starts.
#[derive(Debug, Clone, PartialEq)]
pub struct Token {
    pub kind: TokenKind,
    pub position: usize,
}

/// The mathematical value of a token kind.
pub ghost enum SpecKind {
    Ident(Seq<char>),
    Int(i64),
    Str(Seq<char>),
    Bytes(Seq<u8>),
    Explain(Seq<char>),
    KwExtern,
    KwData,
    KwMatch,
    KwFn,
    KwLet,
    KwFor,
    KwIf,
    KwElse,
    KwTrue,
    KwFalse,
    KwExplain,
    LParen,
    RParen,
    LBrace,
    RBrace,
    LBracket,
    RBracket,
    Comma,
    Colon,
    Semicolon,
    Eq,
    FatArrow,
    Bar,
    Plus,
    Minus,
    Star,
    Slash,
    Percent,
    EqEq,
    BangEq,
    Lt,
    LtEq,
    Gt,
    GtEq,
    AndAnd,
    OrOr,
    Bang,
    Pipe,
    Hash,
    DotDot,
    Invalid(char),
    Eof,
}

/// The mathematical value of a token.
pub ghost struct SpecToken {
    pub kind: SpecKind,
    pub position: int,
}

impl View for TokenKind {
    type V = SpecKind;

    open spec fn view(&self) -> SpecKind {
        match self {
            TokenKind::Ident(s) => SpecKind::Ident(s@),
            TokenKind::Int(v) => SpecKind::Int(*v),
            TokenKind::Str(s) => SpecKind::Str(s@),
            TokenKind::Bytes(b) => SpecKind::Bytes(b@),
            TokenKind::Explain(s) => SpecKind::Explain(s@),
            TokenKind::KwExtern => SpecKind::KwExtern,
            TokenKind::KwData => SpecKind::KwData,
            TokenKind::KwMatch => SpecKind::KwMatch,
            TokenKind::KwFn => SpecKind::KwFn,
            TokenKind::KwLet => SpecKind::KwLet,
            TokenKind::KwFor => SpecKind::KwFor,
            TokenKind::KwIf => SpecKind::KwIf,
            TokenKind::KwElse => SpecKind::KwElse,
            TokenKind::KwTrue => SpecKind::KwTrue,
            TokenKind::KwFalse => SpecKind::KwFalse,
            TokenKind::KwExplain => SpecKind::KwExplain,
            TokenKind::LParen => SpecKind::LParen,
            TokenKind::RParen => SpecKind::RParen,
            TokenKind::LBrace => SpecKind::LBrace,
            TokenKind::RBrace => SpecKind::RBrace,
            TokenKind::LBracket => SpecKind::LBracket,
            TokenKind::RBracket => SpecKind::RBracket,
            TokenKind::Comma => SpecKind::Comma,
            TokenKind::Colon => SpecKind::Colon,
            TokenKind::Semicolon => SpecKind::Semicolon,
            TokenKind::Eq => SpecKind::Eq,
            TokenKind::FatArrow => SpecKind::FatArrow,
            TokenKind::Bar => SpecKind::Bar,
            TokenKind::Plus => SpecKind::Plus,
            TokenKind::Minus => SpecKind::Minus,
            TokenKind::Star => SpecKind::Star,
            TokenKind::Slash => SpecKind::Slash,
            TokenKind::Percent => SpecKind::Percent,
            TokenKind::EqEq => SpecKind::EqEq,
            TokenKind::BangEq => SpecKind::BangEq,
            TokenKind::Lt => SpecKind::Lt,
            TokenKind::LtEq => SpecKind::LtEq,
            TokenKind::Gt => SpecKind::Gt,
            TokenKind::GtEq => SpecKind::GtEq,
            TokenKind::AndAnd => SpecKind::AndAnd,
            TokenKind::OrOr => SpecKind::OrOr,
            TokenKind::Bang => SpecKind::Bang,
            TokenKind::Pipe => SpecKind::Pipe,
            TokenKind::Hash => SpecKind::Hash,
            TokenKind::DotDot => SpecKind::DotDot,
            TokenKind::Invalid(c) => SpecKind::Invalid(*c),
            TokenKind::Eof => SpecKind::Eof,
        }
    }
}

impl View for Token {
    type V = SpecToken;

    open spec fn view(&self) -> SpecToken {
        SpecToken { kind: self.kind@, position: self.position as int }
    }
}

/// The mathematical value of a token list.
pub open spec fn tokens_view(v: Seq<Token>) -> Seq<SpecToken> {
    Seq::new(v.len(), |i: int| v[i]@)
}

// ---------------------------------------------------------------------------
// Character classes (on bytes).
pub open spec fn is_space(c: u8) -> bool {
    c == 0x20 || c == 0x09 || c == 0x0a || c == 0x0c || c == 0x0d
}

pub open spec fn is_digit(c: u8) -> bool {
    0x30 <= c <= 0x39
}

pub open spec fn is_alpha(c: u8) -> bool {
    (0x41 <= c <= 0x5a) || (0x61 <= c <= 0x7a)
}

pub open spec fn is_ident_start(c: u8) -> bool {
    is_alpha(c) || c == 0x5f
}

pub open spec fn is_ident_char(c: u8) -> bool {
    is_alpha(c) || is_digit(c) || c == 0x5f
}

pub open spec fn is_hex_digit(c: u8) -> bool {
    is_digit(c) || (0x41 <= c <= 0x46) || (0x61 <= c <= 0x66)
}

pub open spec fn hex_value(c: u8) -> int {
    if is_digit(c) {
        c - 0x30
    } else if 0x41 <= c <= 0x46 {
        c - 0x41 + 10
    } else {
        c - 0x61 + 10
    }
}

// ---------------------------------------------------------------------------
// Scanning helpers.
/// The index of the first `\n` at or after `p`, or the end of the input.
pub open spec fn line_end(b: Seq<u8>, p: int) -> int
    decreases b.len() - p,
{
    if p >= b.len() || b[p] == 0x0a {
        p
    } else {
        line_end(b, p + 1)
    }
}

pub proof fn lemma_line_end(b: Seq<u8>, p: int)
    ensures
        p <= b.len() ==> p <= line_end(b, p) <= b.len(),
        p > b.len() ==> line_end(b, p) == p,
    decreases b.len() - p,
{
    if p < b.len() && b[p] != 0x0a {
        lemma_line_end(b, p + 1);
    }
}

/// Where the next token starts: whitespace and `//` comments are skipped.
pub open spec fn skip_trivia(b: Seq<u8>, p: int) -> int
    decreases b.len() - p,
{
    if 0 <= p < b.len() && is_space(b[p]) {
        skip_trivia(b, p + 1)
    } else if 0 <= p && p + 1 < b.len() && b[p] == 0x2f && b[p + 1] == 0x2f {
        proof {
            lemma_line_end(b, p + 2);
        }
        skip_trivia(b, line_end(b, p + 2))
    } else {
        p
    }
}

pub proof fn lemma_skip_trivia(b: Seq<u8>, p: int)
    requires
        0 <= p <= b.len(),
    ensures
        p <= skip_trivia(b, p) <= b.len(),
    decreases b.len() - p,
{
    if p < b.len() && is_space(b[p]) {
        lemma_skip_trivia(b, p + 1);
    } else if p + 1 < b.len() && b[p] == 0x2f && b[p + 1] == 0x2f {
        lemma_line_end(b, p + 2);
        lemma_skip_trivia(b, line_end(b, p + 2));
    }
}

/// The first index at or after `p` that does not satisfy the class.
pub open spec fn digits_end(b: Seq<u8>, p: int) -> int
    decreases b.len() - p,
{
    if 0 <= p < b.len() && is_digit(b[p]) {
        digits_end(b, p + 1)
    } else {
        p
    }
}

pub open spec fn ident_end(b: Seq<u8>, p: int) -> int
    decreases b.len() - p,
{
    if 0 <= p < b.len() && is_ident_char(b[p]) {
        ident_end(b, p + 1)
    } else {
        p
    }
}

pub open spec fn space_end(b: Seq<u8>, p: int) -> int
    decreases b.len() - p,
{
    if 0 <= p < b.len() && is_space(b[p]) {
        space_end(b, p + 1)
    } else {
        p
    }
}

pub proof fn lemma_scan_ends(b: Seq<u8>, p: int)
    requires
        0 <= p <= b.len(),
    ensures
        p <= digits_end(b, p) <= b.len(),
        p <= ident_end(b, p) <= b.len(),
        p <= space_end(b, p) <= b.len(),
    decreases b.len() - p,
{
    if p < b.len() {
        lemma_scan_ends(b, p + 1);
    }
}

/// The decimal value of the digits `b[s..e]`.
pub open spec fn digits_value(b: Seq<u8>, s: int, e: int) -> int
    decreases e - s,
{
    if e <= s {
        0
    } else {
        digits_value(b, s, e - 1) * 10 + (b[e - 1] - 0x30)
    }
}

/// The value of a number token: digits beyond the range of `i64` read as zero.
pub open spec fn number_value(b: Seq<u8>, s: int, e: int) -> i64 {
    if digits_value(b, s, e) <= i64::MAX {
        digits_value(b, s, e) as i64
    } else {
        0
    }
}

/// The byte after `\x` escapes: `p` is the index of the `x`. Gives the byte
/// (if both hex digits are there) and where lexing resumes.
pub open spec fn hex_escape(b: Seq<u8>, p: int) -> (Option<u8>, int) {
    if p + 1 >= b.len() {
        (None, p + 1)
    } else if p + 2 >= b.len() {
        (None, p + 2)
    } else if is_hex_digit(b[p + 1]) && is_hex_digit(b[p + 2]) {
        (Some((hex_value(b[p + 1]) * 16 + hex_value(b[p + 2])) as u8), p + 3)
    } else {
        (None, p + 3)
    }
}

/// The byte that a one-letter escape (`\n` and the like) stands for.
pub open spec fn simple_escape(c: u8) -> Option<u8> {
    if c == 0x6e {
        Some(0x0a)
    } else if c == 0x72 {
        Some(0x0d)
    } else if c == 0x74 {
        Some(0x09)
    } else if c == 0x30 {
        Some(0x00)
    } else if c == 0x5c {
        Some(0x5c)
    } else if c == 0x22 {
        Some(0x22u8)
    } else {
        None
    }
}

/// The body of a string or bytes literal from index `p` on, with the bytes
/// collected so far in `out`. Gives the bytes (or the invalid character)
/// and where lexing resumes.
pub open spec fn quoted_body(b: Seq<u8>, p: int, out: Seq<u8>) -> (Result<Seq<u8>, char>, int)
    decreases b.len() - p,
{
    if p < 0 || p >= b.len() {
        (Err('"'), p)
    } else if b[p] == 0x22 {
        (Ok(out), p + 1)
    } else if b[p] == 0x5c {
        if p + 1 >= b.len() {
            (Err('\\'), p + 1)
        } else if b[p + 1] == 0x78 {
            let (byte, next) = hex_escape(b, p + 1);
            match byte {
                Some(v) => quoted_body(b, next, out.push(v)),
                None => (Err('\\'), next),
            }
        } else {
            match simple_escape(b[p + 1]) {
                Some(v) => quoted_body(b, p + 2, out.push(v)),
                None => (Err('\\'), p + 1),
            }
        }
    } else {
        quoted_body(b, p + 1, out.push(b[p]))
    }
}

pub proof fn lemma_quoted_body(b: Seq<u8>, p: int, out: Seq<u8>)
    requires
        0 <= p <= b.len(),
    ensures
        p <= quoted_body(b, p, out).1 <= b.len(),
    decreases b.len() - p,
{
    if p < b.len() && b[p] != 0x22 {
        if b[p] == 0x5c {
            if p + 1 < b.len() {
                if b[p + 1] == 0x78 {
                    let (byte, next) = hex_escape(b, p + 1);
                    if byte is Some {
                        lemma_quoted_body(b, next, out.push(byte->0));
                    }
                } else if simple_escape(b[p + 1]) is Some {
                    lemma_quoted_body(b, p + 2, out.push(simple_escape(b[p + 1])->0));
                }
            }
        } else {
            lemma_quoted_body(b, p + 1, out.push(b[p]));
        }
    }
}

/// The index of the `}` that closes a brace block, scanning from `p` with
/// `depth` blocks open.
pub open spec fn brace_close(b: Seq<u8>, p: int, depth: nat) -> Option<int>
    decreases b.len() - p,
{
    if p < 0 || p >= b.len() {
        None
    } else if b[p] == 0x7d {
        if depth <= 1 {
            Some(p)
        } else {
            brace_close(b, p + 1, (depth - 1) as nat)
        }
    } else if b[p] == 0x7b {
        brace_close(b, p + 1, depth + 1)
    } else {
        brace_close(b, p + 1, depth)
    }
}

pub proof fn lemma_brace_close(b: Seq<u8>, p: int, depth: nat)
    requires
        0 <= p,
    ensures
        brace_close(b, p, depth) matches Some(j) ==> p <= j < b.len() && b[j] == 0x7d,
    decreases b.len() - p,
{
    if 0 <= p < b.len() {
        if b[p] == 0x7d {
            if depth > 1 {
                lemma_brace_close(b, p + 1, (depth - 1) as nat);
            }
        } else if b[p] == 0x7b {
            lemma_brace_close(b, p + 1, depth + 1);
        } else {
            lemma_brace_close(b, p + 1, depth);
        }
    }
}

/// The keyword spelled by a word, if it is one.
pub open spec fn keyword(w: Seq<u8>) -> Option<SpecKind> {
    if w == seq![0x65u8, 0x78, 0x74, 0x65, 0x72, 0x6e] {
        Some(SpecKind::KwExtern)
    } else if w == seq![0x64u8, 0x61, 0x74, 0x61] {
        Some(SpecKind::KwData)
    } else if w == seq![0x6du8, 0x61, 0x74, 0x63, 0x68] {
        Some(SpecKind::KwMatch)
    } else if w == seq![0x66u8, 0x6e] {
        Some(SpecKind::KwFn)
    } else if w == seq![0x6cu8, 0x65, 0x74] {
        Some(SpecKind::KwLet)
    } else if w == seq![0x66u8, 0x6f, 0x72] {
        Some(SpecKind::KwFor)
    } else if w == seq![0x69u8, 0x66] {
        Some(SpecKind::KwIf)
    } else if w == seq![0x65u8, 0x6c, 0x73, 0x65] {
        Some(SpecKind::KwElse)
    } else if w == seq![0x74u8, 0x72, 0x75, 0x65] {
        Some(SpecKind::KwTrue)
    } else if w == seq![0x66u8, 0x61, 0x6c, 0x73, 0x65] {
        Some(SpecKind::KwFalse)
    } else {
        None
    }
}

/// The word `explain`.
pub open spec fn is_explain_word(w: Seq<u8>) -> bool {
    w == seq![0x65u8, 0x78, 0x70, 0x6c, 0x61, 0x69, 0x6e]
}

/// The text of an explain block: the characters between the braces,
/// trimmed of surrounding whitespace. `open` is the index of `{`, `close`
/// that of the matching `}`.
pub open spec fn explain_text(b: Seq<u8>, open: int, close: int) -> Seq<char> {
    trim_ascii(vstd::utf8::decode_utf8(b.subrange(open, close)).drop_first())
}

/// The token that starts with an identifier character at `q`, and where
/// lexing resumes.
pub open spec fn word_token(b: Seq<u8>, q: int) -> (SpecKind, int) {
    let e = ident_end(b, q);
    let w = b.subrange(q, e);
    if is_explain_word(w) {
        let s = space_end(b, e);
        if s < b.len() && b[s] == 0x7b {
            match brace_close(b, s + 1, 1) {
                Some(j) => (SpecKind::Explain(explain_text(b, s, j)), j + 1),
                None => (SpecKind::Invalid('{'), b.len() as int),
            }
        } else {
            (SpecKind::KwExplain, e)
        }
    } else {
        match keyword(w) {
            Some(k) => (k, e),
            None => (SpecKind::Ident(latin1(w)), e),
        }
    }
}

/// Tokens made of one character that never starts a longer token.
pub open spec fn single_char_kind(c: u8) -> Option<SpecKind> {
    if c == 0x28 {
        Some(SpecKind::LParen)
    } else if c == 0x29 {
        Some(SpecKind::RParen)
    } else if c == 0x7b {
        Some(SpecKind::LBrace)
    } else if c == 0x7d {
        Some(SpecKind::RBrace)
    } else if c == 0x5b {
        Some(SpecKind::LBracket)
    } else if c == 0x5d {
        Some(SpecKind::RBracket)
    } else if c == 0x2c {
        Some(SpecKind::Comma)
    } else if c == 0x3a {
        Some(SpecKind::Colon)
    } else if c == 0x3b {
        Some(SpecKind::Semicolon)
    } else if c == 0x2b {
        Some(SpecKind::Plus)
    } else if c == 0x2d {
        Some(SpecKind::Minus)
    } else if c == 0x2a {
        Some(SpecKind::Star)
    } else if c == 0x2f {
        Some(SpecKind::Slash)
    } else if c == 0x25 {
        Some(SpecKind::Percent)
    } else if c == 0x23 {
        Some(SpecKind::Hash)
    } else {
        None
    }
}

/// Operators of one or two characters: the kind when the next byte is
/// `second`, given the first byte `c`. `None` when `c` starts no operator.
pub open spec fn operator_kind(c: u8, next: Option<u8>) -> Option<(SpecKind, int)> {
    if c == 0x3d {
        if next == Some(0x3du8) {
            Some((SpecKind::EqEq, 2))
        } else if next == Some(0x3eu8) {
            Some((SpecKind::FatArrow, 2))
        } else {
            Some((SpecKind::Eq, 1))
        }
    } else if c == 0x21 {
        if next == Some(0x3du8) {
            Some((SpecKind::BangEq, 2))
        } else {
            Some((SpecKind::Bang, 1))
        }
    } else if c == 0x3c {
        if next == Some(0x3du8) {
            Some((SpecKind::LtEq, 2))
        } else {
            Some((SpecKind::Lt, 1))
        }
    } else if c == 0x3e {
        if next == Some(0x3du8) {
            Some((SpecKind::GtEq, 2))
        } else {
            Some((SpecKind::Gt, 1))
        }
    } else if c == 0x26 {
        if next == Some(0x26u8) {
            Some((SpecKind::AndAnd, 2))
        } else {
            Some((SpecKind::Invalid('&'), 1))
        }
    } else if c == 0x7c {
        if next == Some(0x7cu8) {
            Some((SpecKind::OrOr, 2))
        } else if next == Some(0x3eu8) {
            Some((SpecKind::Pipe, 2))
        } else {
            Some((SpecKind::Bar, 1))
        }
    } else if c == 0x2e {
        if next == Some(0x2eu8) {
            Some((SpecKind::DotDot, 2))
        } else {
            Some((SpecKind::Invalid('.'), 1))
        }
    } else {
        None
    }
}

pub open spec fn byte_at(b: Seq<u8>, i: int) -> Option<u8> {
    if 0 <= i < b.len() {
        Some(b[i])
    } else {
        None
    }
}

/// The token at `q` (the start of a token, past any trivia) and where
/// lexing resumes.
pub open spec fn token_at(b: Seq<u8>, q: int) -> (SpecKind, int) {
    if q >= b.len() {
        (SpecKind::Eof, q)
    } else {
        let c = b[q];
        match single_char_kind(c) {
            Some(k) => (k, q + 1),
            None => match operator_kind(c, byte_at(b, q + 1)) {
                Some((k, n)) => (k, q + n),
                None => if is_digit(c) {
                    let e = digits_end(b, q);
                    (SpecKind::Int(number_value(b, q, e)), e)
                } else if c == 0x22 {
                    let (r, next) = quoted_body(b, q + 1, Seq::empty());
                    match r {
                        Ok(out) => (SpecKind::Str(latin1(out)), next),
                        Err(ch) => (SpecKind::Invalid(ch), next),
                    }
                } else if c == 0x62 && byte_at(b, q + 1) == Some(0x22u8) {
                    let (r, next) = quoted_body(b, q + 2, Seq::empty());
                    match r {
                        Ok(out) => (SpecKind::Bytes(out), next),
                        Err(ch) => (SpecKind::Invalid(ch), next),
                    }
                } else if is_ident_start(c) {
                    word_token(b, q)
                } else {
                    (SpecKind::Invalid(c as char), q + 1)
                },
            },
        }
    }
}

/// The next token from position `p` and where lexing resumes.
pub open spec fn next_token(b: Seq<u8>, p: int) -> (SpecToken, int) {
    let q = skip_trivia(b, p);
    let (k, next) = token_at(b, q);
    (SpecToken { kind: k, position: q }, next)
}

pub proof fn lemma_next_token(b: Seq<u8>, p: int)
    requires
        0 <= p <= b.len(),
    ensures
        p <= next_token(b, p).1 <= b.len(),
        next_token(b, p).0.kind !is Eof ==> next_token(b, p).1 > p,
        next_token(b, p).0.kind is Eof ==> next_token(b, p).1 == b.len(),
        next_token(b, p).0.kind is Eof ==> next_token(b, p).0.position == b.len(),
        next_token(b, p).0.kind !is Eof ==> next_token(b, p).0.position < next_token(b, p).1,
        p <= next_token(b, p).0.position <= b.len(),
{
    lemma_skip_trivia(b, p);
    let q = skip_trivia(b, p);
    if q < b.len() {
        lemma_scan_ends(b, q);
        lemma_scan_ends(b, q + 1);
        lemma_quoted_body(b, q + 1, Seq::empty());
        if q + 2 <= b.len() {
            lemma_quoted_body(b, q + 2, Seq::empty());
        }
        let e = ident_end(b, q);
        lemma_scan_ends(b, e);
        let s = space_end(b, e);
        lemma_brace_close(b, s + 1, 1);
    }
}

/// All tokens from position `p` on, ending with `Eof`.
pub open spec fn lex_from(b: Seq<u8>, p: int) -> Seq<SpecToken>
    decreases b.len() + 1 - p,
{
    if p < 0 || p > b.len() {
        seq![SpecToken { kind: SpecKind::Eof, position: p }]
    } else {
        let (t, next) = next_token(b, p);
        proof {
            lemma_next_token(b, p);
        }
        if t.kind is Eof {
            seq![t]
        } else {
            seq![t] + lex_from(b, next)
        }
    }
}

/// Lexing from any position of a text gives at least one token and at most
/// one more than there are bytes left: the last token is `Eof`, at the end
/// of the text, no other is `Eof`, and the positions of the tokens strictly
/// increase, from no earlier than where lexing started.
pub proof fn law_token_list_shape(b: Seq<u8>, p: int)
    requires
        0 <= p <= b.len(),
    ensures
        1 <= lex_from(b, p).len() <= b.len() - p + 1,
        lex_from(b, p).last() == (SpecToken { kind: SpecKind::Eof, position: b.len() as int }),
        forall|i: int| 0 <= i < lex_from(b, p).len() - 1 ==> (#[trigger] lex_from(b, p)[i]).kind !is Eof,
        forall|i: int|
            0 <= i < lex_from(b, p).len() - 1 ==> (#[trigger] lex_from(b, p)[i]).position < lex_from(
                b,
                p,
            )[i + 1].position,
        forall|i: int| 0 <= i < lex_from(b, p).len() ==> p <= (#[trigger] lex_from(b, p)[i]).position,
    decreases b.len() + 1 - p,
{
    lemma_next_token(b, p);
    let (t, next) = next_token(b, p);
    let ts = lex_from(b, p);
    if !(t.kind is Eof) {
        law_token_list_shape(b, next);
        let rest = lex_from(b, next);
        assert(ts == seq![t] + rest);
        assert forall|i: int| 0 <= i < ts.len() - 1 implies (#[trigger] ts[i]).kind !is Eof by {
            if i > 0 {
                assert(ts[i] == rest[i - 1]);
            }
        }
        assert forall|i: int| 0 <= i < ts.len() - 1 implies (#[trigger] ts[i]).position < ts[i
            + 1].position by {
            assert(ts[i + 1] == rest[i]);
            if i > 0 {
                assert(ts[i] == rest[i - 1]);
            } else {
                assert(rest[0].position >= next);
            }
        }
        assert forall|i: int| 0 <= i < ts.len() implies p <= (#[trigger] ts[i]).position by {
            if i > 0 {
                assert(ts[i] == rest[i - 1]);
            }
        }
    }
}

/// A scan over a run of identifier characters, or of digits, ends at the
/// end of the run.
proof fn lemma_run_ends(b: Seq<u8>, p: int)
    requires
        0 <= p <= b.len(),
    ensures
        (forall|i: int| p <= i < b.len() ==> is_ident_char(#[trigger] b[i])) ==> ident_end(b, p)
            == b.len(),
        (forall|i: int| p <= i < b.len() ==> is_digit(#[trigger] b[i])) ==> digits_end(b, p)
            == b.len(),
    decreases b.len() - p,
{
    if p < b.len() {
        lemma_run_ends(b, p + 1);
    }
}

/// The token that a word of identifier characters spells: `explain`, a
/// keyword, or else an identifier.
pub open spec fn word_kind(w: Seq<u8>) -> SpecKind {
    if is_explain_word(w) {
        SpecKind::KwExplain
    } else {
        match keyword(w) {
            Some(k) => k,
            None => SpecKind::Ident(latin1(w)),
        }
    }
}

/// How each keyword is written in source text.
pub open spec fn keyword_spelling(k: SpecKind) -> Seq<u8> {
    match k {
        SpecKind::KwData => seq![0x64u8, 0x61, 0x74, 0x61],
        SpecKind::KwExtern => seq![0x65u8, 0x78, 0x74, 0x65, 0x72, 0x6e],
        SpecKind::KwFn => seq![0x66u8, 0x6e],
        SpecKind::KwLet => seq![0x6cu8, 0x65, 0x74],
        SpecKind::KwMatch => seq![0x6du8, 0x61, 0x74, 0x63, 0x68],
        SpecKind::KwIf => seq![0x69u8, 0x66],
        SpecKind::KwElse => seq![0x65u8, 0x6c, 0x73, 0x65],
        SpecKind::KwTrue => seq![0x74u8, 0x72, 0x75, 0x65],
        SpecKind::KwFalse => seq![0x66u8, 0x61, 0x6c, 0x73, 0x65],
        SpecKind::KwFor => seq![0x66u8, 0x6f, 0x72],
        SpecKind::KwExplain => seq![0x65u8, 0x78, 0x70, 0x6c, 0x61, 0x69, 0x6e],
        _ => Seq::empty(),
    }
}

/// A word spells a keyword exactly when it is that keyword's spelling:
/// each keyword's spelling lexes as that keyword, and a word that is no
/// keyword's spelling lexes as an identifier with its text.
pub proof fn law_keywords_as_spelled(w: Seq<u8>, k: SpecKind)
    ensures
        keyword_spelling(k).len() > 0 ==> word_kind(keyword_spelling(k)) == k,
        (forall|k2: SpecKind| keyword_spelling(k2) != w) ==> word_kind(w) == SpecKind::Ident(latin1(w)),
{
    if keyword_spelling(k).len() > 0 {
        assert(keyword_spelling(SpecKind::KwData) =~= seq![0x64u8, 0x61, 0x74, 0x61]);
        assert(keyword_spelling(SpecKind::KwExtern) =~= seq![0x65u8, 0x78, 0x74, 0x65, 0x72, 0x6e]);
        assert(keyword_spelling(SpecKind::KwFn) =~= seq![0x66u8, 0x6e]);
        assert(keyword_spelling(SpecKind::KwLet) =~= seq![0x6cu8, 0x65, 0x74]);
        assert(keyword_spelling(SpecKind::KwMatch) =~= seq![0x6du8, 0x61, 0x74, 0x63, 0x68]);
        assert(keyword_spelling(SpecKind::KwIf) =~= seq![0x69u8, 0x66]);
        assert(keyword_spelling(SpecKind::KwElse) =~= seq![0x65u8, 0x6c, 0x73, 0x65]);
        assert(keyword_spelling(SpecKind::KwTrue) =~= seq![0x74u8, 0x72, 0x75, 0x65]);
        assert(keyword_spelling(SpecKind::KwFalse) =~= seq![0x66u8, 0x61, 0x6c, 0x73, 0x65]);
        assert(keyword_spelling(SpecKind::KwFor) =~= seq![0x66u8, 0x6f, 0x72]);
        assert(keyword_spelling(SpecKind::KwExplain) =~= seq![0x65u8, 0x78, 0x70, 0x6c, 0x61, 0x69, 0x6e]);
    }
    if forall|k2: SpecKind| keyword_spelling(k2) != w {
        assert(keyword_spelling(SpecKind::KwData) != w);
        assert(keyword_spelling(SpecKind::KwExtern) != w);
        assert(keyword_spelling(SpecKind::KwFn) != w);
        assert(keyword_spelling(SpecKind::KwLet) != w);
        assert(keyword_spelling(SpecKind::KwMatch) != w);
        assert(keyword_spelling(SpecKind::KwIf) != w);
        assert(keyword_spelling(SpecKind::KwElse) != w);
        assert(keyword_spelling(SpecKind::KwTrue) != w);
        assert(keyword_spelling(SpecKind::KwFalse) != w);
        assert(keyword_spelling(SpecKind::KwFor) != w);
        assert(keyword_spelling(SpecKind::KwExplain) != w);
    }
}

/// A text that is one word (a letter or `_`, then letters, digits and `_`)
/// lexes to one token, the keyword it spells or else an identifier with its
/// text, then `Eof` at its end.
pub proof fn law_word_lexes_to_one_token(w: Seq<u8>)
    requires
        w.len() > 0,
        is_ident_start(w[0]),
        forall|i: int| 0 <= i < w.len() ==> is_ident_char(#[trigger] w[i]),
    ensures
        lex_from(w, 0) == seq![
            SpecToken { kind: word_kind(w), position: 0 },
            SpecToken { kind: SpecKind::Eof, position: w.len() as int },
        ],
{
    lemma_run_ends(w, 0);
    assert(w.subrange(0, w.len() as int) =~= w);
    lemma_next_token(w, 0);
    lemma_next_token(w, w.len() as int);
    assert(lex_from(w, w.len() as int) == seq![SpecToken { kind: SpecKind::Eof, position: w.len() as int }]);
}

proof fn lemma_digits_value_nonneg(b: Seq<u8>, s: int, e: int)
    requires
        0 <= s,
        e <= b.len(),
        forall|i: int| s <= i < e ==> is_digit(#[trigger] b[i]),
    ensures
        digits_value(b, s, e) >= 0,
    decreases e - s,
{
    if s < e {
        lemma_digits_value_nonneg(b, s, e - 1);
        assert(is_digit(b[e - 1]));
    }
}

/// A text of decimal digits lexes to one number token with their value
/// (zero beyond the range of `i64`), then `Eof` at its end.
pub proof fn law_numeral_lexes_to_one_token(d: Seq<u8>)
    requires
        d.len() > 0,
        forall|i: int| 0 <= i < d.len() ==> is_digit(#[trigger] d[i]),
    ensures
        lex_from(d, 0) == seq![
            SpecToken { kind: SpecKind::Int(number_value(d, 0, d.len() as int)), position: 0 },
            SpecToken { kind: SpecKind::Eof, position: d.len() as int },
        ],
        digits_value(d, 0, d.len() as int) <= i64::MAX ==> number_value(d, 0, d.len() as int)
            == digits_value(d, 0, d.len() as int),
{
    lemma_run_ends(d, 0);
    lemma_next_token(d, 0);
    lemma_next_token(d, d.len() as int);
    assert(is_digit(d[0]));
    lemma_digits_value_nonneg(d, 0, d.len() as int);
    assert(lex_from(d, d.len() as int) == seq![SpecToken { kind: SpecKind::Eof, position: d.len() as int }]);
}

/// How each punctuation token is written in source text.
pub open spec fn punct_spelling(k: SpecKind) -> Seq<u8> {
    match k {
        SpecKind::LParen => seq![0x28u8],
        SpecKind::RParen => seq![0x29u8],
        SpecKind::LBrace => seq![0x7bu8],
        SpecKind::RBrace => seq![0x7du8],
        SpecKind::LBracket => seq![0x5bu8],
        SpecKind::RBracket => seq![0x5du8],
        SpecKind::Comma => seq![0x2cu8],
        SpecKind::Colon => seq![0x3au8],
        SpecKind::Semicolon => seq![0x3bu8],
        SpecKind::Plus => seq![0x2bu8],
        SpecKind::Minus => seq![0x2du8],
        SpecKind::Star => seq![0x2au8],
        SpecKind::Slash => seq![0x2fu8],
        SpecKind::Percent => seq![0x25u8],
        SpecKind::Hash => seq![0x23u8],
        SpecKind::Eq => seq![0x3du8],
        SpecKind::EqEq => seq![0x3du8, 0x3d],
        SpecKind::FatArrow => seq![0x3du8, 0x3e],
        SpecKind::Bang => seq![0x21u8],
        SpecKind::BangEq => seq![0x21u8, 0x3d],
        SpecKind::Lt => seq![0x3cu8],
        SpecKind::LtEq => seq![0x3cu8, 0x3d],
        SpecKind::Gt => seq![0x3eu8],
        SpecKind::GtEq => seq![0x3eu8, 0x3d],
        SpecKind::AndAnd => seq![0x26u8, 0x26],
        SpecKind::OrOr => seq![0x7cu8, 0x7c],
        SpecKind::Pipe => seq![0x7cu8, 0x3e],
        SpecKind::Bar => seq![0x7cu8],
        SpecKind::DotDot => seq![0x2eu8, 0x2e],
        _ => Seq::empty(),
    }
}

/// Punctuation lexes by the longest spelling: where a token's spelling
/// stands at `q` (and, for one character, the next character does not
/// complete a two-character spelling), the token there is that one, and
/// lexing resumes right after its spelling. So `<=` is one `LtEq`, `<`
/// before anything but `=` is `Lt`, and likewise for every operator.
pub proof fn law_punctuation_lexes_as_spelled(b: Seq<u8>, q: int, k: SpecKind)
    requires
        0 <= q,
        punct_spelling(k).len() > 0,
        q + punct_spelling(k).len() <= b.len(),
        b.subrange(q, q + punct_spelling(k).len()) == punct_spelling(k),
        punct_spelling(k).len() == 1 && q + 1 < b.len() ==> forall|k2: SpecKind|
            punct_spelling(k2) != seq![b[q], b[q + 1]],
    ensures
        token_at(b, q) == (k, q + punct_spelling(k).len()),
{
    let n = punct_spelling(k).len() as int;
    assert(b[q] == b.subrange(q, q + n)[0]);
    if n == 2 {
        assert(b[q + 1] == b.subrange(q, q + n)[1]);
    }
    if n == 1 && q + 1 < b.len() {
            if b[q] == seq![0x3du8, 0x3d][0] && b[q + 1] == seq![0x3du8, 0x3d][1] {
                assert(punct_spelling(SpecKind::EqEq) =~= seq![b[q], b[q + 1]]);
            }
            if b[q] == seq![0x3du8, 0x3e][0] && b[q + 1] == seq![0x3du8, 0x3e][1] {
                assert(punct_spelling(SpecKind::FatArrow) =~= seq![b[q], b[q + 1]]);
            }
            if b[q] == seq![0x21u8, 0x3d][0] && b[q + 1] == seq![0x21u8, 0x3d][1] {
                assert(punct_spelling(SpecKind::BangEq) =~= seq![b[q], b[q + 1]]);
            }
            if b[q] == seq![0x3cu8, 0x3d][0] && b[q + 1] == seq![0x3cu8, 0x3d][1] {
                assert(punct_spelling(SpecKind::LtEq) =~= seq![b[q], b[q + 1]]);
            }
            if b[q] == seq![0x3eu8, 0x3d][0] && b[q + 1] == seq![0x3eu8, 0x3d][1] {
                assert(punct_spelling(SpecKind::GtEq) =~= seq![b[q], b[q + 1]]);
            }
            if b[q] == seq![0x26u8, 0x26][0] && b[q + 1] == seq![0x26u8, 0x26][1] {
                assert(punct_spelling(SpecKind::AndAnd) =~= seq![b[q], b[q + 1]]);
            }
            if b[q] == seq![0x7cu8, 0x7c][0] && b[q + 1] == seq![0x7cu8, 0x7c][1] {
                assert(punct_spelling(SpecKind::OrOr) =~= seq![b[q], b[q + 1]]);
            }
            if b[q] == seq![0x7cu8, 0x3e][0] && b[q + 1] == seq![0x7cu8, 0x3e][1] {
                assert(punct_spelling(SpecKind::Pipe) =~= seq![b[q], b[q + 1]]);
            }
            if b[q] == seq![0x2eu8, 0x2e][0] && b[q + 1] == seq![0x2eu8, 0x2e][1] {
                assert(punct_spelling(SpecKind::DotDot) =~= seq![b[q], b[q + 1]]);
            }
    }
}

/// The tokens of a source text.
pub open spec fn lex_source(input: &str) -> Seq<SpecToken> {
    lex_from(input.spec_bytes(), 0)
}

// ---------------------------------------------------------------------------
// Byte classes and small token tables, executable.
fn is_space_byte(c: u8) -> (r: bool)
    ensures
        r == is_space(c),
{
    c == 0x20 || c == 0x09 || c == 0x0a || c == 0x0c || c == 0x0d
}

fn is_digit_byte(c: u8) -> (r: bool)
    ensures
        r == is_digit(c),
{
    0x30 <= c && c <= 0x39
}

fn is_ident_start_byte(c: u8) -> (r: bool)
    ensures
        r == is_ident_start(c),
{
    (0x41 <= c && c <= 0x5a) || (0x61 <= c && c <= 0x7a) || c == 0x5f
}

fn is_ident_byte(c: u8) -> (r: bool)
    ensures
        r == is_ident_char(c),
{
    (0x41 <= c && c <= 0x5a) || (0x61 <= c && c <= 0x7a) || (0x30 <= c && c <= 0x39) || c == 0x5f
}

fn hex_digit_value(c: u8) -> (r: Option<u8>)
    ensures
        r is Some <==> is_hex_digit(c),
        r matches Some(v) ==> v == hex_value(c) && v < 16,
{
    if 0x30 <= c && c <= 0x39 {
        Some(c - 0x30)
    } else if 0x41 <= c && c <= 0x46 {
        Some(c - 0x41 + 10)
    } else if 0x61 <= c && c <= 0x66 {
        Some(c - 0x61 + 10)
    } else {
        None
    }
}

fn simple_escape_byte(c: u8) -> (r: Option<u8>)
    ensures
        r == simple_escape(c),
{
    if c == 0x6e {
        Some(0x0a)
    } else if c == 0x72 {
        Some(0x0d)
    } else if c == 0x74 {
        Some(0x09)
    } else if c == 0x30 {
        Some(0x00)
    } else if c == 0x5c {
        Some(0x5c)
    } else if c == 0x22 {
        Some(0x22u8)
    } else {
        None
    }
}

fn single_char_token(c: u8) -> (r: Option<TokenKind>)
    ensures
        r is Some <==> single_char_kind(c) is Some,
        r matches Some(k) ==> single_char_kind(c) == Some(k@),
{
    if c == 0x28 {
        Some(TokenKind::LParen)
    } else if c == 0x29 {
        Some(TokenKind::RParen)
    } else if c == 0x7b {
        Some(TokenKind::LBrace)
    } else if c == 0x7d {
        Some(TokenKind::RBrace)
    } else if c == 0x5b {
        Some(TokenKind::LBracket)
    } else if c == 0x5d {
        Some(TokenKind::RBracket)
    } else if c == 0x2c {
        Some(TokenKind::Comma)
    } else if c == 0x3a {
        Some(TokenKind::Colon)
    } else if c == 0x3b {
        Some(TokenKind::Semicolon)
    } else if c == 0x2b {
        Some(TokenKind::Plus)
    } else if c == 0x2d {
        Some(TokenKind::Minus)
    } else if c == 0x2a {
        Some(TokenKind::Star)
    } else if c == 0x2f {
        Some(TokenKind::Slash)
    } else if c == 0x25 {
        Some(TokenKind::Percent)
    } else if c == 0x23 {
        Some(TokenKind::Hash)
    } else {
        None
    }
}

fn operator_token(c: u8, next: Option<u8>) -> (r: Option<(TokenKind, usize)>)
    ensures
        r is Some <==> operator_kind(c, next) is Some,
        r matches Some((k, n)) ==> operator_kind(c, next) == Some((k@, n as int)),
{
    if c == 0x3d {
        if next == Some(0x3du8) {
            Some((TokenKind::EqEq, 2))
        } else if next == Some(0x3eu8) {
            Some((TokenKind::FatArrow, 2))
        } else {
            Some((TokenKind::Eq, 1))
        }
    } else if c == 0x21 {
        if next == Some(0x3du8) {
            Some((TokenKind::BangEq, 2))
        } else {
            Some((TokenKind::Bang, 1))
        }
    } else if c == 0x3c {
        if next == Some(0x3du8) {
            Some((TokenKind::LtEq, 2))
        } else {
            Some((TokenKind::Lt, 1))
        }
    } else if c == 0x3e {
        if next == Some(0x3du8) {
            Some((TokenKind::GtEq, 2))
        } else {
            Some((TokenKind::Gt, 1))
        }
    } else if c == 0x26 {
        if next == Some(0x26u8) {
            Some((TokenKind::AndAnd, 2))
        } else {
            Some((TokenKind::Invalid('&'), 1))
        }
    } else if c == 0x7c {
        if next == Some(0x7cu8) {
            Some((TokenKind::OrOr, 2))
        } else if next == Some(0x3eu8) {
            Some((TokenKind::Pipe, 2))
        } else {
            Some((TokenKind::Bar, 1))
        }
    } else if c == 0x2e {
        if next == Some(0x2eu8) {
            Some((TokenKind::DotDot, 2))
        } else {
            Some((TokenKind::Invalid('.'), 1))
        }
    } else {
        None
    }
}

/// Whether `b[s..e]` spells `w`.
fn slice_is(b: &[u8], s: usize, e: usize, w: &[u8]) -> (r: bool)
    requires
        s <= e <= b@.len(),
    ensures
        r == (b@.subrange(s as int, e as int) == w@),
{
    if e - s != w.len() {
        return false;
    }
    let mut i: usize = 0;
    while i < w.len()
        invariant
            e - s == w@.len(),
            s <= e <= b@.len(),
            i <= w@.len(),
            forall|k: int| 0 <= k < i ==> b@[s + k] == w@[k],
        decreases w@.len() - i,
    {
        if b[s + i] != w[i] {
            assert(b@.subrange(s as int, e as int)[i as int] != w@[i as int]);
            return false;
        }
        i += 1;
    }
    assert(b@.subrange(s as int, e as int) =~= w@);
    true
}

/// The bytes `b[s..e]`.
fn slice_range(b: &[u8], s: usize, e: usize) -> (r: Vec<u8>)
    requires
        s <= e <= b@.len(),
    ensures
        r@ == b@.subrange(s as int, e as int),
{
    let mut r: Vec<u8> = Vec::new();
    let mut i = s;
    while i < e
        invariant
            s <= i <= e <= b@.len(),
            r@ == b@.subrange(s as int, i as int),
        decreases e - i,
    {
        r.push(b[i]);
        assert(b@.subrange(s as int, i + 1) =~= b@.subrange(s as int, i as int).push(b@[i as int]));
        i += 1;
    }
    r
}

fn keyword_token(b: &[u8], s: usize, e: usize) -> (r: Option<TokenKind>)
    requires
        s <= e <= b@.len(),
    ensures
        r is Some <==> keyword(b@.subrange(s as int, e as int)) is Some,
        r matches Some(k) ==> keyword(b@.subrange(s as int, e as int)) == Some(k@),
{
    let ghost w = b@.subrange(s as int, e as int);
    if slice_is(b, s, e, &[0x65u8, 0x78, 0x74, 0x65, 0x72, 0x6e]) {
        Some(TokenKind::KwExtern)
    } else if slice_is(b, s, e, &[0x64u8, 0x61, 0x74, 0x61]) {
        Some(TokenKind::KwData)
    } else if slice_is(b, s, e, &[0x6du8, 0x61, 0x74, 0x63, 0x68]) {
        Some(TokenKind::KwMatch)
    } else if slice_is(b, s, e, &[0x66u8, 0x6e]) {
        Some(TokenKind::KwFn)
    } else if slice_is(b, s, e, &[0x6cu8, 0x65, 0x74]) {
        Some(TokenKind::KwLet)
    } else if slice_is(b, s, e, &[0x66u8, 0x6f, 0x72]) {
        Some(TokenKind::KwFor)
    } else if slice_is(b, s, e, &[0x69u8, 0x66]) {
        Some(TokenKind::KwIf)
    } else if slice_is(b, s, e, &[0x65u8, 0x6c, 0x73, 0x65]) {
        Some(TokenKind::KwElse)
    } else if slice_is(b, s, e, &[0x74u8, 0x72, 0x75, 0x65]) {
        Some(TokenKind::KwTrue)
    } else if slice_is(b, s, e, &[0x66u8, 0x61, 0x6c, 0x73, 0x65]) {
        Some(TokenKind::KwFalse)
    } else {
        None
    }
}

/// The text of the explain block whose braces are at byte offsets `open`
/// and `close` of `input`.
fn explain_block_text(input: &str, open: usize, close: usize) -> (r: String)
    requires
        open < close < input.spec_bytes().len(),
        input.spec_bytes()[open as int] == 0x7b,
        input.spec_bytes()[close as int] == 0x7d,
    ensures
        r@ == explain_text(input.spec_bytes(), open as int, close as int),
{
    let ghost b = input.spec_bytes();
    proof {
        vstd::utf8::is_char_boundary_iff_not_is_continuation_byte(b, open as int);
    }
    let (_, rest) = input.split_at(open);
    let ghost rb = rest.spec_bytes();
    proof {
        vstd::utf8::valid_utf8_split(b, open as int);
        assert(rb =~= b.subrange(open as int, b.len() as int));
        assert(rb[(close - open) as int] == 0x7d);
        vstd::utf8::is_char_boundary_iff_not_is_continuation_byte(rb, (close - open) as int);
    }
    let (mid, _) = rest.split_at(close - open);
    proof {
        assert(mid.spec_bytes() =~= b.subrange(open as int, close as int));
        assert(mid@ == vstd::utf8::decode_utf8(mid.spec_bytes()));
    }
    let chars = str_chars(mid);
    let mut inner: Vec<char> = Vec::new();
    let mut i: usize = 1;
    while i < chars.len()
        invariant
            1 <= i <= chars@.len(),
            inner@ == chars@.subrange(1, i as int),
        decreases chars@.len() - i,
    {
        inner.push(chars[i]);
        assert(chars@.subrange(1, i + 1) =~= chars@.subrange(1, i as int).push(chars@[i as int]));
        i += 1;
    }
    assert(inner@ =~= chars@.drop_first());
    let trimmed = trim_chars(&inner);
    chars_to_string(&trimmed)
}

// ---------------------------------------------------------------------------
/// A lexer over one source text.
pub struct Lexer<'a> {
    input: &'a str,
    bytes: &'a [u8],
    pos: usize,
    len: usize,
}

impl<'a> Lexer<'a> {
    pub closed spec fn source(&self) -> Seq<u8> {
        self.bytes@
    }

    pub closed spec fn offset(&self) -> int {
        self.pos as int
    }

    pub closed spec fn text(&self) -> &'a str {
        self.input
    }

    pub closed spec fn wf(&self) -> bool {
        &&& self.bytes@ == self.input.spec_bytes()
        &&& self.len == self.bytes@.len()
        &&& self.pos <= self.len
    }

    /// Starts lexing `input` at its first byte.
    pub fn new(input: &'a str) -> (lexer: Self)
        ensures
            lexer.wf(),
            lexer.source() == input.spec_bytes(),
            lexer.text() == input,
            lexer.offset() == 0,
    {
        let bytes = input.as_bytes();
        Lexer { input, bytes, pos: 0, len: bytes.len() }
    }

    /// The byte at the current position, which must exist.
    fn peek_char(&self) -> (c: u8)
        requires
            self.wf(),
            self.pos < self.len,
        ensures
            c == self.bytes@[self.pos as int],
    {
        self.bytes[self.pos]
    }

    /// The byte at the current position, if any.
    fn peek_char_opt(&self) -> (c: Option<u8>)
        requires
            self.wf(),
        ensures
            c == byte_at(self.bytes@, self.pos as int),
    {
        if self.pos >= self.len {
            None
        } else {
            Some(self.bytes[self.pos])
        }
    }

    /// The byte `offset` places after the current position, if any.
    fn peek_char_opt_at(&self, offset: usize) -> (c: Option<u8>)
        requires
            self.wf(),
            self.pos < self.len,
            offset <= 1,
        ensures
            c == byte_at(self.bytes@, self.pos + offset),
    {
        let idx = self.pos + offset;
        if idx >= self.len {
            None
        } else {
            Some(self.bytes[idx])
        }
    }

    /// Moves past whitespace and `//` comments.
    fn skip_whitespace_and_comments(&mut self)
        requires
            old(self).wf(),
        ensures
            final(self).wf(),
            final(self).bytes@ == old(self).bytes@,
            final(self).input == old(self).input,
            final(self).pos == skip_trivia(old(self).bytes@, old(self).pos as int),
    {
        let ghost b = self.bytes@;
        loop
            invariant
                self.wf(),
                self.bytes@ == b,
                b == old(self).bytes@,
                self.input == old(self).input,
                skip_trivia(b, old(self).pos as int) == skip_trivia(b, self.pos as int),
            ensures
                skip_trivia(b, old(self).pos as int) == self.pos,
            decreases self.len - self.pos,
        {
            if self.pos < self.len && is_space_byte(self.bytes[self.pos]) {
                self.pos += 1;
            } else if self.pos < self.len && self.bytes[self.pos] == 0x2f && self.peek_char_opt_at(1)
                == Some(0x2fu8) {
                let ghost p = self.pos as int;
                self.pos += 2;
                while self.pos < self.len && self.bytes[self.pos] != 0x0a
                    invariant
                        self.wf(),
                        self.bytes@ == b,
                        b == old(self).bytes@,
                        skip_trivia(b, old(self).pos as int) == skip_trivia(b, p),
                        self.input == old(self).input,
                        p + 2 <= self.pos,
                        line_end(b, p + 2) == line_end(b, self.pos as int),
                    decreases self.len - self.pos,
                {
                    self.pos += 1;
                }
                assert(skip_trivia(b, p) == skip_trivia(b, line_end(b, p + 2)));
            } else {
                assert(skip_trivia(b, self.pos as int) == self.pos);
                break;
            }
        }
    }

    /// The next token; lexing resumes right after it.
    pub fn next_token(&mut self) -> (token: Token)
        requires
            old(self).wf(),
        ensures
            final(self).wf(),
            final(self).source() == old(self).source(),
            final(self).text() == old(self).text(),
            (token@, final(self).offset()) == next_token(old(self).source(), old(self).offset()),
    {
        let ghost b = self.bytes@;
        proof {
            lemma_skip_trivia(b, self.pos as int);
        }
        self.skip_whitespace_and_comments();
        let position = self.pos;
        if self.pos >= self.len {
            return Token { kind: TokenKind::Eof, position };
        }
        let ch = self.peek_char();
        if let Some(kind) = single_char_token(ch) {
            self.pos += 1;
            return Token { kind, position };
        }
        let next = self.peek_char_opt_at(1);
        if let Some((kind, n)) = operator_token(ch, next) {
            self.pos += n;
            return Token { kind, position };
        }
        if is_digit_byte(ch) {
            self.lex_number(position)
        } else if ch == 0x22 {
            self.lex_string(position)
        } else if ch == 0x62 && next == Some(0x22u8) {
            self.lex_bytes(position)
        } else if is_ident_start_byte(ch) {
            self.lex_ident_or_keyword(position)
        } else {
            self.pos += 1;
            Token { kind: TokenKind::Invalid(ch as char), position }
        }
    }

    /// A number token starting at `position`.
    fn lex_number(&mut self, position: usize) -> (token: Token)
        requires
            old(self).wf(),
            old(self).pos == position < old(self).len,
            is_digit(old(self).bytes@[position as int]),
        ensures
            final(self).wf(),
            final(self).bytes@ == old(self).bytes@,
            final(self).input == old(self).input,
            token@.kind == SpecKind::Int(number_value(old(self).bytes@, position as int, digits_end(old(self).bytes@, position as int))),
            token@.position == position,
            final(self).pos == digits_end(old(self).bytes@, position as int),
    {
        let ghost b = self.bytes@;
        let mut value: i64 = 0;
        let mut overflow = false;
        while self.pos < self.len && is_digit_byte(self.bytes[self.pos])
            invariant
                self.wf(),
                self.bytes@ == b,
                b == old(self).bytes@,
                self.input == old(self).input,
                position <= self.pos,
                digits_end(b, position as int) == digits_end(b, self.pos as int),
                digits_value(b, position as int, self.pos as int) >= 0,
                !overflow ==> value == digits_value(b, position as int, self.pos as int),
                overflow ==> digits_value(b, position as int, self.pos as int) > i64::MAX,
            decreases self.len - self.pos,
        {
            let d = (self.bytes[self.pos] - 0x30) as i64;
            let ghost old_val = digits_value(b, position as int, self.pos as int);
            assert(digits_value(b, position as int, self.pos + 1) == old_val * 10 + d);
            if !overflow {
                if value <= (i64::MAX - d) / 10 {
                    value = value * 10 + d;
                } else {
                    overflow = true;
                }
            }
            self.pos += 1;
        }
        let v = if overflow { 0 } else { value };
        Token { kind: TokenKind::Int(v), position }
    }

    /// The body of a string or bytes literal, from the current position:
    /// its bytes, or the character that made it invalid.
    fn lex_quoted(&mut self) -> (r: Result<Vec<u8>, char>)
        requires
            old(self).wf(),
        ensures
            final(self).wf(),
            final(self).bytes@ == old(self).bytes@,
            final(self).input == old(self).input,
            (match r { Ok(v) => Ok(v@), Err(c) => Err(c) }, final(self).pos as int)
                == quoted_body(old(self).bytes@, old(self).pos as int, Seq::empty()),
    {
        let ghost b = self.bytes@;
        let ghost start = self.pos as int;
        let mut out: Vec<u8> = Vec::new();
        loop
            invariant
                self.wf(),
                self.bytes@ == b,
                b == old(self).bytes@,
                start == old(self).pos,
                self.input == old(self).input,
                quoted_body(b, start, Seq::empty()) == quoted_body(b, self.pos as int, out@),
            decreases self.len - self.pos,
        {
            if self.pos >= self.len {
                return Err('"');
            }
            let ch = self.bytes[self.pos];
            if ch == 0x22 {
                self.pos += 1;
                return Ok(out);
            }
            if ch == 0x5c {
                self.pos += 1;
                match self.peek_char_opt() {
                    Some(0x78u8) => {
                        match self.lex_hex_escape() {
                            Some(byte) => out.push(byte),
                            None => return Err('\\'),
                        }
                    },
                    Some(e) => {
                        match simple_escape_byte(e) {
                            Some(v) => {
                                out.push(v);
                                self.pos += 1;
                            },
                            None => return Err('\\'),
                        }
                    },
                    None => return Err('\\'),
                }
            } else {
                out.push(ch);
                self.pos += 1;
            }
        }
    }

    /// A string literal starting at `position`.
    fn lex_string(&mut self, position: usize) -> (token: Token)
        requires
            old(self).wf(),
            old(self).pos == position < old(self).len,
            old(self).bytes@[position as int] == 0x22,
        ensures
            final(self).wf(),
            final(self).bytes@ == old(self).bytes@,
            final(self).input == old(self).input,
            (token@.kind, final(self).pos as int) == ({
                let (r, next) = quoted_body(old(self).bytes@, position + 1, Seq::empty());
                match r {
                    Ok(out) => (SpecKind::Str(latin1(out)), next),
                    Err(ch) => (SpecKind::Invalid(ch), next),
                }
            }),
            token@.position == position,
    {
        self.pos += 1;
        match self.lex_quoted() {
            Ok(out) => Token { kind: TokenKind::Str(latin1_string(out.as_slice())), position },
            Err(c) => Token { kind: TokenKind::Invalid(c), position },
        }
    }

    /// A bytes literal (`b"..."`) starting at `position`.
    fn lex_bytes(&mut self, position: usize) -> (token: Token)
        requires
            old(self).wf(),
            old(self).pos == position,
            position + 1 < old(self).len,
        ensures
            final(self).wf(),
            final(self).bytes@ == old(self).bytes@,
            final(self).input == old(self).input,
            (token@.kind, final(self).pos as int) == ({
                let (r, next) = quoted_body(old(self).bytes@, position + 2, Seq::empty());
                match r {
                    Ok(out) => (SpecKind::Bytes(out), next),
                    Err(ch) => (SpecKind::Invalid(ch), next),
                }
            }),
            token@.position == position,
    {
        self.pos += 2;
        match self.lex_quoted() {
            Ok(out) => Token { kind: TokenKind::Bytes(out), position },
            Err(c) => Token { kind: TokenKind::Invalid(c), position },
        }
    }

    /// The byte of a `\xNN` escape; the current position is at the `x`.
    fn lex_hex_escape(&mut self) -> (r: Option<u8>)
        requires
            old(self).wf(),
            old(self).pos < old(self).len,
        ensures
            final(self).wf(),
            final(self).bytes@ == old(self).bytes@,
            final(self).input == old(self).input,
            (r, final(self).pos as int) == hex_escape(old(self).bytes@, old(self).pos as int),
    {
        self.pos += 1;
        let hi = match self.peek_char_opt() {
            Some(c) => c,
            None => return None,
        };
        self.pos += 1;
        let lo = match self.peek_char_opt() {
            Some(c) => c,
            None => return None,
        };
        self.pos += 1;
        let hi = match hex_digit_value(hi) {
            Some(v) => v,
            None => return None,
        };
        let lo = match hex_digit_value(lo) {
            Some(v) => v,
            None => return None,
        };
        Some(hi * 16 + lo)
    }

    /// A keyword, an identifier or an explain block starting at `position`.
    fn lex_ident_or_keyword(&mut self, position: usize) -> (token: Token)
        requires
            old(self).wf(),
            old(self).pos == position < old(self).len,
            is_ident_start(old(self).bytes@[position as int]),
        ensures
            final(self).wf(),
            final(self).bytes@ == old(self).bytes@,
            final(self).input == old(self).input,
            (token@.kind, final(self).pos as int) == word_token(old(self).bytes@, position as int),
            token@.position == position,
    {
        let ghost b = self.bytes@;
        while self.pos < self.len && is_ident_byte(self.bytes[self.pos])
            invariant
                self.wf(),
                self.bytes@ == b,
                b == old(self).bytes@,
                self.input == old(self).input,
                position <= self.pos,
                ident_end(b, position as int) == ident_end(b, self.pos as int),
            decreases self.len - self.pos,
        {
            self.pos += 1;
        }
        let start = position;
        let end = self.pos;
        if slice_is(self.bytes, start, end, &[0x65u8, 0x78, 0x70, 0x6c, 0x61, 0x69, 0x6e]) {
            return self.lex_explain(position);
        }
        let kind = match keyword_token(self.bytes, start, end) {
            Some(k) => k,
            None => TokenKind::Ident(latin1_string(slice_range(self.bytes, start, end).as_slice())),
        };
        Token { kind, position }
    }

    /// What follows the word `explain` (the current position is right after
    /// it): a brace block gives its trimmed text.
    fn lex_explain(&mut self, position: usize) -> (token: Token)
        requires
            old(self).wf(),
            position < old(self).pos,
            old(self).pos == ident_end(old(self).bytes@, position as int),
            is_explain_word(old(self).bytes@.subrange(position as int, old(self).pos as int)),
        ensures
            final(self).wf(),
            final(self).bytes@ == old(self).bytes@,
            final(self).input == old(self).input,
            (token@.kind, final(self).pos as int) == word_token(old(self).bytes@, position as int),
            token@.position == position,
    {
        let ghost b = self.bytes@;
        let ghost e = self.pos as int;
        let mut s = self.pos;
        while s < self.len && is_space_byte(self.bytes[s])
            invariant
                self.wf(),
                self.bytes@ == b,
                b == old(self).bytes@,
                self.input == old(self).input,
                self.pos == old(self).pos,
                e == old(self).pos,
                e <= s <= self.len,
                space_end(b, e) == space_end(b, s as int),
            decreases self.len - s,
        {
            s += 1;
        }
        if !(s < self.len && self.bytes[s] == 0x7b) {
            return Token { kind: TokenKind::KwExplain, position };
        }
        let ghost expected = match brace_close(b, s + 1, 1) {
            Some(jj) => (SpecKind::Explain(explain_text(b, s as int, jj)), jj + 1),
            None => (SpecKind::Invalid('{'), b.len() as int),
        };
        assert(word_token(b, position as int) == expected);
        let mut j = s + 1;
        let mut depth: usize = 1;
        loop
            invariant
                self.wf(),
                self.bytes@ == b,
                b == old(self).bytes@,
                self.input == old(self).input,
                s < j <= self.len,
                s < self.len,
                b[s as int] == 0x7b,
                word_token(b, position as int) == expected,
                expected == match brace_close(b, s + 1, 1) {
                    Some(jj) => (SpecKind::Explain(explain_text(b, s as int, jj)), jj + 1),
                    None => (SpecKind::Invalid('{'), b.len() as int),
                },
                1 <= depth <= j - s,
                brace_close(b, s + 1, 1) == brace_close(b, j as int, depth as nat),
            ensures
                j < self.len,
                b[j as int] == 0x7d,
                brace_close(b, s + 1, 1) == Some(j as int),
            decreases self.len - j,
        {
            if j >= self.len {
                self.pos = self.len;
                return Token { kind: TokenKind::Invalid('{'), position };
            }
            let c = self.bytes[j];
            if c == 0x7d {
                if depth <= 1 {
                    break;
                }
                depth -= 1;
            } else if c == 0x7b {
                depth += 1;
            }
            j += 1;
        }
        proof {
            lemma_brace_close(b, s + 1, 1);
        }
        let text = explain_block_text(self.input, s, j);
        self.pos = j + 1;
        Token { kind: TokenKind::Explain(text), position }
    }

    /// All tokens of the input from the current position on, the last one
    /// `Eof`.
    pub fn lex_all(self) -> (tokens: Vec<Token>)
        requires
            self.wf(),
        ensures
            tokens_view(tokens@) == lex_from(self.source(), self.offset()),
    {
        let mut lexer = self;
        let ghost b = lexer.bytes@;
        let ghost p0 = lexer.pos as int;
        let mut tokens: Vec<Token> = Vec::new();
        loop
            invariant_except_break
                lexer.wf(),
                lexer.bytes@ == b,
                tokens_view(tokens@) + lex_from(b, lexer.pos as int) == lex_from(b, p0),
            ensures
                tokens_view(tokens@) == lex_from(b, p0),
            decreases b.len() + 1 - lexer.pos,
        {
            let ghost p = lexer.pos as int;
            proof {
                lemma_next_token(b, p);
            }
            let token = lexer.next_token();
            let is_eof = matches!(token.kind, TokenKind::Eof);
            let ghost t = token@;
            let ghost prev = tokens_view(tokens@);
            tokens.push(token);
            assert(tokens_view(tokens@) =~= prev.push(t));
            if is_eof {
                assert(lex_from(b, p) == seq![t]);
                assert(tokens_view(tokens@) =~= lex_from(b, p0));
                break;
            }
            assert(lex_from(b, p) == seq![t] + lex_from(b, lexer.pos as int));
            assert(tokens_view(tokens@) + lex_from(b, lexer.pos as int) =~= lex_from(b, p0));
        }
        tokens
    }
}

} // verus!
