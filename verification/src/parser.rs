//! The parser: turns tokens into the surface syntax tree. It computes
//! exactly `parser_spec::p_program`.
use vstd::prelude::*;

use vstd::string::StringExecFns;
use vstd::string::StrSliceExecFns;

use crate::ast::surface::{
    arms_view, entries_view, exprs_view, field_patterns_view, fields_view, items_view,
    lemma_expr_views, variants_view, DataDef, DataVariant, Expr, ExternFnDef, FieldPattern, FnDef,
    Item, LetDef, MatchArm, MatchPattern, PipeTarget, Program, SArm, SExpr, SItem, SPattern, SProgram,
    SPipeTarget,
};
use crate::ast::{names_view, BinaryOp, UnaryOp};
use crate::error::Error;
use crate::format::push_int;
use crate::lexer::{tokens_view, SpecKind, SpecToken, Token, TokenKind};
use crate::show::push_bytes;
use crate::text::{debug_char, debug_string};
use crate::parser_spec::{
    adv, compare_op, eof_position, invalid_char_message, err_here, expect, expect_ident, is_ctor_name, is_in_word, kind,
    kind_debug_text, level_op, p_args, p_args_from, p_arms, p_construct_fields, p_construct_from,
    p_data_def, p_expr, p_extern_fn, p_field_names, p_fn, p_for, p_for_guard, p_item, p_items,
    p_let, p_level, p_level_rest, p_list, p_list_after, p_map, p_map_entries, p_match,
    p_match_pattern, p_operand, p_params, p_pattern_fields, p_pipe, p_pipe_rest, p_pipe_target,
    p_postfix, p_primary, p_program, p_unary, p_variants, p_data_variant, p_if, starts_item, tok,
    PRes, SErr,
};

verus! {

/// The `Debug` text of a token kind, as error messages show it.
fn kind_debug(k: &TokenKind) -> (s: String)
    ensures
        s@ == kind_debug_text(k@),
{
    proof {
        reveal(kind_debug_text);
    }
    let mut s = String::new();
    match k {
        TokenKind::Ident(n) => {
            s.append("Ident(");
            let d = debug_string(n.as_str());
            s.append(d.as_str());
            s.append(")");
        },
        TokenKind::Int(v) => {
            s.append("Int(");
            push_int(&mut s, *v);
            s.append(")");
        },
        TokenKind::Str(t) => {
            s.append("Str(");
            let d = debug_string(t.as_str());
            s.append(d.as_str());
            s.append(")");
        },
        TokenKind::Bytes(b) => {
            s.append("Bytes(");
            push_bytes(&mut s, b);
            s.append(")");
        },
        TokenKind::Explain(t) => {
            s.append("Explain(");
            let d = debug_string(t.as_str());
            s.append(d.as_str());
            s.append(")");
        },
        TokenKind::Invalid(c) => {
            s.append("Invalid(");
            let d = debug_char(*c);
            s.append(d.as_str());
            s.append(")");
        },
        TokenKind::KwExtern => s.append("KwExtern"),
        TokenKind::KwData => s.append("KwData"),
        TokenKind::KwMatch => s.append("KwMatch"),
        TokenKind::KwFn => s.append("KwFn"),
        TokenKind::KwLet => s.append("KwLet"),
        TokenKind::KwFor => s.append("KwFor"),
        TokenKind::KwIf => s.append("KwIf"),
        TokenKind::KwElse => s.append("KwElse"),
        TokenKind::KwTrue => s.append("KwTrue"),
        TokenKind::KwFalse => s.append("KwFalse"),
        TokenKind::KwExplain => s.append("KwExplain"),
        TokenKind::LParen => s.append("LParen"),
        TokenKind::RParen => s.append("RParen"),
        TokenKind::LBrace => s.append("LBrace"),
        TokenKind::RBrace => s.append("RBrace"),
        TokenKind::LBracket => s.append("LBracket"),
        TokenKind::RBracket => s.append("RBracket"),
        TokenKind::Comma => s.append("Comma"),
        TokenKind::Colon => s.append("Colon"),
        TokenKind::Semicolon => s.append("Semicolon"),
        TokenKind::Eq => s.append("Eq"),
        TokenKind::FatArrow => s.append("FatArrow"),
        TokenKind::Bar => s.append("Bar"),
        TokenKind::Plus => s.append("Plus"),
        TokenKind::Minus => s.append("Minus"),
        TokenKind::Star => s.append("Star"),
        TokenKind::Slash => s.append("Slash"),
        TokenKind::Percent => s.append("Percent"),
        TokenKind::EqEq => s.append("EqEq"),
        TokenKind::BangEq => s.append("BangEq"),
        TokenKind::Lt => s.append("Lt"),
        TokenKind::LtEq => s.append("LtEq"),
        TokenKind::Gt => s.append("Gt"),
        TokenKind::GtEq => s.append("GtEq"),
        TokenKind::AndAnd => s.append("AndAnd"),
        TokenKind::OrOr => s.append("OrOr"),
        TokenKind::Bang => s.append("Bang"),
        TokenKind::Pipe => s.append("Pipe"),
        TokenKind::Hash => s.append("Hash"),
        TokenKind::DotDot => s.append("DotDot"),
        TokenKind::Eof => s.append("Eof"),
    }
    proof {
        assert(s@ =~= kind_debug_text(k@));
    }
    s
}

/// Whether `q` is the position of one of the tokens.
pub open spec fn on_token(t: Seq<SpecToken>, q: int) -> bool {
    exists|i: int| 0 <= i < t.len() && (#[trigger] t[i]).position == q
}

/// An error, if there is one, points at one of the tokens (when there are
/// any).
pub open spec fn err_on_token<T>(t: Seq<SpecToken>, r: Result<T, Error>) -> bool {
    match r {
        Ok(_) => true,
        Err(e) => t.len() > 0 ==> on_token(t, e@.1),
    }
}

/// The token the parser sees at any index is one of the tokens, when there
/// are any: past the end it sees the last one's position.
proof fn lemma_tok_on_token(t: Seq<SpecToken>, p: int)
    requires
        t.len() > 0,
    ensures
        on_token(t, tok(t, p).position),
{
    if 0 <= p < t.len() {
        assert(t[p].position == tok(t, p).position);
    } else {
        assert(t[t.len() - 1].position == tok(t, p).position);
    }
}

/// Parses a whole program from its tokens.
pub fn parse_program(tokens: &[Token]) -> (r: Result<Program, Error>)
    ensures
        match r {
            Ok(p) => p_program(tokens_view(tokens@)) == Ok::<_, SErr>(p@),
            Err(e) => p_program(tokens_view(tokens@)) == Err::<SProgram, _>(e@),
        },
        tokens@.len() > 0 ==> (r matches Err(e) ==> exists|i: int|
            0 <= i < tokens@.len() && e.position == (#[trigger] tokens@[i]).position),
{
    let mut parser = Parser::new(tokens);
    let r = parser.parse_program();
    proof {
        if tokens@.len() > 0 && r is Err {
            let t = tokens_view(tokens@);
            let i = choose|i: int| 0 <= i < t.len() && (#[trigger] t[i]).position == r->Err_0@.1;
            assert(tokens@[i]@ == t[i]);
        }
    }
    r
}

/// A number for each token kind; kinds without payload are equal exactly
/// when their numbers are.
pub open spec fn kind_tag(k: SpecKind) -> int {
    match k {
        SpecKind::Ident(_) => 0,
        SpecKind::Int(_) => 1,
        SpecKind::Str(_) => 2,
        SpecKind::Bytes(_) => 3,
        SpecKind::Explain(_) => 4,
        SpecKind::KwExtern => 5,
        SpecKind::KwData => 6,
        SpecKind::KwMatch => 7,
        SpecKind::KwFn => 8,
        SpecKind::KwLet => 9,
        SpecKind::KwFor => 10,
        SpecKind::KwIf => 11,
        SpecKind::KwElse => 12,
        SpecKind::KwTrue => 13,
        SpecKind::KwFalse => 14,
        SpecKind::KwExplain => 15,
        SpecKind::LParen => 16,
        SpecKind::RParen => 17,
        SpecKind::LBrace => 18,
        SpecKind::RBrace => 19,
        SpecKind::LBracket => 20,
        SpecKind::RBracket => 21,
        SpecKind::Comma => 22,
        SpecKind::Colon => 23,
        SpecKind::Semicolon => 24,
        SpecKind::Eq => 25,
        SpecKind::FatArrow => 26,
        SpecKind::Bar => 27,
        SpecKind::Plus => 28,
        SpecKind::Minus => 29,
        SpecKind::Star => 30,
        SpecKind::Slash => 31,
        SpecKind::Percent => 32,
        SpecKind::EqEq => 33,
        SpecKind::BangEq => 34,
        SpecKind::Lt => 35,
        SpecKind::LtEq => 36,
        SpecKind::Gt => 37,
        SpecKind::GtEq => 38,
        SpecKind::AndAnd => 39,
        SpecKind::OrOr => 40,
        SpecKind::Bang => 41,
        SpecKind::Pipe => 42,
        SpecKind::Hash => 43,
        SpecKind::DotDot => 44,
        SpecKind::Invalid(_) => 45,
        SpecKind::Eof => 46,
    }
}

/// Kinds that carry no payload.
pub open spec fn is_plain(k: SpecKind) -> bool {
    kind_tag(k) >= 5 && kind_tag(k) != 45
}

fn tag_of(k: &TokenKind) -> (r: u8)
    ensures
        r == kind_tag(k@),
{
    match k {
        TokenKind::Ident(_) => 0,
        TokenKind::Int(_) => 1,
        TokenKind::Str(_) => 2,
        TokenKind::Bytes(_) => 3,
        TokenKind::Explain(_) => 4,
        TokenKind::KwExtern => 5,
        TokenKind::KwData => 6,
        TokenKind::KwMatch => 7,
        TokenKind::KwFn => 8,
        TokenKind::KwLet => 9,
        TokenKind::KwFor => 10,
        TokenKind::KwIf => 11,
        TokenKind::KwElse => 12,
        TokenKind::KwTrue => 13,
        TokenKind::KwFalse => 14,
        TokenKind::KwExplain => 15,
        TokenKind::LParen => 16,
        TokenKind::RParen => 17,
        TokenKind::LBrace => 18,
        TokenKind::RBrace => 19,
        TokenKind::LBracket => 20,
        TokenKind::RBracket => 21,
        TokenKind::Comma => 22,
        TokenKind::Colon => 23,
        TokenKind::Semicolon => 24,
        TokenKind::Eq => 25,
        TokenKind::FatArrow => 26,
        TokenKind::Bar => 27,
        TokenKind::Plus => 28,
        TokenKind::Minus => 29,
        TokenKind::Star => 30,
        TokenKind::Slash => 31,
        TokenKind::Percent => 32,
        TokenKind::EqEq => 33,
        TokenKind::BangEq => 34,
        TokenKind::Lt => 35,
        TokenKind::LtEq => 36,
        TokenKind::Gt => 37,
        TokenKind::GtEq => 38,
        TokenKind::AndAnd => 39,
        TokenKind::OrOr => 40,
        TokenKind::Bang => 41,
        TokenKind::Pipe => 42,
        TokenKind::Hash => 43,
        TokenKind::DotDot => 44,
        TokenKind::Invalid(_) => 45,
        TokenKind::Eof => 46,
    }
}

/// A parse result agrees with the grammar's result: the same value (by its
/// view) and the same next position, or the same error.
spec fn agrees<T: View>(r: Result<T, Error>, p: usize, s: PRes<T::V>) -> bool {
    match r {
        Ok(v) => s == Ok::<(T::V, int), SErr>((v@, p as int)),
        Err(e) => s == Err::<(T::V, int), SErr>(e@),
    }
}

/// As `agrees`, with the value mapped by `f`.
spec fn agrees_with<T, V>(r: Result<T, Error>, p: usize, s: PRes<V>, f: spec_fn(T) -> V) -> bool {
    match r {
        Ok(v) => s == Ok::<(V, int), SErr>((f(v), p as int)),
        Err(e) => s == Err::<(V, int), SErr>(e@),
    }
}

/// Whether a character is an ASCII capital letter.
fn is_upper(c: char) -> (r: bool)
    ensures
        r == ('A' <= c <= 'Z'),
{
    'A' <= c && c <= 'Z'
}

/// Whether a string is exactly the given one-character name.
fn is_single(s: &String, c: char) -> (r: bool)
    ensures
        r == (s@ == seq![c]),
{
    let t = s.as_str();
    if t.unicode_len() != 1 {
        return false;
    }
    let r = t.get_char(0) == c;
    proof {
        if r {
            assert(s@ =~= seq![c]);
        }
    }
    r
}

/// Whether a string is the word `in`.
fn is_in(s: &String) -> (r: bool)
    ensures
        r == is_in_word(s@),
{
    let t = s.as_str();
    if t.unicode_len() != 2 {
        return false;
    }
    let r = t.get_char(0) == 'i' && t.get_char(1) == 'n';
    proof {
        if r {
            assert(s@ =~= seq!['i', 'n']);
        }
    }
    r
}

/// Whether a name starts with an ASCII capital letter.
fn is_ctor(name: &String) -> (r: bool)
    ensures
        r == is_ctor_name(name@),
{
    let t = name.as_str();
    if t.unicode_len() == 0 {
        return false;
    }
    is_upper(t.get_char(0))
}

/// The parser state: the tokens, the index of the next one and the number
/// of match scrutinees being parsed.
struct Parser<'a> {
    tokens: &'a [Token],
    pos: usize,
    match_scrutinee_depth: usize,
    eof: Token,
}

impl<'a> Parser<'a> {
    spec fn toks(&self) -> Seq<SpecToken> {
        tokens_view(self.tokens@)
    }

    spec fn depth(&self) -> nat {
        self.match_scrutinee_depth as nat
    }

    spec fn wf(&self) -> bool {
        &&& self.pos <= self.tokens@.len()
        &&& self.tokens@.len() <= usize::MAX
        &&& self.match_scrutinee_depth <= self.pos
        &&& self.eof@ == (SpecToken { kind: SpecKind::Eof, position: eof_position(self.toks()) })
    }

    /// The state after a call relates to the one before.
    spec fn same_input(&self, old: &Self) -> bool {
        &&& self.tokens == old.tokens
        &&& self.eof == old.eof
    }

    spec fn advanced(&self, old: &Self, ok: bool) -> bool {
        &&& self.wf()
        &&& self.same_input(old)
        &&& ok ==> self.match_scrutinee_depth == old.match_scrutinee_depth
        &&& ok ==> old.pos <= self.pos
    }

    fn new(tokens: &'a [Token]) -> (p: Self)
        ensures
            p.wf(),
            p.tokens == tokens,
            p.pos == 0,
            p.match_scrutinee_depth == 0,
    {
        let position = if tokens.len() > 0 {
            tokens[tokens.len() - 1].position
        } else {
            0
        };
        Parser { tokens, pos: 0, match_scrutinee_depth: 0, eof: Token { kind: TokenKind::Eof, position } }
    }

    fn peek(&self) -> (t: &Token)
        requires
            self.wf(),
        ensures
            t@ == tok(self.toks(), self.pos as int),
    {
        if self.pos < self.tokens.len() {
            &self.tokens[self.pos]
        } else {
            &self.eof
        }
    }

    fn peek_kind(&self) -> (k: &TokenKind)
        requires
            self.wf(),
        ensures
            k@ == kind(self.toks(), self.pos as int),
    {
        &self.peek().kind
    }

    fn peek_kind_at(&self, offset: usize) -> (k: &TokenKind)
        requires
            self.wf(),
            offset <= 2,
        ensures
            k@ == kind(self.toks(), self.pos + offset),
    {
        if offset < self.tokens.len() - self.pos {
            &self.tokens[self.pos + offset].kind
        } else {
            &self.eof.kind
        }
    }

    fn advance(&mut self)
        requires
            old(self).wf(),
        ensures
            final(self).wf(),
            final(self).same_input(old(self)),
            final(self).match_scrutinee_depth == old(self).match_scrutinee_depth,
            final(self).pos == adv(old(self).toks(), old(self).pos as int),
    {
        if self.pos < self.tokens.len() {
            self.pos += 1;
        }
    }

    fn error_here(&self, message: &str) -> (e: Error)
        requires
            self.wf(),
        ensures
            e@ == err_here(self.toks(), self.pos as int, message@),
            self.toks().len() > 0 ==> on_token(self.toks(), e@.1),
    {
        proof {
            if self.toks().len() > 0 {
                lemma_tok_on_token(self.toks(), self.pos as int);
            }
        }
        Error::new(message, self.peek().position)
    }

    fn error_at(&self, position: usize, message: &str) -> (e: Error)
        ensures
            e@ == (message@, position as int),
    {
        Error::new(message, position)
    }

    /// Consumes a token of the given (payload-free) kind.
    fn expect(&mut self, expected: TokenKind) -> (r: Result<(), Error>)
        requires
            old(self).wf(),
            is_plain(expected@),
        ensures
            err_on_token(old(self).toks(), r),
            final(self).same_input(old(self)),
            final(self).match_scrutinee_depth == old(self).match_scrutinee_depth,
            r is Ok <==> expect(old(self).toks(), old(self).pos as int, expected@) is Ok,
            r matches Err(e) ==> expect(old(self).toks(), old(self).pos as int, expected@) == Err::<int, SErr>(e@),
            r is Ok && !(expected@ is Eof) ==> final(self).pos == old(self).pos + 1,
            r is Err ==> final(self).pos == old(self).pos,
            !(r is Ok && expected@ is Eof) ==> final(self).wf(),
    {
        let token = self.peek();
        if tag_of(&token.kind) == tag_of(&expected) {
            proof {
                lemma_plain_tag(token.kind@, expected@);
            }
            if self.pos < self.tokens.len() {
                self.pos = self.pos + 1;
            }
            Ok(())
        } else {
            let mut m = String::from_str("expected ");
            let d1 = kind_debug(&expected);
            m.append(d1.as_str());
            m.append(", found ");
            let d2 = kind_debug(&token.kind);
            m.append(d2.as_str());
            proof {
                if self.toks().len() > 0 {
                    lemma_tok_on_token(self.toks(), self.pos as int);
                }
            }
            Err(self.error_at(token.position, m.as_str()))
        }
    }

    fn expect_ident(&mut self) -> (r: Result<String, Error>)
        requires
            old(self).wf(),
        ensures
            err_on_token(old(self).toks(), r),
            final(self).wf(),
            final(self).same_input(old(self)),
            final(self).match_scrutinee_depth == old(self).match_scrutinee_depth,
            agrees(r, final(self).pos, expect_ident(old(self).toks(), old(self).pos as int)),
    {
        let k = self.peek_kind();
        match k {
            TokenKind::Ident(name) => {
                let name = name.clone();
                proof {
                    assert(k@ is Ident);
                    lemma_past_end_is_eof(self.toks(), self.pos as int);
                }
                self.pos = self.pos + 1;
                Ok(name)
            },
            _ => Err(self.error_here("expected identifier")),
        }
    }
}


/// The binary operator a token stands for at a precedence level.
fn level_op_of(level: u8, k: &TokenKind) -> (r: Option<BinaryOp>)
    ensures
        r == level_op(level as int, k@),
{
    if level == 0 {
        match k {
            TokenKind::OrOr => Some(BinaryOp::Or),
            _ => None,
        }
    } else if level == 1 {
        match k {
            TokenKind::AndAnd => Some(BinaryOp::And),
            _ => None,
        }
    } else if level == 2 {
        match k {
            TokenKind::EqEq => Some(BinaryOp::Eq),
            TokenKind::BangEq => Some(BinaryOp::Neq),
            _ => None,
        }
    } else if level == 3 {
        match k {
            TokenKind::Lt => Some(BinaryOp::Lt),
            TokenKind::LtEq => Some(BinaryOp::Lte),
            TokenKind::Gt => Some(BinaryOp::Gt),
            TokenKind::GtEq => Some(BinaryOp::Gte),
            _ => None,
        }
    } else if level == 4 {
        match k {
            TokenKind::Plus => Some(BinaryOp::Add),
            TokenKind::Minus => Some(BinaryOp::Sub),
            _ => None,
        }
    } else {
        match k {
            TokenKind::Star => Some(BinaryOp::Mul),
            TokenKind::Slash => Some(BinaryOp::Div),
            TokenKind::Percent => Some(BinaryOp::Mod),
            _ => None,
        }
    }
}

/// The comparison operator a match pattern starts with, if any.
fn compare_op_of(k: &TokenKind) -> (r: Option<BinaryOp>)
    ensures
        r == compare_op(k@),
{
    match k {
        TokenKind::Lt => Some(BinaryOp::Lt),
        TokenKind::LtEq => Some(BinaryOp::Lte),
        TokenKind::Gt => Some(BinaryOp::Gt),
        TokenKind::GtEq => Some(BinaryOp::Gte),
        _ => None,
    }
}

/// The message for an invalid character.
fn invalid_char_text(c: char) -> (m: String)
    ensures
        m@ == invalid_char_message(c),
{
    let mut m = String::from_str("invalid character '");
    m.push(c);
    m.append("'");
    proof {
        reveal_strlit("invalid character '");
        reveal_strlit("'");
    }
    m
}

impl<'a> Parser<'a> {
    /// Whether the next token has the given payload-free kind.
    fn check(&self, expected: &TokenKind) -> (b: bool)
        requires
            self.wf(),
            is_plain(expected@),
        ensures
            b == (kind(self.toks(), self.pos as int) == expected@),
    {
        let b = tag_of(self.peek_kind()) == tag_of(expected);
        proof {
            if b {
                lemma_plain_tag(kind(self.toks(), self.pos as int), expected@);
            }
        }
        b
    }

    /// Whether the token after the next one has the given payload-free kind.
    fn check_second(&self, expected: &TokenKind) -> (b: bool)
        requires
            self.wf(),
            is_plain(expected@),
        ensures
            b == (kind(self.toks(), self.pos + 1) == expected@),
    {
        let b = tag_of(self.peek_kind_at(1)) == tag_of(expected);
        proof {
            if b {
                lemma_plain_tag(kind(self.toks(), self.pos + 1), expected@);
            }
        }
        b
    }

    /// expr = pipe
    fn parse_expr(&mut self) -> (r: Result<Expr, Error>)
        requires
            old(self).wf(),
        ensures
            err_on_token(old(self).toks(), r),
            final(self).advanced(old(self), r is Ok),
            agrees(r, final(self).pos, p_expr(old(self).toks(), old(self).pos as int, old(self).depth())),
        decreases old(self).toks().len() + 1 - old(self).pos, 31nat,
    {
        self.parse_pipe()
    }

    /// pipe = logic_or { "|>" pipe_target }
    fn parse_pipe(&mut self) -> (r: Result<Expr, Error>)
        requires
            old(self).wf(),
        ensures
            err_on_token(old(self).toks(), r),
            final(self).advanced(old(self), r is Ok),
            agrees(r, final(self).pos, p_pipe(old(self).toks(), old(self).pos as int, old(self).depth())),
        decreases old(self).toks().len() + 1 - old(self).pos, 30nat,
    {
        let ghost t = self.toks();
        let ghost p0 = self.pos as int;
        let ghost d = self.depth();
        let mut expr = match self.parse_level(0) {
            Ok(e) => e,
            Err(e) => return Err(e),
        };
        loop
            invariant
                p0 == old(self).pos as int,
                self.advanced(old(self), true),
                self.toks() == t,
                self.depth() == d,
                p0 <= self.pos,
                t.len() == self.tokens@.len(),
                p_pipe(t, p0, d) == p_pipe_rest(t, self.pos as int, d, expr@),
            decreases t.len() - self.pos,
        {
            if !self.check(&TokenKind::Pipe) {
                return Ok(expr);
            }
            self.advance();
            let target = match self.parse_pipe_target() {
                Ok(target) => target,
                Err(e) => return Err(e),
            };
            let ghost lhs = expr@;
            expr = Expr::Pipe { input: Box::new(expr), target };
            proof {
                lemma_expr_views(expr);
            }
        }
    }

    /// pipe_target = Ident [ "(" args ")" ]
    fn parse_pipe_target(&mut self) -> (r: Result<PipeTarget, Error>)
        requires
            old(self).wf(),
        ensures
            err_on_token(old(self).toks(), r),
            final(self).advanced(old(self), r is Ok),
            agrees(r, final(self).pos, p_pipe_target(old(self).toks(), old(self).pos as int, old(self).depth())),
        decreases old(self).toks().len() + 1 - old(self).pos, 7nat,
    {
        let name = match self.expect_ident() {
            Ok(name) => name,
            Err(e) => return Err(e),
        };
        if self.check(&TokenKind::LParen) {
            self.advance();
            let args = match self.parse_args() {
                Ok(args) => args,
                Err(e) => return Err(e),
            };
            match self.expect(TokenKind::RParen) {
                Ok(()) => {},
                Err(e) => return Err(e),
            }
            let r = PipeTarget::Call { name, args };
            proof {
                assert(r@->Call_args =~= exprs_view(args@));
            }
            Ok(r)
        } else {
            Ok(PipeTarget::Ident(name))
        }
    }

    /// args = [ expr { "," expr } ] before ")"
    fn parse_args(&mut self) -> (r: Result<Vec<Expr>, Error>)
        requires
            old(self).wf(),
        ensures
            err_on_token(old(self).toks(), r),
            final(self).advanced(old(self), r is Ok),
            agrees_with(
                r,
                final(self).pos,
                p_args(old(self).toks(), old(self).pos as int, old(self).depth()),
                |v: Vec<Expr>| exprs_view(v@),
            ),
        decreases old(self).toks().len() + 1 - old(self).pos, 33nat,
    {
        let ghost t = self.toks();
        let ghost p0 = self.pos as int;
        let ghost d = self.depth();
        let mut args: Vec<Expr> = Vec::new();
        proof {
            assert(exprs_view(args@) =~= Seq::<SExpr>::empty());
        }
        if self.check(&TokenKind::RParen) {
            return Ok(args);
        }
        loop
            invariant
                p0 == old(self).pos as int,
                self.advanced(old(self), true),
                self.toks() == t,
                self.depth() == d,
                p0 <= self.pos,
                t.len() == self.tokens@.len(),
                args@.len() == 0 ==> self.pos == p0,
                p_args(t, p0, d) == p_args_from(t, self.pos as int, d, exprs_view(args@)),
            decreases t.len() - self.pos,
        {
            let e = match self.parse_expr() {
                Ok(e) => e,
                Err(e) => return Err(e),
            };
            let ghost before = exprs_view(args@);
            args.push(e);
            proof {
                assert(exprs_view(args@) =~= before.push(e@));
            }
            if self.check(&TokenKind::Comma) {
                self.advance();
            } else {
                return Ok(args);
            }
        }
    }

    /// One binary precedence level: operand { op operand }.
    fn parse_level(&mut self, level: u8) -> (r: Result<Expr, Error>)
        requires
            old(self).wf(),
            level <= 5,
        ensures
            err_on_token(old(self).toks(), r),
            final(self).advanced(old(self), r is Ok),
            agrees(r, final(self).pos, p_level(old(self).toks(), old(self).pos as int, old(self).depth(), level as int)),
        decreases old(self).toks().len() + 1 - old(self).pos, 28 - 3 * level,
    {
        let ghost t = self.toks();
        let ghost p0 = self.pos as int;
        let ghost d = self.depth();
        let mut expr = match self.parse_operand(level) {
            Ok(e) => e,
            Err(e) => return Err(e),
        };
        loop
            invariant
                p0 == old(self).pos as int,
                self.advanced(old(self), true),
                self.toks() == t,
                self.depth() == d,
                p0 <= self.pos,
                t.len() == self.tokens@.len(),
                level <= 5,
                p_level(t, p0, d, level as int) == p_level_rest(t, self.pos as int, d, level as int, expr@),
            decreases t.len() - self.pos,
        {
            let op = match level_op_of(level, self.peek_kind()) {
                Some(op) => op,
                None => return Ok(expr),
            };
            self.advance();
            let rhs = match self.parse_operand(level) {
                Ok(e) => e,
                Err(e) => return Err(e),
            };
            expr = Expr::Binary { op, left: Box::new(expr), right: Box::new(rhs) };
        }
    }

    /// The operand of a level: the next level, or a unary expression.
    fn parse_operand(&mut self, level: u8) -> (r: Result<Expr, Error>)
        requires
            old(self).wf(),
            level <= 5,
        ensures
            err_on_token(old(self).toks(), r),
            final(self).advanced(old(self), r is Ok),
            agrees(r, final(self).pos, p_operand(old(self).toks(), old(self).pos as int, old(self).depth(), level as int)),
        decreases old(self).toks().len() + 1 - old(self).pos, 27 - 3 * level,
    {
        if level < 5 {
            self.parse_level(level + 1)
        } else {
            self.parse_unary()
        }
    }

    /// unary = ("-" | "!") unary | postfix
    fn parse_unary(&mut self) -> (r: Result<Expr, Error>)
        requires
            old(self).wf(),
        ensures
            err_on_token(old(self).toks(), r),
            final(self).advanced(old(self), r is Ok),
            agrees(r, final(self).pos, p_unary(old(self).toks(), old(self).pos as int, old(self).depth())),
        decreases old(self).toks().len() + 1 - old(self).pos, 11nat,
    {
        let op = match self.peek_kind() {
            TokenKind::Minus => UnaryOp::Neg,
            TokenKind::Bang => UnaryOp::Not,
            _ => return self.parse_postfix(),
        };
        self.advance();
        let e = match self.parse_unary() {
            Ok(e) => e,
            Err(e) => return Err(e),
        };
        Ok(Expr::Unary { op, expr: Box::new(e) })
    }

    /// postfix = primary [ "(" args ")" ]
    fn parse_postfix(&mut self) -> (r: Result<Expr, Error>)
        requires
            old(self).wf(),
        ensures
            err_on_token(old(self).toks(), r),
            final(self).advanced(old(self), r is Ok),
            agrees(r, final(self).pos, p_postfix(old(self).toks(), old(self).pos as int, old(self).depth())),
        decreases old(self).toks().len() + 1 - old(self).pos, 10nat,
    {
        let expr = match self.parse_primary() {
            Ok(e) => e,
            Err(e) => return Err(e),
        };
        if !self.check(&TokenKind::LParen) {
            return Ok(expr);
        }
        self.advance();
        let args = match self.parse_args() {
            Ok(args) => args,
            Err(e) => return Err(e),
        };
        match self.expect(TokenKind::RParen) {
            Ok(()) => {},
            Err(e) => return Err(e),
        }
        match expr {
            Expr::Var(name) => {
                let r = Expr::Call { callee: name, args };
                proof {
                    lemma_expr_views(r);
                }
                Ok(r)
            },
            _ => Err(self.error_here("callee must be an identifier")),
        }
    }

    /// primary = literal | name | constructor | "(" expr ")" | list | map
    ///         | if | match | for
    #[verifier::rlimit(40)]
    #[verifier::spinoff_prover]
    fn parse_primary(&mut self) -> (r: Result<Expr, Error>)
        requires
            old(self).wf(),
        ensures
            err_on_token(old(self).toks(), r),
            final(self).advanced(old(self), r is Ok),
            agrees(r, final(self).pos, p_primary(old(self).toks(), old(self).pos as int, old(self).depth())),
        decreases old(self).toks().len() + 1 - old(self).pos, 9nat,
    {
        match self.peek_kind() {
            TokenKind::Int(v) => {
                let v = *v;
                self.advance();
                Ok(Expr::Int(v))
            },
            TokenKind::KwTrue => {
                self.advance();
                Ok(Expr::Bool(true))
            },
            TokenKind::KwFalse => {
                self.advance();
                Ok(Expr::Bool(false))
            },
            TokenKind::Str(s) => {
                let s = s.clone();
                self.advance();
                Ok(Expr::Str(s))
            },
            TokenKind::Bytes(b) => {
                let b = b.clone();
                proof {
                    assert(b@ =~= kind(self.toks(), self.pos as int)->Bytes_0);
                }
                self.advance();
                Ok(Expr::Bytes(b))
            },
            TokenKind::LBracket => self.parse_list_literal(),
            TokenKind::Hash => self.parse_map_literal(),
            TokenKind::Ident(name) => {
                let name = name.clone();
                self.advance();
                if is_ctor(&name) && self.match_scrutinee_depth == 0 && self.check(&TokenKind::LBrace) {
                    self.advance();
                    let fields = match self.parse_construct_fields() {
                        Ok(fields) => fields,
                        Err(e) => return Err(e),
                    };
                    match self.expect(TokenKind::RBrace) {
                        Ok(()) => {},
                        Err(e) => return Err(e),
                    }
                    let r = Expr::Construct { name, fields };
                    proof {
                        lemma_expr_views(r);
                    }
                    Ok(r)
                } else {
                    Ok(Expr::Var(name))
                }
            },
            TokenKind::LParen => {
                self.advance();
                let e = match self.parse_expr() {
                    Ok(e) => e,
                    Err(e) => return Err(e),
                };
                match self.expect(TokenKind::RParen) {
                    Ok(()) => {},
                    Err(e) => return Err(e),
                }
                Ok(e)
            },
            TokenKind::KwIf => self.parse_if_expr(),
            TokenKind::KwMatch => self.parse_match_expr(),
            TokenKind::KwFor => self.parse_for_expr(),
            TokenKind::Invalid(c) => {
                let m = invalid_char_text(*c);
                Err(Error { message: m, position: self.peek().position })
            },
            _ => Err(self.error_here("unexpected token")),
        }
    }

    /// list = "[" "]" | "[" expr ".." expr "]" | "[" expr { "," expr } [","] "]"
    fn parse_list_literal(&mut self) -> (r: Result<Expr, Error>)
        requires
            old(self).wf(),
        ensures
            err_on_token(old(self).toks(), r),
            final(self).advanced(old(self), r is Ok),
            agrees(r, final(self).pos, p_list(old(self).toks(), old(self).pos as int, old(self).depth())),
        decreases old(self).toks().len() + 1 - old(self).pos, 8nat,
    {
        let ghost t = self.toks();
        let ghost p0 = self.pos as int;
        let ghost d = self.depth();
        match self.expect(TokenKind::LBracket) {
            Ok(()) => {},
            Err(e) => return Err(e),
        }
        if self.check(&TokenKind::RBracket) {
            self.advance();
            let r = Expr::List(Vec::new());
            proof {
                lemma_expr_views(r);
                assert(exprs_view(Seq::<Expr>::empty()) =~= Seq::<SExpr>::empty());
            }
            return Ok(r);
        }
        let first = match self.parse_expr() {
            Ok(e) => e,
            Err(e) => return Err(e),
        };
        if self.check(&TokenKind::DotDot) {
            self.advance();
            let last = match self.parse_expr() {
                Ok(e) => e,
                Err(e) => return Err(e),
            };
            match self.expect(TokenKind::RBracket) {
                Ok(()) => {},
                Err(e) => return Err(e),
            }
            return Ok(Expr::RangeList { start: Box::new(first), end: Box::new(last) });
        }
        let mut items: Vec<Expr> = Vec::new();
        items.push(first);
        proof {
            assert(exprs_view(items@) =~= seq![first@]);
        }
        loop
            invariant
                p0 == old(self).pos as int,
                self.advanced(old(self), true),
                self.toks() == t,
                self.depth() == d,
                p0 < self.pos,
                t.len() == self.tokens@.len(),
                p_list(t, p0, d) == p_list_after(t, self.pos as int, d, exprs_view(items@)),
            decreases t.len() - self.pos,
        {
            if self.check(&TokenKind::Comma) {
                self.advance();
                if self.check(&TokenKind::RBracket) {
                    self.advance();
                    let r = Expr::List(items);
                    proof {
                        lemma_expr_views(r);
                    }
                    return Ok(r);
                }
                let e = match self.parse_expr() {
                    Ok(e) => e,
                    Err(e) => return Err(e),
                };
                let ghost before = exprs_view(items@);
                items.push(e);
                proof {
                    assert(exprs_view(items@) =~= before.push(e@));
                }
            } else {
                match self.expect(TokenKind::RBracket) {
                    Ok(()) => {},
                    Err(e) => return Err(e),
                }
                let r = Expr::List(items);
                proof {
                    lemma_expr_views(r);
                }
                return Ok(r);
            }
        }
    }

    /// map = "#" "{" [ entry { "," entry } [","] ] "}", entry = expr ":" expr
    #[verifier::rlimit(40)]
    #[verifier::spinoff_prover]
    fn parse_map_literal(&mut self) -> (r: Result<Expr, Error>)
        requires
            old(self).wf(),
        ensures
            err_on_token(old(self).toks(), r),
            final(self).advanced(old(self), r is Ok),
            agrees(r, final(self).pos, p_map(old(self).toks(), old(self).pos as int, old(self).depth())),
        decreases old(self).toks().len() + 1 - old(self).pos, 8nat,
    {
        let ghost t = self.toks();
        let ghost p0 = self.pos as int;
        let ghost d = self.depth();
        match self.expect(TokenKind::Hash) {
            Ok(()) => {},
            Err(e) => return Err(e),
        }
        match self.expect(TokenKind::LBrace) {
            Ok(()) => {},
            Err(e) => return Err(e),
        }
        let mut entries: Vec<(Expr, Expr)> = Vec::new();
        if self.check(&TokenKind::RBrace) {
            self.advance();
            let r = Expr::Dict(entries);
            proof {
                lemma_expr_views(r);
                assert(entries_view(entries@) =~= Seq::<(SExpr, SExpr)>::empty());
            }
            return Ok(r);
        }
        proof {
            assert(entries_view(entries@) =~= Seq::<(SExpr, SExpr)>::empty());
        }
        loop
            invariant
                p0 == old(self).pos as int,
                self.advanced(old(self), true),
                self.toks() == t,
                self.depth() == d,
                p0 < self.pos,
                t.len() == self.tokens@.len(),
                p_map(t, p0, d) == p_map_entries(t, self.pos as int, d, entries_view(entries@)),
            decreases t.len() - self.pos,
        {
            let key = match self.parse_expr() {
                Ok(e) => e,
                Err(e) => return Err(e),
            };
            match self.expect(TokenKind::Colon) {
                Ok(()) => {},
                Err(e) => return Err(e),
            }
            let value = match self.parse_expr() {
                Ok(e) => e,
                Err(e) => return Err(e),
            };
            let ghost before = entries_view(entries@);
            let ghost kv = (key@, value@);
            entries.push((key, value));
            proof {
                assert(entries_view(entries@) =~= before.push(kv));
            }
            if self.check(&TokenKind::Comma) {
                self.advance();
                if self.check(&TokenKind::RBrace) {
                    self.advance();
                    let r = Expr::Dict(entries);
                    proof {
                        lemma_expr_views(r);
                    }
                    return Ok(r);
                }
            } else {
                match self.expect(TokenKind::RBrace) {
                    Ok(()) => {},
                    Err(e) => return Err(e),
                }
                let r = Expr::Dict(entries);
                proof {
                    lemma_expr_views(r);
                }
                return Ok(r);
            }
        }
    }

    /// if = "if" expr "{" expr "}" "else" "{" expr "}"
    fn parse_if_expr(&mut self) -> (r: Result<Expr, Error>)
        requires
            old(self).wf(),
        ensures
            err_on_token(old(self).toks(), r),
            final(self).advanced(old(self), r is Ok),
            agrees(r, final(self).pos, p_if(old(self).toks(), old(self).pos as int, old(self).depth())),
        decreases old(self).toks().len() + 1 - old(self).pos, 8nat,
    {
        match self.expect(TokenKind::KwIf) {
            Ok(()) => {},
            Err(e) => return Err(e),
        }
        let cond = match self.parse_expr() {
            Ok(e) => e,
            Err(e) => return Err(e),
        };
        match self.expect(TokenKind::LBrace) {
            Ok(()) => {},
            Err(e) => return Err(e),
        }
        let then_branch = match self.parse_expr() {
            Ok(e) => e,
            Err(e) => return Err(e),
        };
        match self.expect(TokenKind::RBrace) {
            Ok(()) => {},
            Err(e) => return Err(e),
        }
        match self.expect(TokenKind::KwElse) {
            Ok(()) => {},
            Err(e) => return Err(e),
        }
        match self.expect(TokenKind::LBrace) {
            Ok(()) => {},
            Err(e) => return Err(e),
        }
        let else_branch = match self.parse_expr() {
            Ok(e) => e,
            Err(e) => return Err(e),
        };
        match self.expect(TokenKind::RBrace) {
            Ok(()) => {},
            Err(e) => return Err(e),
        }
        Ok(
            Expr::If {
                cond: Box::new(cond),
                then_branch: Box::new(then_branch),
                else_branch: Box::new(else_branch),
            },
        )
    }

    /// for = "for" Ident "in" expr ["if" expr] "{" expr "}"; the list and the
    /// guard are read as headers, where `Name {` opens the body.
    fn parse_for_expr(&mut self) -> (r: Result<Expr, Error>)
        requires
            old(self).wf(),
        ensures
            err_on_token(old(self).toks(), r),
            final(self).advanced(old(self), r is Ok),
            agrees(r, final(self).pos, p_for(old(self).toks(), old(self).pos as int, old(self).depth())),
        decreases old(self).toks().len() + 1 - old(self).pos, 8nat,
    {
        match self.expect(TokenKind::KwFor) {
            Ok(()) => {},
            Err(e) => return Err(e),
        }
        let name = match self.expect_ident() {
            Ok(name) => name,
            Err(e) => return Err(e),
        };
        let in_word = match self.peek_kind() {
            TokenKind::Ident(w) => is_in(w),
            _ => false,
        };
        if !in_word {
            return Err(self.error_here("expected 'in'"));
        }
        self.advance();
        self.match_scrutinee_depth = self.match_scrutinee_depth + 1;
        let iter = match self.parse_expr() {
            Ok(e) => e,
            Err(e) => return Err(e),
        };
        self.match_scrutinee_depth = self.match_scrutinee_depth - 1;
        let guard = if self.check(&TokenKind::KwIf) {
            self.advance();
            self.match_scrutinee_depth = self.match_scrutinee_depth + 1;
            let g = match self.parse_expr() {
                Ok(e) => e,
                Err(e) => return Err(e),
            };
            self.match_scrutinee_depth = self.match_scrutinee_depth - 1;
            Some(Box::new(g))
        } else {
            None
        };
        match self.expect(TokenKind::LBrace) {
            Ok(()) => {},
            Err(e) => return Err(e),
        }
        let body = match self.parse_expr() {
            Ok(e) => e,
            Err(e) => return Err(e),
        };
        match self.expect(TokenKind::RBrace) {
            Ok(()) => {},
            Err(e) => return Err(e),
        }
        Ok(Expr::For { name, iter: Box::new(iter), guard, body: Box::new(body) })
    }

    /// match = "match" expr "{" arm { sep arm } [sep] "}"; the scrutinee is
    /// read as a header, where `Name {` opens the arms.
    #[verifier::rlimit(40)]
    #[verifier::spinoff_prover]
    fn parse_match_expr(&mut self) -> (r: Result<Expr, Error>)
        requires
            old(self).wf(),
        ensures
            err_on_token(old(self).toks(), r),
            final(self).advanced(old(self), r is Ok),
            agrees(r, final(self).pos, p_match(old(self).toks(), old(self).pos as int, old(self).depth())),
        decreases old(self).toks().len() + 1 - old(self).pos, 8nat,
    {
        let ghost t = self.toks();
        let ghost p0 = self.pos as int;
        let ghost d = self.depth();
        match self.expect(TokenKind::KwMatch) {
            Ok(()) => {},
            Err(e) => return Err(e),
        }
        self.match_scrutinee_depth = self.match_scrutinee_depth + 1;
        let scrutinee = match self.parse_expr() {
            Ok(e) => e,
            Err(e) => return Err(e),
        };
        self.match_scrutinee_depth = self.match_scrutinee_depth - 1;
        match self.expect(TokenKind::LBrace) {
            Ok(()) => {},
            Err(e) => return Err(e),
        }
        if self.check(&TokenKind::RBrace) {
            return Err(self.error_here("match requires at least one arm"));
        }
        let ghost s = scrutinee@;
        let mut arms: Vec<MatchArm> = Vec::new();
        proof {
            assert(arms_view(arms@) =~= Seq::<SArm>::empty());
        }
        loop
            invariant
                p0 == old(self).pos as int,
                self.advanced(old(self), true),
                self.toks() == t,
                self.depth() == d,
                p0 < self.pos,
                t.len() == self.tokens@.len(),
                s == scrutinee@,
                p_match(t, p0, d) == with_arms(p_arms(t, self.pos as int, d, arms_view(arms@)), s),
            decreases t.len() - self.pos,
        {
            let pattern = match self.parse_match_pattern() {
                Ok(p) => p,
                Err(e) => return Err(e),
            };
            match self.expect(TokenKind::FatArrow) {
                Ok(()) => {},
                Err(e) => return Err(e),
            }
            let body = match self.parse_expr() {
                Ok(e) => e,
                Err(e) => return Err(e),
            };
            let ghost before = arms_view(arms@);
            let arm = MatchArm { pattern, body };
            let ghost a = arm@;
            arms.push(arm);
            proof {
                assert(arms_view(arms@) =~= before.push(a));
            }
            if self.check(&TokenKind::Comma) || self.check(&TokenKind::Semicolon) {
                self.advance();
                if self.check(&TokenKind::RBrace) {
                    self.advance();
                    let r = Expr::Match { scrutinee: Box::new(scrutinee), arms };
                    proof {
                        lemma_expr_views(r);
                    }
                    return Ok(r);
                }
            } else {
                match self.expect(TokenKind::RBrace) {
                    Ok(()) => {},
                    Err(e) => return Err(e),
                }
                let r = Expr::Match { scrutinee: Box::new(scrutinee), arms };
                proof {
                    lemma_expr_views(r);
                }
                return Ok(r);
            }
        }
    }

    /// match_pattern = "_" | Ident "{" fields "}" | Ident | cmp expr | expr
    fn parse_match_pattern(&mut self) -> (r: Result<MatchPattern, Error>)
        requires
            old(self).wf(),
        ensures
            err_on_token(old(self).toks(), r),
            final(self).advanced(old(self), r is Ok),
            agrees(r, final(self).pos, p_match_pattern(old(self).toks(), old(self).pos as int, old(self).depth())),
        decreases old(self).toks().len() + 1 - old(self).pos, 34nat,
    {
        let name = match self.peek_kind() {
            TokenKind::Ident(name) => name.clone(),
            _ => {
                match compare_op_of(self.peek_kind()) {
                    Some(op) => {
                        self.advance();
                        let e = match self.parse_expr() {
                            Ok(e) => e,
                            Err(e) => return Err(e),
                        };
                        return Ok(MatchPattern::Compare { op, expr: e });
                    },
                    None => {
                        let e = match self.parse_expr() {
                            Ok(e) => e,
                            Err(e) => return Err(e),
                        };
                        return Ok(MatchPattern::Expr(e));
                    },
                }
            },
        };
        if is_single(&name, '_') {
            self.advance();
            return Ok(MatchPattern::Wildcard);
        }
        if self.check_second(&TokenKind::LBrace) {
            self.advance();
            self.advance();
            let fields = match self.parse_pattern_fields() {
                Ok(fields) => fields,
                Err(e) => return Err(e),
            };
            match self.expect(TokenKind::RBrace) {
                Ok(()) => {},
                Err(e) => return Err(e),
            }
            let r = MatchPattern::Variant { name, fields };
            proof {
                assert(r@->Variant_fields =~= field_patterns_view(fields@));
            }
            Ok(r)
        } else {
            self.advance();
            let r = MatchPattern::Variant { name, fields: Vec::new() };
            proof {
                assert(r@->Variant_fields =~= Seq::<(Seq<char>, Option<Seq<char>>)>::empty());
            }
            Ok(r)
        }
    }

    /// construct_fields = [ field { "," field } [","] ] before "}",
    /// field = Ident [ ":" expr ]
    fn parse_construct_fields(&mut self) -> (r: Result<Vec<(String, Expr)>, Error>)
        requires
            old(self).wf(),
        ensures
            err_on_token(old(self).toks(), r),
            final(self).advanced(old(self), r is Ok),
            agrees_with(
                r,
                final(self).pos,
                p_construct_fields(old(self).toks(), old(self).pos as int, old(self).depth()),
                |v: Vec<(String, Expr)>| fields_view(v@),
            ),
        decreases old(self).toks().len() + 1 - old(self).pos, 8nat,
    {
        let ghost t = self.toks();
        let ghost p0 = self.pos as int;
        let ghost d = self.depth();
        let mut fields: Vec<(String, Expr)> = Vec::new();
        proof {
            assert(fields_view(fields@) =~= Seq::<(Seq<char>, SExpr)>::empty());
        }
        if self.check(&TokenKind::RBrace) {
            return Ok(fields);
        }
        loop
            invariant
                p0 == old(self).pos as int,
                self.advanced(old(self), true),
                self.toks() == t,
                self.depth() == d,
                p0 <= self.pos,
                t.len() == self.tokens@.len(),
                p_construct_fields(t, p0, d) == p_construct_from(t, self.pos as int, d, fields_view(fields@)),
            decreases t.len() - self.pos,
        {
            let field_name = match self.expect_ident() {
                Ok(name) => name,
                Err(e) => return Err(e),
            };
            let e = if self.check(&TokenKind::Colon) {
                self.advance();
                match self.parse_expr() {
                    Ok(e) => e,
                    Err(e) => return Err(e),
                }
            } else {
                Expr::Var(field_name.clone())
            };
            let ghost before = fields_view(fields@);
            let ghost fv = (field_name@, e@);
            fields.push((field_name, e));
            proof {
                assert(fields_view(fields@) =~= before.push(fv));
            }
            if self.check(&TokenKind::Comma) {
                self.advance();
                if self.check(&TokenKind::RBrace) {
                    return Ok(fields);
                }
            } else {
                return Ok(fields);
            }
        }
    }

    /// pattern_fields = [ pfield { "," pfield } [","] ] before "}",
    /// pfield = Ident [ ":" (Ident | "_") ]
    fn parse_pattern_fields(&mut self) -> (r: Result<Vec<FieldPattern>, Error>)
        requires
            old(self).wf(),
        ensures
            err_on_token(old(self).toks(), r),
            final(self).advanced(old(self), r is Ok),
            agrees_with(
                r,
                final(self).pos,
                p_pattern_fields(old(self).toks(), old(self).pos as int, Seq::empty()),
                |v: Vec<FieldPattern>| field_patterns_view(v@),
            ),
    {
        let ghost t = self.toks();
        let ghost p0 = self.pos as int;
        let mut fields: Vec<FieldPattern> = Vec::new();
        proof {
            assert(field_patterns_view(fields@) =~= Seq::<(Seq<char>, Option<Seq<char>>)>::empty());
        }
        if self.check(&TokenKind::RBrace) {
            return Ok(fields);
        }
        loop
            invariant
                p0 == old(self).pos as int,
                self.advanced(old(self), true),
                self.toks() == t,
                p0 <= self.pos,
                t.len() == self.tokens@.len(),
                fields@.len() == 0 ==> !(kind(t, self.pos as int) is RBrace),
                p_pattern_fields(t, p0, Seq::empty()) == p_pattern_fields(
                    t,
                    self.pos as int,
                    field_patterns_view(fields@),
                ),
            decreases t.len() - self.pos,
        {
            let field = match self.expect_ident() {
                Ok(name) => name,
                Err(e) => return Err(e),
            };
            let bind = if self.check(&TokenKind::Colon) {
                self.advance();
                let b = match self.peek_kind() {
                    TokenKind::Ident(n) => if is_single(n, '_') {
                        None
                    } else {
                        Some(n.clone())
                    },
                    _ => return Err(self.error_here("expected identifier after ':'")),
                };
                self.advance();
                b
            } else {
                Some(field.clone())
            };
            let ghost before = field_patterns_view(fields@);
            let fp = FieldPattern { field, bind };
            let ghost fv = fp@;
            fields.push(fp);
            proof {
                assert(field_patterns_view(fields@) =~= before.push(fv));
            }
            if self.check(&TokenKind::Comma) {
                self.advance();
                if self.check(&TokenKind::RBrace) {
                    return Ok(fields);
                }
            } else {
                return Ok(fields);
            }
        }
    }
}

impl<'a> Parser<'a> {
    /// program = { item ";" } [ expr [";"] ] Eof
    fn parse_program(&mut self) -> (r: Result<Program, Error>)
        requires
            old(self).wf(),
            old(self).pos == 0,
            old(self).match_scrutinee_depth == 0,
        ensures
            err_on_token(old(self).toks(), r),
            match r {
                Ok(p) => p_program(old(self).toks()) == Ok::<_, SErr>(p@),
                Err(e) => p_program(old(self).toks()) == Err::<SProgram, _>(e@),
            },
    {
        let ghost t = self.toks();
        let mut items: Vec<Item> = Vec::new();
        proof {
            assert(items_view(items@) =~= Seq::<SItem>::empty());
        }
        while self.starts_item()
            invariant
                self.advanced(old(self), true),
                self.toks() == t,
                self.match_scrutinee_depth == 0,
                t.len() == self.tokens@.len(),
                p_items(t, 0, Seq::empty()) == p_items(t, self.pos as int, items_view(items@)),
            decreases t.len() - self.pos,
        {
            let item = match self.parse_item() {
                Ok(item) => item,
                Err(e) => return Err(e),
            };
            match self.expect(TokenKind::Semicolon) {
                Ok(()) => {},
                Err(e) => return Err(e),
            }
            let ghost before = items_view(items@);
            let ghost iv = item@;
            items.push(item);
            proof {
                assert(items_view(items@) =~= before.push(iv));
            }
        }
        let expr = if !self.check(&TokenKind::Eof) {
            let e = match self.parse_expr() {
                Ok(e) => e,
                Err(e) => return Err(e),
            };
            if self.check(&TokenKind::Semicolon) {
                self.advance();
                None
            } else {
                Some(e)
            }
        } else {
            None
        };
        match self.expect(TokenKind::Eof) {
            Ok(()) => {},
            Err(e) => return Err(e),
        }
        let r = Program { items, expr };
        proof {
            assert(r@.items =~= items_view(items@));
        }
        Ok(r)
    }

    /// Whether the next token starts an item.
    fn starts_item(&self) -> (b: bool)
        requires
            self.wf(),
        ensures
            b == starts_item(kind(self.toks(), self.pos as int)),
    {
        match self.peek_kind() {
            TokenKind::KwData | TokenKind::KwExtern | TokenKind::KwFn | TokenKind::KwLet => true,
            _ => false,
        }
    }

    /// item = data_def | extern_fn | fn_def | let_def
    fn parse_item(&mut self) -> (r: Result<Item, Error>)
        requires
            old(self).wf(),
            old(self).match_scrutinee_depth == 0,
        ensures
            err_on_token(old(self).toks(), r),
            final(self).advanced(old(self), r is Ok),
            agrees(r, final(self).pos, p_item(old(self).toks(), old(self).pos as int)),
    {
        match self.peek_kind() {
            TokenKind::KwData => match self.parse_data_def() {
                Ok(d) => Ok(Item::Data(d)),
                Err(e) => Err(e),
            },
            TokenKind::KwExtern => match self.parse_extern_fn() {
                Ok(d) => Ok(Item::ExternFn(d)),
                Err(e) => Err(e),
            },
            TokenKind::KwFn => match self.parse_fn() {
                Ok(d) => Ok(Item::Fn(d)),
                Err(e) => Err(e),
            },
            TokenKind::KwLet => match self.parse_let() {
                Ok(d) => Ok(Item::Let(d)),
                Err(e) => Err(e),
            },
            _ => Err(self.error_here("expected 'data', 'extern', 'fn', or 'let'")),
        }
    }

    /// data_def = "data" Ident "=" variant { "|" variant }
    fn parse_data_def(&mut self) -> (r: Result<DataDef, Error>)
        requires
            old(self).wf(),
        ensures
            err_on_token(old(self).toks(), r),
            final(self).advanced(old(self), r is Ok),
            agrees_with(
                r,
                final(self).pos,
                p_data_def(old(self).toks(), old(self).pos as int),
                |d: DataDef| Item::Data(d)@,
            ),
    {
        let ghost t = self.toks();
        match self.expect(TokenKind::KwData) {
            Ok(()) => {},
            Err(e) => return Err(e),
        }
        let name = match self.expect_ident() {
            Ok(name) => name,
            Err(e) => return Err(e),
        };
        match self.expect(TokenKind::Eq) {
            Ok(()) => {},
            Err(e) => return Err(e),
        }
        let ghost p3 = self.pos as int;
        let mut variants: Vec<DataVariant> = Vec::new();
        proof {
            assert(variants_view(variants@) =~= Seq::<(Seq<char>, Seq<Seq<char>>)>::empty());
        }
        loop
            invariant
                self.advanced(old(self), true),
                self.toks() == t,
                t.len() == self.tokens@.len(),
                p_data_def(t, old(self).pos as int) == with_data(
                    p_variants(t, self.pos as int, variants_view(variants@)),
                    name@,
                ),
            decreases t.len() - self.pos,
        {
            let v = match self.parse_data_variant() {
                Ok(v) => v,
                Err(e) => return Err(e),
            };
            let ghost before = variants_view(variants@);
            let ghost vv = v@;
            variants.push(v);
            proof {
                assert(variants_view(variants@) =~= before.push(vv));
            }
            if self.check(&TokenKind::Bar) {
                self.advance();
            } else {
                let d = DataDef { name, variants };
                proof {
                    assert(Item::Data(d)@->Data_variants =~= variants_view(d.variants@));
                }
                return Ok(d);
            }
        }
    }

    /// variant = Ident [ "{" [ Ident { "," Ident } [","] ] "}" ]
    fn parse_data_variant(&mut self) -> (r: Result<DataVariant, Error>)
        requires
            old(self).wf(),
        ensures
            err_on_token(old(self).toks(), r),
            final(self).advanced(old(self), r is Ok),
            r is Ok ==> old(self).pos < final(self).pos,
            agrees(r, final(self).pos, p_data_variant(old(self).toks(), old(self).pos as int)),
    {
        let name = match self.expect_ident() {
            Ok(name) => name,
            Err(e) => return Err(e),
        };
        if !self.check(&TokenKind::LBrace) {
            let r = DataVariant { name, fields: Vec::new() };
            proof {
                assert(r@.1 =~= Seq::<Seq<char>>::empty());
            }
            return Ok(r);
        }
        self.advance();
        if self.check(&TokenKind::RBrace) {
            self.advance();
            let r = DataVariant { name, fields: Vec::new() };
            proof {
                assert(r@.1 =~= Seq::<Seq<char>>::empty());
            }
            return Ok(r);
        }
        let fields = match self.parse_field_names() {
            Ok(fields) => fields,
            Err(e) => return Err(e),
        };
        match self.expect(TokenKind::RBrace) {
            Ok(()) => {},
            Err(e) => return Err(e),
        }
        Ok(DataVariant { name, fields })
    }

    /// Ident { "," Ident } [","] before "}"
    fn parse_field_names(&mut self) -> (r: Result<Vec<String>, Error>)
        requires
            old(self).wf(),
        ensures
            err_on_token(old(self).toks(), r),
            final(self).advanced(old(self), r is Ok),
            agrees_with(
                r,
                final(self).pos,
                p_field_names(old(self).toks(), old(self).pos as int, Seq::empty()),
                |v: Vec<String>| names_view(v@),
            ),
    {
        let ghost t = self.toks();
        let ghost p0 = self.pos as int;
        let mut names: Vec<String> = Vec::new();
        proof {
            assert(names_view(names@) =~= Seq::<Seq<char>>::empty());
        }
        loop
            invariant
                p0 == old(self).pos as int,
                self.advanced(old(self), true),
                self.toks() == t,
                t.len() == self.tokens@.len(),
                p_field_names(t, p0, Seq::empty()) == p_field_names(t, self.pos as int, names_view(names@)),
            decreases t.len() - self.pos,
        {
            let name = match self.expect_ident() {
                Ok(name) => name,
                Err(e) => return Err(e),
            };
            let ghost before = names_view(names@);
            let ghost nv = name@;
            names.push(name);
            proof {
                assert(names_view(names@) =~= before.push(nv));
            }
            if self.check(&TokenKind::Comma) {
                self.advance();
                if self.check(&TokenKind::RBrace) {
                    return Ok(names);
                }
            } else {
                return Ok(names);
            }
        }
    }

    /// params = [ Ident { "," Ident } ] before ")"
    fn parse_params(&mut self) -> (r: Result<Vec<String>, Error>)
        requires
            old(self).wf(),
        ensures
            err_on_token(old(self).toks(), r),
            final(self).advanced(old(self), r is Ok),
            agrees_with(
                r,
                final(self).pos,
                p_params(old(self).toks(), old(self).pos as int, Seq::empty()),
                |v: Vec<String>| names_view(v@),
            ),
    {
        let ghost t = self.toks();
        let ghost p0 = self.pos as int;
        let mut params: Vec<String> = Vec::new();
        proof {
            assert(names_view(params@) =~= Seq::<Seq<char>>::empty());
        }
        if self.check(&TokenKind::RParen) {
            return Ok(params);
        }
        loop
            invariant
                p0 == old(self).pos as int,
                self.advanced(old(self), true),
                self.toks() == t,
                t.len() == self.tokens@.len(),
                params@.len() == 0 ==> !(kind(t, self.pos as int) is RParen),
                p_params(t, p0, Seq::empty()) == p_params(t, self.pos as int, names_view(params@)),
            decreases t.len() - self.pos,
        {
            let name = match self.expect_ident() {
                Ok(name) => name,
                Err(e) => return Err(e),
            };
            let ghost before = names_view(params@);
            let ghost nv = name@;
            params.push(name);
            proof {
                assert(names_view(params@) =~= before.push(nv));
            }
            if self.check(&TokenKind::Comma) {
                self.advance();
            } else {
                return Ok(params);
            }
        }
    }

    /// extern_fn = "extern" "fn" Ident "(" [params] ")" [explain_block]
    fn parse_extern_fn(&mut self) -> (r: Result<ExternFnDef, Error>)
        requires
            old(self).wf(),
        ensures
            err_on_token(old(self).toks(), r),
            final(self).advanced(old(self), r is Ok),
            agrees_with(
                r,
                final(self).pos,
                p_extern_fn(old(self).toks(), old(self).pos as int),
                |d: ExternFnDef| Item::ExternFn(d)@,
            ),
    {
        match self.expect(TokenKind::KwExtern) {
            Ok(()) => {},
            Err(e) => return Err(e),
        }
        match self.expect(TokenKind::KwFn) {
            Ok(()) => {},
            Err(e) => return Err(e),
        }
        let name = match self.expect_ident() {
            Ok(name) => name,
            Err(e) => return Err(e),
        };
        match self.expect(TokenKind::LParen) {
            Ok(()) => {},
            Err(e) => return Err(e),
        }
        let params = match self.parse_params() {
            Ok(params) => params,
            Err(e) => return Err(e),
        };
        match self.expect(TokenKind::RParen) {
            Ok(()) => {},
            Err(e) => return Err(e),
        }
        let explain = match self.peek_kind() {
            TokenKind::Explain(text) => {
                let text = text.clone();
                self.advance();
                text
            },
            _ => {
                let empty = String::new();
                proof {
                    assert(empty@ =~= Seq::<char>::empty());
                }
                empty
            },
        };
        Ok(ExternFnDef { name, params, explain })
    }

    /// fn_def = "fn" Ident "(" [params] ")" "=" expr
    fn parse_fn(&mut self) -> (r: Result<FnDef, Error>)
        requires
            old(self).wf(),
            old(self).match_scrutinee_depth == 0,
        ensures
            err_on_token(old(self).toks(), r),
            final(self).advanced(old(self), r is Ok),
            agrees_with(
                r,
                final(self).pos,
                p_fn(old(self).toks(), old(self).pos as int),
                |d: FnDef| Item::Fn(d)@,
            ),
    {
        match self.expect(TokenKind::KwFn) {
            Ok(()) => {},
            Err(e) => return Err(e),
        }
        let name = match self.expect_ident() {
            Ok(name) => name,
            Err(e) => return Err(e),
        };
        match self.expect(TokenKind::LParen) {
            Ok(()) => {},
            Err(e) => return Err(e),
        }
        let params = match self.parse_params() {
            Ok(params) => params,
            Err(e) => return Err(e),
        };
        match self.expect(TokenKind::RParen) {
            Ok(()) => {},
            Err(e) => return Err(e),
        }
        match self.expect(TokenKind::Eq) {
            Ok(()) => {},
            Err(e) => return Err(e),
        }
        let body = match self.parse_expr() {
            Ok(e) => e,
            Err(e) => return Err(e),
        };
        Ok(FnDef { name, params, body })
    }

    /// let_def = "let" Ident "=" expr
    fn parse_let(&mut self) -> (r: Result<LetDef, Error>)
        requires
            old(self).wf(),
            old(self).match_scrutinee_depth == 0,
        ensures
            err_on_token(old(self).toks(), r),
            final(self).advanced(old(self), r is Ok),
            agrees_with(
                r,
                final(self).pos,
                p_let(old(self).toks(), old(self).pos as int),
                |d: LetDef| Item::Let(d)@,
            ),
    {
        match self.expect(TokenKind::KwLet) {
            Ok(()) => {},
            Err(e) => return Err(e),
        }
        let name = match self.expect_ident() {
            Ok(name) => name,
            Err(e) => return Err(e),
        };
        match self.expect(TokenKind::Eq) {
            Ok(()) => {},
            Err(e) => return Err(e),
        }
        let expr = match self.parse_expr() {
            Ok(e) => e,
            Err(e) => return Err(e),
        };
        Ok(LetDef { name, expr })
    }
}

/// A data definition around the result of parsing its variants.
spec fn with_data(r: PRes<Seq<(Seq<char>, Seq<Seq<char>>)>>, name: Seq<char>) -> PRes<SItem> {
    match r {
        Err(e) => Err(e),
        Ok((variants, p)) => Ok((SItem::Data { name, variants }, p)),
    }
}

/// A match expression around the result of parsing its arms.
spec fn with_arms(r: PRes<Seq<SArm>>, s: SExpr) -> PRes<SExpr> {
    match r {
        Err(e) => Err(e),
        Ok((arms, p)) => Ok((SExpr::Match { scrutinee: Box::new(s), arms }, p)),
    }
}

/// Past the last token the parser sees only `Eof`.
proof fn lemma_past_end_is_eof(t: Seq<SpecToken>, p: int)
    ensures
        p >= t.len() ==> kind(t, p) is Eof,
{
}

proof fn lemma_plain_tag(a: SpecKind, b: SpecKind)
    requires
        is_plain(b),
        kind_tag(a) == kind_tag(b),
    ensures
        a == b,
{
}

} // verus!
