//! The grammar of IF Lang as a recursive-descent function on token
//! sequences. `parser` computes exactly this function.
use vstd::prelude::*;

use crate::ast::surface::{SArm, SExpr, SItem, SPattern, SPipeTarget, SProgram};
use crate::ast::BinaryOp;
use crate::ast::UnaryOp;
use crate::format::int_text;
use crate::lexer::{SpecKind, SpecToken};
use crate::show::bytes_text;
use crate::text::{char_debug_text, debug_text};

verus! {

/// A parse error: its message and the byte offset it points at.
pub type SErr = (Seq<char>, int);

/// A parse result: the value and the index of the first unread token.
pub type PRes<T> = Result<(T, int), SErr>;

/// The text that the `Debug` format gives for a token kind: the variant's
/// name, and its payload in parentheses.
#[verifier::opaque]
pub open spec fn kind_debug_text(k: SpecKind) -> Seq<char> {
    match k {
        SpecKind::Ident(s) => "Ident("@ + debug_text(s) + ")"@,
        SpecKind::Int(v) => "Int("@ + int_text(v) + ")"@,
        SpecKind::Str(s) => "Str("@ + debug_text(s) + ")"@,
        SpecKind::Bytes(b) => "Bytes("@ + bytes_text(b) + ")"@,
        SpecKind::Explain(s) => "Explain("@ + debug_text(s) + ")"@,
        SpecKind::Invalid(c) => "Invalid("@ + char_debug_text(c) + ")"@,
        SpecKind::KwExtern => "KwExtern"@,
        SpecKind::KwData => "KwData"@,
        SpecKind::KwMatch => "KwMatch"@,
        SpecKind::KwFn => "KwFn"@,
        SpecKind::KwLet => "KwLet"@,
        SpecKind::KwFor => "KwFor"@,
        SpecKind::KwIf => "KwIf"@,
        SpecKind::KwElse => "KwElse"@,
        SpecKind::KwTrue => "KwTrue"@,
        SpecKind::KwFalse => "KwFalse"@,
        SpecKind::KwExplain => "KwExplain"@,
        SpecKind::LParen => "LParen"@,
        SpecKind::RParen => "RParen"@,
        SpecKind::LBrace => "LBrace"@,
        SpecKind::RBrace => "RBrace"@,
        SpecKind::LBracket => "LBracket"@,
        SpecKind::RBracket => "RBracket"@,
        SpecKind::Comma => "Comma"@,
        SpecKind::Colon => "Colon"@,
        SpecKind::Semicolon => "Semicolon"@,
        SpecKind::Eq => "Eq"@,
        SpecKind::FatArrow => "FatArrow"@,
        SpecKind::Bar => "Bar"@,
        SpecKind::Plus => "Plus"@,
        SpecKind::Minus => "Minus"@,
        SpecKind::Star => "Star"@,
        SpecKind::Slash => "Slash"@,
        SpecKind::Percent => "Percent"@,
        SpecKind::EqEq => "EqEq"@,
        SpecKind::BangEq => "BangEq"@,
        SpecKind::Lt => "Lt"@,
        SpecKind::LtEq => "LtEq"@,
        SpecKind::Gt => "Gt"@,
        SpecKind::GtEq => "GtEq"@,
        SpecKind::AndAnd => "AndAnd"@,
        SpecKind::OrOr => "OrOr"@,
        SpecKind::Bang => "Bang"@,
        SpecKind::Pipe => "Pipe"@,
        SpecKind::Hash => "Hash"@,
        SpecKind::DotDot => "DotDot"@,
        SpecKind::Eof => "Eof"@,
    }
}

/// Where a missing token is reported: at the last token, or 0.
pub open spec fn eof_position(t: Seq<SpecToken>) -> int {
    if t.len() > 0 {
        t.last().position
    } else {
        0
    }
}

/// The token at index `p`; past the end the parser sees `Eof`.
pub open spec fn tok(t: Seq<SpecToken>, p: int) -> SpecToken {
    if 0 <= p < t.len() {
        t[p]
    } else {
        SpecToken { kind: SpecKind::Eof, position: eof_position(t) }
    }
}

pub open spec fn kind(t: Seq<SpecToken>, p: int) -> SpecKind {
    tok(t, p).kind
}

pub open spec fn err_here(t: Seq<SpecToken>, p: int, msg: Seq<char>) -> SErr {
    (msg, tok(t, p).position)
}

/// The message of a missing expected token.
pub open spec fn expected_message(expected: SpecKind, found: SpecKind) -> Seq<char> {
    "expected "@ + kind_debug_text(expected) + ", found "@ + kind_debug_text(found)
}

/// `advance`: moves one token on, but not past the end.
pub open spec fn adv(t: Seq<SpecToken>, p: int) -> int {
    if p < t.len() {
        p + 1
    } else {
        p
    }
}

/// Consumes a token of the given kind.
pub open spec fn expect(t: Seq<SpecToken>, p: int, k: SpecKind) -> Result<int, SErr> {
    if kind(t, p) == k {
        Ok(p + 1)
    } else {
        Err((expected_message(k, kind(t, p)), tok(t, p).position))
    }
}

/// Consumes an identifier.
pub open spec fn expect_ident(t: Seq<SpecToken>, p: int) -> PRes<Seq<char>> {
    match kind(t, p) {
        SpecKind::Ident(n) => Ok((n, p + 1)),
        _ => Err(err_here(t, p, "expected identifier"@)),
    }
}

/// Whether a position returned by a sub-parse lies between `p` and the end.
pub open spec fn within(t: Seq<SpecToken>, p: int, q: int) -> bool {
    p <= q <= t.len()
}

/// What a sub-parse that reported an impossible position gives.
pub open spec fn stray(t: Seq<SpecToken>, p: int) -> SErr {
    err_here(t, p, "unexpected token"@)
}

pub open spec fn bin(op: BinaryOp, l: SExpr, r: SExpr) -> SExpr {
    SExpr::Binary { op, left: Box::new(l), right: Box::new(r) }
}

/// Whether a name starts with an ASCII capital letter.
pub open spec fn is_ctor_name(n: Seq<char>) -> bool {
    n.len() > 0 && 'A' <= n[0] <= 'Z'
}

/// The binary operator that a token stands for at each precedence level:
/// 0 `||`, 1 `&&`, 2 equality, 3 comparison, 4 additive, 5 multiplicative.
pub open spec fn level_op(level: int, k: SpecKind) -> Option<BinaryOp> {
    if level == 0 {
        if k is OrOr {
            Some(BinaryOp::Or)
        } else {
            None
        }
    } else if level == 1 {
        if k is AndAnd {
            Some(BinaryOp::And)
        } else {
            None
        }
    } else if level == 2 {
        if k is EqEq {
            Some(BinaryOp::Eq)
        } else if k is BangEq {
            Some(BinaryOp::Neq)
        } else {
            None
        }
    } else if level == 3 {
        if k is Lt {
            Some(BinaryOp::Lt)
        } else if k is LtEq {
            Some(BinaryOp::Lte)
        } else if k is Gt {
            Some(BinaryOp::Gt)
        } else if k is GtEq {
            Some(BinaryOp::Gte)
        } else {
            None
        }
    } else if level == 4 {
        if k is Plus {
            Some(BinaryOp::Add)
        } else if k is Minus {
            Some(BinaryOp::Sub)
        } else {
            None
        }
    } else {
        if k is Star {
            Some(BinaryOp::Mul)
        } else if k is Slash {
            Some(BinaryOp::Div)
        } else if k is Percent {
            Some(BinaryOp::Mod)
        } else {
            None
        }
    }
}

// ---------------------------------------------------------------------------
// Expressions. `d` counts the match scrutinees (and for headers) being
// parsed: while it is not 0, `Name {` does not start a constructor.
/// expr = pipe
pub open spec fn p_expr(t: Seq<SpecToken>, p: int, d: nat) -> PRes<SExpr>
    decreases t.len() + 1 - p, 31nat,
{
    if p < 0 || p > t.len() {
        Err(stray(t, p))
    } else {
        p_pipe(t, p, d)
    }
}

/// pipe = logic_or { "|>" pipe_target }
pub open spec fn p_pipe(t: Seq<SpecToken>, p: int, d: nat) -> PRes<SExpr>
    decreases t.len() + 1 - p, 30nat,
{
    if p < 0 || p > t.len() {
        Err(stray(t, p))
    } else {
        match p_level(t, p, d, 0) {
            Err(e) => Err(e),
            Ok((lhs, p1)) => if !within(t, p, p1) {
                Err(stray(t, p))
            } else {
                p_pipe_rest(t, p1, d, lhs)
            },
        }
    }
}

pub open spec fn p_pipe_rest(t: Seq<SpecToken>, p: int, d: nat, lhs: SExpr) -> PRes<SExpr>
    decreases t.len() + 1 - p, 29nat,
{
    if p < 0 || p > t.len() {
        Err(stray(t, p))
    } else if kind(t, p) is Pipe {
        match p_pipe_target(t, p + 1, d) {
            Err(e) => Err(e),
            Ok((target, p1)) => if !within(t, p + 1, p1) {
                Err(stray(t, p))
            } else {
                p_pipe_rest(t, p1, d, SExpr::Pipe { input: Box::new(lhs), target })
            },
        }
    } else {
        Ok((lhs, p))
    }
}

/// pipe_target = Ident [ "(" [args] ")" ]
pub open spec fn p_pipe_target(t: Seq<SpecToken>, p: int, d: nat) -> PRes<SPipeTarget>
    decreases t.len() + 1 - p, 7nat,
{
    if p < 0 || p > t.len() {
        Err(stray(t, p))
    } else {
        match expect_ident(t, p) {
            Err(e) => Err(e),
            Ok((name, p1)) => if kind(t, p1) is LParen {
                match p_args(t, p1 + 1, d) {
                    Err(e) => Err(e),
                    Ok((args, p2)) => if !within(t, p1 + 1, p2) {
                        Err(stray(t, p))
                    } else {
                        match expect(t, p2, SpecKind::RParen) {
                            Err(e) => Err(e),
                            Ok(p3) => Ok((SPipeTarget::Call { name, args }, p3)),
                        }
                    },
                }
            } else {
                Ok((SPipeTarget::Ident(name), p1))
            },
        }
    }
}

/// The binary precedence levels: operand { op operand }.
pub open spec fn p_level(t: Seq<SpecToken>, p: int, d: nat, level: int) -> PRes<SExpr>
    decreases t.len() + 1 - p, 28 - 3 * level,
{
    if p < 0 || p > t.len() || level < 0 || level > 5 {
        Err(stray(t, p))
    } else {
        match p_operand(t, p, d, level) {
            Err(e) => Err(e),
            Ok((lhs, p1)) => if !within(t, p, p1) {
                Err(stray(t, p))
            } else {
                p_level_rest(t, p1, d, level, lhs)
            },
        }
    }
}

pub open spec fn p_level_rest(t: Seq<SpecToken>, p: int, d: nat, level: int, lhs: SExpr) -> PRes<
    SExpr,
>
    decreases t.len() + 1 - p, 26 - 3 * level,
{
    if p < 0 || p > t.len() || level < 0 || level > 5 {
        Err(stray(t, p))
    } else {
        match level_op(level, kind(t, p)) {
            None => Ok((lhs, p)),
            Some(op) => match p_operand(t, p + 1, d, level) {
                Err(e) => Err(e),
                Ok((rhs, p1)) => if !within(t, p + 1, p1) {
                    Err(stray(t, p))
                } else {
                    p_level_rest(t, p1, d, level, bin(op, lhs, rhs))
                },
            },
        }
    }
}

/// The operands of a level: the next level, or unary below the last.
pub open spec fn p_operand(t: Seq<SpecToken>, p: int, d: nat, level: int) -> PRes<SExpr>
    decreases t.len() + 1 - p, 27 - 3 * level,
{
    if p < 0 || p > t.len() || level < 0 || level > 5 {
        Err(stray(t, p))
    } else if level < 5 {
        p_level(t, p, d, level + 1)
    } else {
        p_unary(t, p, d)
    }
}

/// unary = ("-" | "!") unary | postfix
pub open spec fn p_unary(t: Seq<SpecToken>, p: int, d: nat) -> PRes<SExpr>
    decreases t.len() + 1 - p, 11nat,
{
    if p < 0 || p > t.len() {
        Err(stray(t, p))
    } else if kind(t, p) is Minus || kind(t, p) is Bang {
        let op = if kind(t, p) is Minus {
            UnaryOp::Neg
        } else {
            UnaryOp::Not
        };
        match p_unary(t, p + 1, d) {
            Err(e) => Err(e),
            Ok((e, p1)) => Ok((SExpr::Unary { op, expr: Box::new(e) }, p1)),
        }
    } else {
        p_postfix(t, p, d)
    }
}

/// postfix = primary [ "(" [args] ")" ], where only a name can be called.
pub open spec fn p_postfix(t: Seq<SpecToken>, p: int, d: nat) -> PRes<SExpr>
    decreases t.len() + 1 - p, 10nat,
{
    if p < 0 || p > t.len() {
        Err(stray(t, p))
    } else {
        match p_primary(t, p, d) {
            Err(e) => Err(e),
            Ok((e, p1)) => if !within(t, p, p1) {
                Err(stray(t, p))
            } else if kind(t, p1) is LParen {
                match p_args(t, p1 + 1, d) {
                    Err(err) => Err(err),
                    Ok((args, p2)) => if !within(t, p1 + 1, p2) {
                        Err(stray(t, p))
                    } else {
                        match expect(t, p2, SpecKind::RParen) {
                            Err(err) => Err(err),
                            Ok(p3) => match e {
                                SExpr::Var(name) => Ok((SExpr::Call { callee: name, args }, p3)),
                                _ => Err(err_here(t, p3, "callee must be an identifier"@)),
                            },
                        }
                    },
                }
            } else {
                Ok((e, p1))
            },
        }
    }
}

/// The message for an invalid character.
pub open spec fn invalid_char_message(c: char) -> Seq<char> {
    "invalid character '"@ + seq![c] + "'"@
}

/// primary = literal | name | constructor | "(" expr ")" | list | map | if
///         | match | for
pub open spec fn p_primary(t: Seq<SpecToken>, p: int, d: nat) -> PRes<SExpr>
    decreases t.len() + 1 - p, 9nat,
{
    if p < 0 || p > t.len() {
        Err(stray(t, p))
    } else {
        match kind(t, p) {
            SpecKind::Int(v) => Ok((SExpr::Int(v), p + 1)),
            SpecKind::KwTrue => Ok((SExpr::Bool(true), p + 1)),
            SpecKind::KwFalse => Ok((SExpr::Bool(false), p + 1)),
            SpecKind::Str(s) => Ok((SExpr::Str(s), p + 1)),
            SpecKind::Bytes(b) => Ok((SExpr::Bytes(b), p + 1)),
            SpecKind::LBracket => p_list(t, p, d),
            SpecKind::Hash => p_map(t, p, d),
            SpecKind::Ident(name) => if is_ctor_name(name) && d == 0 && kind(t, p + 1) is LBrace {
                match p_construct_fields(t, p + 2, d) {
                    Err(e) => Err(e),
                    Ok((fields, p1)) => if !within(t, p + 2, p1) {
                        Err(stray(t, p))
                    } else {
                        match expect(t, p1, SpecKind::RBrace) {
                            Err(e) => Err(e),
                            Ok(p2) => Ok((SExpr::Construct { name, fields }, p2)),
                        }
                    },
                }
            } else {
                Ok((SExpr::Var(name), p + 1))
            },
            SpecKind::LParen => match p_expr(t, p + 1, d) {
                Err(e) => Err(e),
                Ok((e, p1)) => if !within(t, p + 1, p1) {
                    Err(stray(t, p))
                } else {
                    match expect(t, p1, SpecKind::RParen) {
                        Err(err) => Err(err),
                        Ok(p2) => Ok((e, p2)),
                    }
                },
            },
            SpecKind::KwIf => p_if(t, p, d),
            SpecKind::KwMatch => p_match(t, p, d),
            SpecKind::KwFor => p_for(t, p, d),
            SpecKind::Invalid(c) => Err(err_here(t, p, invalid_char_message(c))),
            _ => Err(err_here(t, p, "unexpected token"@)),
        }
    }
}

/// args = expr { "," expr } (no trailing comma), possibly empty before ")".
pub open spec fn p_args(t: Seq<SpecToken>, p: int, d: nat) -> PRes<Seq<SExpr>>
    decreases t.len() + 1 - p, 33nat,
{
    if p < 0 || p > t.len() {
        Err(stray(t, p))
    } else if kind(t, p) is RParen {
        Ok((Seq::empty(), p))
    } else {
        p_args_from(t, p, d, Seq::empty())
    }
}

pub open spec fn p_args_from(t: Seq<SpecToken>, p: int, d: nat, acc: Seq<SExpr>) -> PRes<
    Seq<SExpr>,
>
    decreases t.len() + 1 - p, 32nat,
{
    if p < 0 || p > t.len() {
        Err(stray(t, p))
    } else {
        match p_expr(t, p, d) {
            Err(e) => Err(e),
            Ok((e, p1)) => if !within(t, p, p1) {
                Err(stray(t, p))
            } else if kind(t, p1) is Comma {
                p_args_from(t, p1 + 1, d, acc.push(e))
            } else {
                Ok((acc.push(e), p1))
            },
        }
    }
}

/// list = "[" "]" | "[" expr ".." expr "]" | "[" expr { "," expr } [","] "]"
pub open spec fn p_list(t: Seq<SpecToken>, p: int, d: nat) -> PRes<SExpr>
    decreases t.len() + 1 - p, 8nat,
{
    if p < 0 || p > t.len() {
        Err(stray(t, p))
    } else {
        match expect(t, p, SpecKind::LBracket) {
            Err(e) => Err(e),
            Ok(p1) => if kind(t, p1) is RBracket {
                Ok((SExpr::List(Seq::empty()), p1 + 1))
            } else {
                match p_expr(t, p1, d) {
                    Err(e) => Err(e),
                    Ok((first, p2)) => if !within(t, p1, p2) {
                        Err(stray(t, p))
                    } else if kind(t, p2) is DotDot {
                        match p_expr(t, p2 + 1, d) {
                            Err(e) => Err(e),
                            Ok((last, p3)) => if !within(t, p2 + 1, p3) {
                                Err(stray(t, p))
                            } else {
                                match expect(t, p3, SpecKind::RBracket) {
                                    Err(e) => Err(e),
                                    Ok(p4) => Ok(
                                        (
                                            SExpr::RangeList {
                                                start: Box::new(first),
                                                end: Box::new(last),
                                            },
                                            p4,
                                        ),
                                    ),
                                }
                            },
                        }
                    } else {
                        p_list_after(t, p2, d, seq![first])
                    },
                }
            },
        }
    }
}

/// The rest of a list after an item.
pub open spec fn p_list_after(t: Seq<SpecToken>, p: int, d: nat, acc: Seq<SExpr>) -> PRes<SExpr>
    decreases t.len() + 1 - p, 8nat,
{
    if p < 0 || p > t.len() {
        Err(stray(t, p))
    } else if kind(t, p) is Comma {
        if kind(t, p + 1) is RBracket {
            Ok((SExpr::List(acc), p + 2))
        } else {
            match p_expr(t, p + 1, d) {
                Err(e) => Err(e),
                Ok((e, p1)) => if !within(t, p + 1, p1) {
                    Err(stray(t, p))
                } else {
                    p_list_after(t, p1, d, acc.push(e))
                },
            }
        }
    } else {
        match expect(t, p, SpecKind::RBracket) {
            Err(e) => Err(e),
            Ok(p1) => Ok((SExpr::List(acc), p1)),
        }
    }
}

/// map = "#" "{" [ entry { "," entry } [","] ] "}", entry = expr ":" expr
pub open spec fn p_map(t: Seq<SpecToken>, p: int, d: nat) -> PRes<SExpr>
    decreases t.len() + 1 - p, 8nat,
{
    if p < 0 || p > t.len() {
        Err(stray(t, p))
    } else {
        match expect(t, p, SpecKind::Hash) {
            Err(e) => Err(e),
            Ok(p1) => match expect(t, p1, SpecKind::LBrace) {
                Err(e) => Err(e),
                Ok(p2) => if kind(t, p2) is RBrace {
                    Ok((SExpr::Dict(Seq::empty()), p2 + 1))
                } else {
                    p_map_entries(t, p2, d, Seq::empty())
                },
            },
        }
    }
}

pub open spec fn p_map_entries(t: Seq<SpecToken>, p: int, d: nat, acc: Seq<(SExpr, SExpr)>) -> PRes<
    SExpr,
>
    decreases t.len() + 1 - p, 33nat,
{
    if p < 0 || p > t.len() {
        Err(stray(t, p))
    } else {
        match p_expr(t, p, d) {
            Err(e) => Err(e),
            Ok((key, p1)) => if !within(t, p, p1) {
                Err(stray(t, p))
            } else {
                match expect(t, p1, SpecKind::Colon) {
                    Err(e) => Err(e),
                    Ok(p2) => match p_expr(t, p2, d) {
                        Err(e) => Err(e),
                        Ok((value, p3)) => if !within(t, p2, p3) {
                            Err(stray(t, p))
                        } else {
                            let acc2 = acc.push((key, value));
                            if kind(t, p3) is Comma {
                                if kind(t, p3 + 1) is RBrace {
                                    Ok((SExpr::Dict(acc2), p3 + 2))
                                } else {
                                    p_map_entries(t, p3 + 1, d, acc2)
                                }
                            } else {
                                match expect(t, p3, SpecKind::RBrace) {
                                    Err(e) => Err(e),
                                    Ok(p4) => Ok((SExpr::Dict(acc2), p4)),
                                }
                            }
                        },
                    },
                }
            },
        }
    }
}

/// if = "if" expr "{" expr "}" "else" "{" expr "}"
pub open spec fn p_if(t: Seq<SpecToken>, p: int, d: nat) -> PRes<SExpr>
    decreases t.len() + 1 - p, 8nat,
{
    if p < 0 || p > t.len() {
        Err(stray(t, p))
    } else {
        match expect(t, p, SpecKind::KwIf) {
            Err(e) => Err(e),
            Ok(p1) => match p_expr(t, p1, d) {
                Err(e) => Err(e),
                Ok((cond, p2)) => if !within(t, p1, p2) {
                    Err(stray(t, p))
                } else {
                    match expect(t, p2, SpecKind::LBrace) {
                        Err(e) => Err(e),
                        Ok(p3) => match p_expr(t, p3, d) {
                            Err(e) => Err(e),
                            Ok((then_branch, p4)) => if !within(t, p3, p4) {
                                Err(stray(t, p))
                            } else {
                                match expect(t, p4, SpecKind::RBrace) {
                                    Err(e) => Err(e),
                                    Ok(p5) => match expect(t, p5, SpecKind::KwElse) {
                                        Err(e) => Err(e),
                                        Ok(p6) => match expect(t, p6, SpecKind::LBrace) {
                                            Err(e) => Err(e),
                                            Ok(p7) => match p_expr(t, p7, d) {
                                                Err(e) => Err(e),
                                                Ok((else_branch, p8)) => if !within(t, p7, p8) {
                                                    Err(stray(t, p))
                                                } else {
                                                    match expect(t, p8, SpecKind::RBrace) {
                                                        Err(e) => Err(e),
                                                        Ok(p9) => Ok(
                                                            (
                                                                SExpr::If {
                                                                    cond: Box::new(cond),
                                                                    then_branch: Box::new(
                                                                        then_branch,
                                                                    ),
                                                                    else_branch: Box::new(
                                                                        else_branch,
                                                                    ),
                                                                },
                                                                p9,
                                                            ),
                                                        ),
                                                    }
                                                },
                                            },
                                        },
                                    },
                                }
                            },
                        },
                    }
                },
            },
        }
    }
}

/// The word `in`.
pub open spec fn is_in_word(n: Seq<char>) -> bool {
    n == seq!['i', 'n']
}

/// for = "for" Ident "in" expr ["if" expr] "{" expr "}"
pub open spec fn p_for(t: Seq<SpecToken>, p: int, d: nat) -> PRes<SExpr>
    decreases t.len() + 1 - p, 8nat,
{
    if p < 0 || p > t.len() {
        Err(stray(t, p))
    } else {
        match expect(t, p, SpecKind::KwFor) {
            Err(e) => Err(e),
            Ok(p1) => match expect_ident(t, p1) {
                Err(e) => Err(e),
                Ok((name, p2)) => if !(kind(t, p2) matches SpecKind::Ident(w) && is_in_word(w)) {
                    Err(err_here(t, p2, "expected 'in'"@))
                } else {
                    match p_expr(t, p2 + 1, d + 1) {
                        Err(e) => Err(e),
                        Ok((iter, p3)) => if !within(t, p2 + 1, p3) {
                            Err(stray(t, p))
                        } else {
                            match p_for_guard(t, p3, d) {
                                Err(e) => Err(e),
                                Ok((guard, p4)) => if !within(t, p3, p4) {
                                    Err(stray(t, p))
                                } else {
                                    match expect(t, p4, SpecKind::LBrace) {
                                        Err(e) => Err(e),
                                        Ok(p5) => match p_expr(t, p5, d) {
                                            Err(e) => Err(e),
                                            Ok((body, p6)) => if !within(t, p5, p6) {
                                                Err(stray(t, p))
                                            } else {
                                                match expect(t, p6, SpecKind::RBrace) {
                                                    Err(e) => Err(e),
                                                    Ok(p7) => Ok(
                                                        (
                                                            SExpr::For {
                                                                name,
                                                                iter: Box::new(iter),
                                                                guard,
                                                                body: Box::new(body),
                                                            },
                                                            p7,
                                                        ),
                                                    ),
                                                }
                                            },
                                        },
                                    }
                                },
                            }
                        },
                    }
                },
            },
        }
    }
}

/// The optional `if cond` of a for expression.
pub open spec fn p_for_guard(t: Seq<SpecToken>, p: int, d: nat) -> PRes<Option<Box<SExpr>>>
    decreases t.len() + 1 - p, 8nat,
{
    if p < 0 || p > t.len() {
        Err(stray(t, p))
    } else if kind(t, p) is KwIf {
        match p_expr(t, p + 1, d + 1) {
            Err(e) => Err(e),
            Ok((g, p1)) => Ok((Some(Box::new(g)), p1)),
        }
    } else {
        Ok((None, p))
    }
}

/// match = "match" expr "{" arm { sep arm } [sep] "}", sep = ";" | ","
pub open spec fn p_match(t: Seq<SpecToken>, p: int, d: nat) -> PRes<SExpr>
    decreases t.len() + 1 - p, 8nat,
{
    if p < 0 || p > t.len() {
        Err(stray(t, p))
    } else {
        match expect(t, p, SpecKind::KwMatch) {
            Err(e) => Err(e),
            Ok(p1) => match p_expr(t, p1, d + 1) {
                Err(e) => Err(e),
                Ok((scrutinee, p2)) => if !within(t, p1, p2) {
                    Err(stray(t, p))
                } else {
                    match expect(t, p2, SpecKind::LBrace) {
                        Err(e) => Err(e),
                        Ok(p3) => if kind(t, p3) is RBrace {
                            Err(err_here(t, p3, "match requires at least one arm"@))
                        } else {
                            match p_arms(t, p3, d, Seq::empty()) {
                                Err(e) => Err(e),
                                Ok((arms, p4)) => Ok(
                                    (SExpr::Match { scrutinee: Box::new(scrutinee), arms }, p4),
                                ),
                            }
                        },
                    }
                },
            },
        }
    }
}

pub open spec fn p_arms(t: Seq<SpecToken>, p: int, d: nat, acc: Seq<SArm>) -> PRes<Seq<SArm>>
    decreases t.len() + 1 - p, 35nat,
{
    if p < 0 || p > t.len() {
        Err(stray(t, p))
    } else {
        match p_match_pattern(t, p, d) {
            Err(e) => Err(e),
            Ok((pattern, p1)) => if !within(t, p, p1) {
                Err(stray(t, p))
            } else {
                match expect(t, p1, SpecKind::FatArrow) {
                    Err(e) => Err(e),
                    Ok(p2) => match p_expr(t, p2, d) {
                        Err(e) => Err(e),
                        Ok((body, p3)) => if !within(t, p2, p3) {
                            Err(stray(t, p))
                        } else {
                            let acc2 = acc.push(SArm { pattern, body });
                            if kind(t, p3) is Comma || kind(t, p3) is Semicolon {
                                if kind(t, p3 + 1) is RBrace {
                                    Ok((acc2, p3 + 2))
                                } else {
                                    p_arms(t, p3 + 1, d, acc2)
                                }
                            } else {
                                match expect(t, p3, SpecKind::RBrace) {
                                    Err(e) => Err(e),
                                    Ok(p4) => Ok((acc2, p4)),
                                }
                            }
                        },
                    },
                }
            },
        }
    }
}

/// The comparison operator a pattern starts with, if any.
pub open spec fn compare_op(k: SpecKind) -> Option<BinaryOp> {
    if k is Lt {
        Some(BinaryOp::Lt)
    } else if k is LtEq {
        Some(BinaryOp::Lte)
    } else if k is Gt {
        Some(BinaryOp::Gt)
    } else if k is GtEq {
        Some(BinaryOp::Gte)
    } else {
        None
    }
}

/// match_pattern = "_" | Ident "{" fields "}" | Ident | cmp expr | expr
pub open spec fn p_match_pattern(t: Seq<SpecToken>, p: int, d: nat) -> PRes<SPattern>
    decreases t.len() + 1 - p, 34nat,
{
    if p < 0 || p > t.len() {
        Err(stray(t, p))
    } else {
        match kind(t, p) {
            SpecKind::Ident(name) => if name == seq!['_'] {
                Ok((SPattern::Wildcard, p + 1))
            } else if kind(t, p + 1) is LBrace {
                match p_pattern_fields(t, p + 2, Seq::empty()) {
                    Err(e) => Err(e),
                    Ok((fields, p1)) => match expect(t, p1, SpecKind::RBrace) {
                        Err(e) => Err(e),
                        Ok(p2) => Ok((SPattern::Variant { name, fields }, p2)),
                    },
                }
            } else {
                Ok((SPattern::Variant { name, fields: Seq::empty() }, p + 1))
            },
            _ => match compare_op(kind(t, p)) {
                Some(op) => match p_expr(t, p + 1, d) {
                    Err(e) => Err(e),
                    Ok((e, p1)) => Ok((SPattern::Compare { op, expr: e }, p1)),
                },
                None => match p_expr(t, p, d) {
                    Err(e) => Err(e),
                    Ok((e, p1)) => Ok((SPattern::Expr(e), p1)),
                },
            },
        }
    }
}

/// construct_fields = [ field { "," field } [","] ], field = Ident [":" expr]
pub open spec fn p_construct_fields(t: Seq<SpecToken>, p: int, d: nat) -> PRes<
    Seq<(Seq<char>, SExpr)>,
>
    decreases t.len() + 1 - p, 8nat,
{
    if p < 0 || p > t.len() {
        Err(stray(t, p))
    } else if kind(t, p) is RBrace {
        Ok((Seq::empty(), p))
    } else {
        p_construct_from(t, p, d, Seq::empty())
    }
}

pub open spec fn p_construct_from(
    t: Seq<SpecToken>,
    p: int,
    d: nat,
    acc: Seq<(Seq<char>, SExpr)>,
) -> PRes<Seq<(Seq<char>, SExpr)>>
    decreases t.len() + 1 - p, 7nat,
{
    if p < 0 || p > t.len() {
        Err(stray(t, p))
    } else {
        match expect_ident(t, p) {
            Err(e) => Err(e),
            Ok((name, p1)) => {
                let value: PRes<SExpr> = if kind(t, p1) is Colon {
                    p_expr(t, p1 + 1, d)
                } else {
                    Ok((SExpr::Var(name), p1))
                };
                match value {
                    Err(e) => Err(e),
                    Ok((e, p2)) => if !within(t, p1, p2) {
                        Err(stray(t, p))
                    } else {
                        let acc2 = acc.push((name, e));
                        if kind(t, p2) is Comma {
                            if kind(t, p2 + 1) is RBrace {
                                Ok((acc2, p2 + 1))
                            } else {
                                p_construct_from(t, p2 + 1, d, acc2)
                            }
                        } else {
                            Ok((acc2, p2))
                        }
                    },
                }
            },
        }
    }
}

/// pattern_fields = [ pfield { "," pfield } [","] ],
/// pfield = Ident [ ":" (Ident | "_") ]
pub open spec fn p_pattern_fields(
    t: Seq<SpecToken>,
    p: int,
    acc: Seq<(Seq<char>, Option<Seq<char>>)>,
) -> PRes<Seq<(Seq<char>, Option<Seq<char>>)>>
    decreases t.len() + 1 - p,
{
    if p < 0 || p > t.len() {
        Err(stray(t, p))
    } else if acc.len() == 0 && kind(t, p) is RBrace {
        Ok((acc, p))
    } else {
        match expect_ident(t, p) {
            Err(e) => Err(e),
            Ok((field, p1)) => {
                let bind: PRes<Option<Seq<char>>> = if kind(t, p1) is Colon {
                    match kind(t, p1 + 1) {
                        SpecKind::Ident(n) => if n == seq!['_'] {
                            Ok((None, p1 + 2))
                        } else {
                            Ok((Some(n), p1 + 2))
                        },
                        _ => Err(err_here(t, p1 + 1, "expected identifier after ':'"@)),
                    }
                } else {
                    Ok((Some(field), p1))
                };
                match bind {
                    Err(e) => Err(e),
                    Ok((b, p2)) => {
                        let acc2 = acc.push((field, b));
                        if kind(t, p2) is Comma {
                            if kind(t, p2 + 1) is RBrace {
                                Ok((acc2, p2 + 1))
                            } else {
                                p_pattern_fields(t, p2 + 1, acc2)
                            }
                        } else {
                            Ok((acc2, p2))
                        }
                    },
                }
            },
        }
    }
}

/// params = [ Ident { "," Ident } ] before ")"
pub open spec fn p_params(t: Seq<SpecToken>, p: int, acc: Seq<Seq<char>>) -> PRes<Seq<Seq<char>>>
    decreases t.len() + 1 - p,
{
    if p < 0 || p > t.len() {
        Err(stray(t, p))
    } else if acc.len() == 0 && kind(t, p) is RParen {
        Ok((acc, p))
    } else {
        match expect_ident(t, p) {
            Err(e) => Err(e),
            Ok((name, p1)) => if kind(t, p1) is Comma {
                p_params(t, p1 + 1, acc.push(name))
            } else {
                Ok((acc.push(name), p1))
            },
        }
    }
}

// ---------------------------------------------------------------------------
// Items.
/// data_def = "data" Ident "=" variant { "|" variant }
pub open spec fn p_data_def(t: Seq<SpecToken>, p: int) -> PRes<SItem>
    decreases t.len() + 1 - p, 39nat,
{
    if p < 0 || p > t.len() {
        Err(stray(t, p))
    } else {
        match expect(t, p, SpecKind::KwData) {
            Err(e) => Err(e),
            Ok(p1) => match expect_ident(t, p1) {
                Err(e) => Err(e),
                Ok((name, p2)) => match expect(t, p2, SpecKind::Eq) {
                    Err(e) => Err(e),
                    Ok(p3) => match p_variants(t, p3, Seq::empty()) {
                        Err(e) => Err(e),
                        Ok((variants, p4)) => Ok((SItem::Data { name, variants }, p4)),
                    },
                },
            },
        }
    }
}

pub open spec fn p_variants(
    t: Seq<SpecToken>,
    p: int,
    acc: Seq<(Seq<char>, Seq<Seq<char>>)>,
) -> PRes<Seq<(Seq<char>, Seq<Seq<char>>)>>
    decreases t.len() + 1 - p,
{
    if p < 0 || p > t.len() {
        Err(stray(t, p))
    } else {
        match p_data_variant(t, p) {
            Err(e) => Err(e),
            Ok((v, p1)) => if !within(t, p, p1) || p1 == p {
                Err(stray(t, p))
            } else if kind(t, p1) is Bar {
                p_variants(t, adv(t, p1), acc.push(v))
            } else {
                Ok((acc.push(v), p1))
            },
        }
    }
}

/// variant = Ident [ "{" [ Ident { "," Ident } [","] ] "}" ]
pub open spec fn p_data_variant(t: Seq<SpecToken>, p: int) -> PRes<(Seq<char>, Seq<Seq<char>>)> {
    match expect_ident(t, p) {
        Err(e) => Err(e),
        Ok((name, p1)) => if kind(t, p1) is LBrace {
            if kind(t, p1 + 1) is RBrace {
                Ok(((name, Seq::empty()), p1 + 2))
            } else {
                match p_field_names(t, p1 + 1, Seq::empty()) {
                    Err(e) => Err(e),
                    Ok((fields, p2)) => match expect(t, p2, SpecKind::RBrace) {
                        Err(e) => Err(e),
                        Ok(p3) => Ok(((name, fields), p3)),
                    },
                }
            }
        } else {
            Ok(((name, Seq::empty()), p1))
        },
    }
}

pub open spec fn p_field_names(t: Seq<SpecToken>, p: int, acc: Seq<Seq<char>>) -> PRes<
    Seq<Seq<char>>,
>
    decreases t.len() + 1 - p,
{
    if p < 0 || p > t.len() {
        Err(stray(t, p))
    } else {
        match expect_ident(t, p) {
            Err(e) => Err(e),
            Ok((name, p1)) => if kind(t, p1) is Comma {
                if kind(t, p1 + 1) is RBrace {
                    Ok((acc.push(name), p1 + 1))
                } else {
                    p_field_names(t, p1 + 1, acc.push(name))
                }
            } else {
                Ok((acc.push(name), p1))
            },
        }
    }
}

/// extern_fn = "extern" "fn" Ident "(" [params] ")" [explain_block]
pub open spec fn p_extern_fn(t: Seq<SpecToken>, p: int) -> PRes<SItem>
    decreases t.len() + 1 - p, 39nat,
{
    match expect(t, p, SpecKind::KwExtern) {
        Err(e) => Err(e),
        Ok(p1) => match expect(t, p1, SpecKind::KwFn) {
            Err(e) => Err(e),
            Ok(p2) => match expect_ident(t, p2) {
                Err(e) => Err(e),
                Ok((name, p3)) => match expect(t, p3, SpecKind::LParen) {
                    Err(e) => Err(e),
                    Ok(p4) => match p_params(t, p4, Seq::empty()) {
                        Err(e) => Err(e),
                        Ok((params, p5)) => match expect(t, p5, SpecKind::RParen) {
                            Err(e) => Err(e),
                            Ok(p6) => match kind(t, p6) {
                                SpecKind::Explain(text) => Ok(
                                    (SItem::ExternFn { name, params, explain: text }, p6 + 1),
                                ),
                                _ => Ok((SItem::ExternFn { name, params, explain: Seq::empty() }, p6)),
                            },
                        },
                    },
                },
            },
        },
    }
}

/// fn_def = "fn" Ident "(" [params] ")" "=" expr
pub open spec fn p_fn(t: Seq<SpecToken>, p: int) -> PRes<SItem>
    decreases t.len() + 1 - p, 39nat,
{
    match expect(t, p, SpecKind::KwFn) {
        Err(e) => Err(e),
        Ok(p1) => match expect_ident(t, p1) {
            Err(e) => Err(e),
            Ok((name, p2)) => match expect(t, p2, SpecKind::LParen) {
                Err(e) => Err(e),
                Ok(p3) => match p_params(t, p3, Seq::empty()) {
                    Err(e) => Err(e),
                    Ok((params, p4)) => match expect(t, p4, SpecKind::RParen) {
                        Err(e) => Err(e),
                        Ok(p5) => match expect(t, p5, SpecKind::Eq) {
                            Err(e) => Err(e),
                            Ok(p6) => if p6 <= p {
                                Err(stray(t, p))
                            } else {
                                match p_expr(t, p6, 0) {
                                    Err(e) => Err(e),
                                    Ok((body, p7)) => Ok((SItem::Fn { name, params, body }, p7)),
                                }
                            },
                        },
                    },
                },
            },
        },
    }
}

/// let_def = "let" Ident "=" expr
pub open spec fn p_let(t: Seq<SpecToken>, p: int) -> PRes<SItem>
    decreases t.len() + 1 - p, 39nat,
{
    match expect(t, p, SpecKind::KwLet) {
        Err(e) => Err(e),
        Ok(p1) => match expect_ident(t, p1) {
            Err(e) => Err(e),
            Ok((name, p2)) => match expect(t, p2, SpecKind::Eq) {
                Err(e) => Err(e),
                Ok(p3) => if p3 <= p {
                    Err(stray(t, p))
                } else {
                    match p_expr(t, p3, 0) {
                        Err(e) => Err(e),
                        Ok((expr, p4)) => Ok((SItem::Let { name, expr }, p4)),
                    }
                },
            },
        },
    }
}

/// Whether a token starts an item.
pub open spec fn starts_item(k: SpecKind) -> bool {
    k is KwData || k is KwExtern || k is KwFn || k is KwLet
}

/// item = data_def | extern_fn | fn_def | let_def
pub open spec fn p_item(t: Seq<SpecToken>, p: int) -> PRes<SItem>
    decreases t.len() + 1 - p, 40nat,
{
    if p < 0 || p > t.len() {
        Err(stray(t, p))
    } else {
        match kind(t, p) {
            SpecKind::KwData => p_data_def(t, p),
            SpecKind::KwExtern => p_extern_fn(t, p),
            SpecKind::KwFn => p_fn(t, p),
            SpecKind::KwLet => p_let(t, p),
            _ => Err(err_here(t, p, "expected 'data', 'extern', 'fn', or 'let'"@)),
        }
    }
}

/// { item ";" }
pub open spec fn p_items(t: Seq<SpecToken>, p: int, acc: Seq<SItem>) -> PRes<Seq<SItem>>
    decreases t.len() + 1 - p, 41nat,
{
    if p < 0 || p > t.len() {
        Err(stray(t, p))
    } else if starts_item(kind(t, p)) {
        match p_item(t, p) {
            Err(e) => Err(e),
            Ok((item, p1)) => if !within(t, p, p1) {
                Err(stray(t, p))
            } else {
                match expect(t, p1, SpecKind::Semicolon) {
                    Err(e) => Err(e),
                    Ok(p2) => p_items(t, p2, acc.push(item)),
                }
            },
        }
    } else {
        Ok((acc, p))
    }
}

/// program = { item ";" } [ expr [";"] ] Eof; a final `;` discards the
/// expression.
pub open spec fn p_program(t: Seq<SpecToken>) -> Result<SProgram, SErr> {
    match p_items(t, 0, Seq::empty()) {
        Err(e) => Err(e),
        Ok((items, p1)) => {
            let tail: PRes<Option<SExpr>> = if kind(t, p1) is Eof {
                Ok((None, p1))
            } else {
                match p_expr(t, p1, 0) {
                    Err(e) => Err(e),
                    Ok((e, p2)) => if kind(t, p2) is Semicolon {
                        Ok((None, adv(t, p2)))
                    } else {
                        Ok((Some(e), p2))
                    },
                }
            };
            match tail {
                Err(e) => Err(e),
                Ok((expr, p3)) => match expect(t, p3, SpecKind::Eof) {
                    Err(e) => Err(e),
                    Ok(_) => Ok(SProgram { items, expr }),
                },
            }
        },
    }
}

proof fn lemma_list_after_is_list(t: Seq<SpecToken>, p: int, d: nat, acc: Seq<SExpr>)
    ensures
        p_list_after(t, p, d, acc) matches Ok((e, _)) ==> e is List,
    decreases t.len() + 1 - p,
{
    if 0 <= p <= t.len() && kind(t, p) is Comma && !(kind(t, p + 1) is RBracket) {
        match p_expr(t, p + 1, d) {
            Ok((e, p1)) => if within(t, p + 1, p1) {
                lemma_list_after_is_list(t, p1, d, acc.push(e));
            },
            _ => {},
        }
    }
}

proof fn lemma_map_entries_is_dict(t: Seq<SpecToken>, p: int, d: nat, acc: Seq<(SExpr, SExpr)>)
    ensures
        p_map_entries(t, p, d, acc) matches Ok((e, _)) ==> e is Dict,
    decreases t.len() + 1 - p,
{
    if 0 <= p <= t.len() {
        match p_expr(t, p, d) {
            Ok((key, p1)) => if within(t, p, p1) {
                match expect(t, p1, SpecKind::Colon) {
                    Ok(p2) => match p_expr(t, p2, d) {
                        Ok((value, p3)) => if within(t, p2, p3) && kind(t, p3) is Comma && !(kind(
                            t,
                            p3 + 1,
                        ) is RBrace) {
                            lemma_map_entries_is_dict(t, p3 + 1, d, acc.push((key, value)));
                        },
                        _ => {},
                    },
                    _ => {},
                }
            },
            _ => {},
        }
    }
}

/// Constructor literals are parsed only from an uppercase name directly
/// followed by `{` (and not inside a match scrutinee or a `for` header):
/// a primary expression that does not start with `(` is a constructor only
/// then, and a lowercase name is a variable.
pub proof fn law_constructors_are_uppercase(t: Seq<SpecToken>, p: int, d: nat)
    ensures
        !(kind(t, p) is LParen) ==> (p_primary(t, p, d) matches Ok((SExpr::Construct { name, fields }, _))
            ==> is_ctor_name(name) && kind(t, p) == SpecKind::Ident(name) && kind(t, p + 1) is LBrace
            && d == 0),
        kind(t, p) matches SpecKind::Ident(n) ==> (0 <= p <= t.len() && !is_ctor_name(n) ==> p_primary(
            t,
            p,
            d,
        ) == Ok::<(SExpr, int), SErr>((SExpr::Var(n), p + 1))),
{
    if 0 <= p <= t.len() {
        match kind(t, p) {
            SpecKind::LBracket => {
                match expect(t, p, SpecKind::LBracket) {
                    Ok(p1) => if !(kind(t, p1) is RBracket) {
                        match p_expr(t, p1, d) {
                            Ok((first, p2)) => if within(t, p1, p2) && !(kind(t, p2) is DotDot) {
                                lemma_list_after_is_list(t, p2, d, seq![first]);
                            },
                            _ => {},
                        }
                    },
                    _ => {},
                }
            },
            SpecKind::Hash => {
                match expect(t, p, SpecKind::Hash) {
                    Ok(p1) => match expect(t, p1, SpecKind::LBrace) {
                        Ok(p2) => if !(kind(t, p2) is RBrace) {
                            lemma_map_entries_is_dict(t, p2, d, Seq::empty());
                        },
                        _ => {},
                    },
                    _ => {},
                }
            },
            _ => {},
        }
    }
}

/// The binary operator a token spells, if any.
pub open spec fn spelled_op(k: SpecKind) -> Option<BinaryOp> {
    match k {
        SpecKind::OrOr => Some(BinaryOp::Or),
        SpecKind::AndAnd => Some(BinaryOp::And),
        SpecKind::EqEq => Some(BinaryOp::Eq),
        SpecKind::BangEq => Some(BinaryOp::Neq),
        SpecKind::Lt => Some(BinaryOp::Lt),
        SpecKind::LtEq => Some(BinaryOp::Lte),
        SpecKind::Gt => Some(BinaryOp::Gt),
        SpecKind::GtEq => Some(BinaryOp::Gte),
        SpecKind::Plus => Some(BinaryOp::Add),
        SpecKind::Minus => Some(BinaryOp::Sub),
        SpecKind::Star => Some(BinaryOp::Mul),
        SpecKind::Slash => Some(BinaryOp::Div),
        SpecKind::Percent => Some(BinaryOp::Mod),
        _ => None,
    }
}

/// How tightly a binary operator binds, from loosest to tightest: `||`,
/// `&&`, `==` `!=`, `<` `<=` `>` `>=`, `+` `-`, `*` `/` `%`.
pub open spec fn binding_level(op: BinaryOp) -> int {
    match op {
        BinaryOp::Or => 0,
        BinaryOp::And => 1,
        BinaryOp::Eq | BinaryOp::Neq => 2,
        BinaryOp::Lt | BinaryOp::Lte | BinaryOp::Gt | BinaryOp::Gte => 3,
        BinaryOp::Add | BinaryOp::Sub => 4,
        BinaryOp::Mul | BinaryOp::Div | BinaryOp::Mod => 5,
    }
}

/// A token that spells an operator stands for it at the operator's level
/// and at no other.
proof fn lemma_spelled_level(k: SpecKind, l: int)
    requires
        0 <= l <= 5,
    ensures
        spelled_op(k) matches Some(op) ==> level_op(l, k) == if l == binding_level(op) {
            Some(op)
        } else {
            None::<BinaryOp>
        },
        spelled_op(k) is None ==> level_op(l, k) is None,
{
}

/// A number followed by a token that continues no operator of level
/// `level` or tighter, nor a call, is the whole operand at that level.
proof fn lemma_number_operand(t: Seq<SpecToken>, p: int, d: nat, level: int, v: i64)
    requires
        0 <= p,
        p + 1 < t.len(),
        0 <= level <= 5,
        kind(t, p) == SpecKind::Int(v),
        !(kind(t, p + 1) is LParen),
        forall|l: int| level <= l <= 5 ==> #[trigger] level_op(l, kind(t, p + 1)) is None,
    ensures
        p_level(t, p, d, level) == Ok::<(SExpr, int), SErr>((SExpr::Int(v), p + 1)),
        p_operand(t, p, d, level) == Ok::<(SExpr, int), SErr>((SExpr::Int(v), p + 1)),
    decreases 5 - level,
{
    assert(p_primary(t, p, d) == Ok::<(SExpr, int), SErr>((SExpr::Int(v), p + 1)));
    assert(p_postfix(t, p, d) == Ok::<(SExpr, int), SErr>((SExpr::Int(v), p + 1)));
    assert(p_unary(t, p, d) == Ok::<(SExpr, int), SErr>((SExpr::Int(v), p + 1)));
    if level < 5 {
        lemma_number_operand(t, p, d, level + 1, v);
    }
    assert(level_op(level, kind(t, p + 1)) is None);
    assert(p_level_rest(t, p + 1, d, level, SExpr::Int(v)) == Ok::<(SExpr, int), SErr>((SExpr::Int(v), p + 1)));
}

/// The operand at level `level` that starts with a number followed by a
/// token that continues no tighter operator, nor a call, is that number.
proof fn lemma_number_at_operand(t: Seq<SpecToken>, p: int, d: nat, level: int, v: i64)
    requires
        0 <= p,
        p + 1 < t.len(),
        0 <= level <= 5,
        kind(t, p) == SpecKind::Int(v),
        !(kind(t, p + 1) is LParen),
        forall|l: int| level < l <= 5 ==> #[trigger] level_op(l, kind(t, p + 1)) is None,
    ensures
        p_operand(t, p, d, level) == Ok::<(SExpr, int), SErr>((SExpr::Int(v), p + 1)),
{
    if level < 5 {
        lemma_number_operand(t, p, d, level + 1, v);
    } else {
        assert(p_primary(t, p, d) == Ok::<(SExpr, int), SErr>((SExpr::Int(v), p + 1)));
        assert(p_postfix(t, p, d) == Ok::<(SExpr, int), SErr>((SExpr::Int(v), p + 1)));
        assert(p_unary(t, p, d) == Ok::<(SExpr, int), SErr>((SExpr::Int(v), p + 1)));
    }
}

/// `a k b` followed by a token of a looser level (or none): from the
/// operator's level down to `level`, the parse is the binary expression.
proof fn lemma_binary_levels(t: Seq<SpecToken>, p: int, d: nat, level: int, a: i64, b: i64, op: BinaryOp)
    requires
        0 <= p,
        p + 3 < t.len(),
        kind(t, p) == SpecKind::Int(a),
        spelled_op(kind(t, p + 1)) == Some(op),
        kind(t, p + 2) == SpecKind::Int(b),
        !(kind(t, p + 3) is LParen),
        forall|l: int| level <= l <= 5 ==> #[trigger] level_op(l, kind(t, p + 3)) is None,
        0 <= level <= binding_level(op),
    ensures
        p_level(t, p, d, level) == Ok::<(SExpr, int), SErr>(
            (SExpr::Binary { op, left: Box::new(SExpr::Int(a)), right: Box::new(SExpr::Int(b)) }, p + 3),
        ),
    decreases binding_level(op) - level,
{
    let k = kind(t, p + 1);
    let lv = binding_level(op);
    let e = SExpr::Binary { op, left: Box::new(SExpr::Int(a)), right: Box::new(SExpr::Int(b)) };
    assert forall|l: int| lv < l <= 5 implies #[trigger] level_op(l, kind(t, p + 1)) is None by {
        lemma_spelled_level(k, l);
    }
    lemma_spelled_level(k, level);
    if level == lv {
        lemma_number_at_operand(t, p, d, lv, a);
        lemma_number_at_operand(t, p + 2, d, lv, b);
        assert(p_level_rest(t, p + 3, d, lv, e) == Ok::<(SExpr, int), SErr>((e, p + 3)));
        assert(p_level_rest(t, p + 1, d, lv, SExpr::Int(a)) == Ok::<(SExpr, int), SErr>((e, p + 3)));
    } else {
        lemma_binary_levels(t, p, d, level + 1, a, b, op);
        assert(p_operand(t, p, d, level) == Ok::<(SExpr, int), SErr>((e, p + 3)));
        assert(p_level_rest(t, p + 3, d, level, e) == Ok::<(SExpr, int), SErr>((e, p + 3)));
    }
}

/// Where the parse at level `top` from the start reaches the end token, it
/// is also the parse at every looser level.
proof fn lemma_levels_down(t: Seq<SpecToken>, d: nat, level: int, top: int, e: SExpr, end: int)
    requires
        0 <= level <= top <= 5,
        0 < end < t.len(),
        kind(t, end) is Eof,
        p_level(t, 0, d, top) == Ok::<(SExpr, int), SErr>((e, end)),
    ensures
        p_level(t, 0, d, level) == Ok::<(SExpr, int), SErr>((e, end)),
    decreases top - level,
{
    if level < top {
        lemma_levels_down(t, d, level + 1, top, e, end);
        assert(p_operand(t, 0, d, level) == Ok::<(SExpr, int), SErr>((e, end)));
        lemma_spelled_level(kind(t, end), level);
        assert(p_level_rest(t, end, d, level, e) == Ok::<(SExpr, int), SErr>((e, end)));
    }
}

/// The program made of one expression that the top level parses to the end.
proof fn lemma_expression_program(t: Seq<SpecToken>, e: SExpr, end: int)
    requires
        0 < end < t.len(),
        kind(t, end) is Eof,
        !(kind(t, 0) is KwData || kind(t, 0) is KwExtern || kind(t, 0) is KwFn || kind(t, 0) is KwLet || kind(t, 0) is Eof),
        p_level(t, 0, 0, 0) == Ok::<(SExpr, int), SErr>((e, end)),
    ensures
        p_program(t) == Ok::<SProgram, SErr>(SProgram { items: Seq::empty(), expr: Some(e) }),
{
    assert(p_pipe_rest(t, end, 0, e) == Ok::<(SExpr, int), SErr>((e, end)));
    assert(p_pipe(t, 0, 0) == Ok::<(SExpr, int), SErr>((e, end)));
    assert(p_expr(t, 0, 0) == Ok::<(SExpr, int), SErr>((e, end)));
    assert(p_items(t, 0, Seq::empty()) == Ok::<(Seq<SItem>, int), SErr>((Seq::empty(), 0)));
}

/// Each operator token parses to the operator it spells: a number, an
/// operator token and a number form the program whose expression is that
/// operator applied to the two numbers.
pub proof fn law_operator_tokens_parse_as_spelled(t: Seq<SpecToken>, a: i64, b: i64)
    requires
        t.len() == 4,
        t[0].kind == SpecKind::Int(a),
        spelled_op(t[1].kind) is Some,
        t[2].kind == SpecKind::Int(b),
        t[3].kind is Eof,
    ensures
        p_program(t) == Ok::<SProgram, SErr>(
            SProgram {
                items: Seq::empty(),
                expr: Some(
                    SExpr::Binary {
                        op: spelled_op(t[1].kind)->Some_0,
                        left: Box::new(SExpr::Int(a)),
                        right: Box::new(SExpr::Int(b)),
                    },
                ),
            },
        ),
{
    let op = spelled_op(t[1].kind)->Some_0;
    let e = SExpr::Binary { op, left: Box::new(SExpr::Int(a)), right: Box::new(SExpr::Int(b)) };
    assert(kind(t, 0) == SpecKind::Int(a));
    assert(kind(t, 3) is Eof);
    assert forall|l: int| 0 <= l <= 5 implies #[trigger] level_op(l, kind(t, 3)) is None by {
        lemma_spelled_level(kind(t, 3), l);
    }
    lemma_binary_levels(t, 0, 0, 0, a, b, op);
    lemma_expression_program(t, e, 3);
}

/// Operators group by precedence, and operators of one level group to the
/// left: in `a k1 b k2 c`, the second operator takes `b` and `c` together
/// when it binds more tightly than the first, and otherwise the first
/// operator's expression is the left operand of the second.
pub proof fn law_operators_group_by_precedence(t: Seq<SpecToken>, a: i64, b: i64, c: i64)
    requires
        t.len() == 6,
        t[0].kind == SpecKind::Int(a),
        spelled_op(t[1].kind) is Some,
        t[2].kind == SpecKind::Int(b),
        spelled_op(t[3].kind) is Some,
        t[4].kind == SpecKind::Int(c),
        t[5].kind is Eof,
    ensures
        p_program(t) == Ok::<SProgram, SErr>(
            SProgram {
                items: Seq::empty(),
                expr: Some(
                    if binding_level(spelled_op(t[1].kind)->Some_0) < binding_level(
                        spelled_op(t[3].kind)->Some_0,
                    ) {
                        SExpr::Binary {
                            op: spelled_op(t[1].kind)->Some_0,
                            left: Box::new(SExpr::Int(a)),
                            right: Box::new(
                                SExpr::Binary {
                                    op: spelled_op(t[3].kind)->Some_0,
                                    left: Box::new(SExpr::Int(b)),
                                    right: Box::new(SExpr::Int(c)),
                                },
                            ),
                        }
                    } else {
                        SExpr::Binary {
                            op: spelled_op(t[3].kind)->Some_0,
                            left: Box::new(
                                SExpr::Binary {
                                    op: spelled_op(t[1].kind)->Some_0,
                                    left: Box::new(SExpr::Int(a)),
                                    right: Box::new(SExpr::Int(b)),
                                },
                            ),
                            right: Box::new(SExpr::Int(c)),
                        }
                    },
                ),
            },
        ),
{
    let k1 = t[1].kind;
    let k2 = t[3].kind;
    let op1 = spelled_op(k1)->Some_0;
    let op2 = spelled_op(k2)->Some_0;
    let l1 = binding_level(op1);
    let l2 = binding_level(op2);
    assert(kind(t, 0) == SpecKind::Int(a));
    assert(kind(t, 1) == k1);
    assert(kind(t, 2) == SpecKind::Int(b));
    assert(kind(t, 3) == k2);
    assert(kind(t, 4) == SpecKind::Int(c));
    assert(kind(t, 5) is Eof);
    assert forall|l: int| 0 <= l <= 5 implies #[trigger] level_op(l, kind(t, 5)) is None by {
        lemma_spelled_level(kind(t, 5), l);
    }
    assert forall|l: int| l1 < l <= 5 implies #[trigger] level_op(l, kind(t, 1)) is None by {
        lemma_spelled_level(k1, l);
    }
    assert forall|l: int| l2 < l <= 5 implies #[trigger] level_op(l, kind(t, 3)) is None by {
        lemma_spelled_level(k2, l);
    }
    lemma_spelled_level(k1, l1);
    lemma_spelled_level(k2, l2);
    let ab = SExpr::Binary { op: op1, left: Box::new(SExpr::Int(a)), right: Box::new(SExpr::Int(b)) };
    let bc = SExpr::Binary { op: op2, left: Box::new(SExpr::Int(b)), right: Box::new(SExpr::Int(c)) };
    if l1 < l2 {
        let e = SExpr::Binary { op: op1, left: Box::new(SExpr::Int(a)), right: Box::new(bc) };
        lemma_spelled_level(k2, l1);
        lemma_binary_levels(t, 2, 0, l1 + 1, b, c, op2);
        lemma_number_at_operand(t, 0, 0, l1, a);
        assert(p_operand(t, 2, 0, l1) == Ok::<(SExpr, int), SErr>((bc, 5)));
        assert(p_level_rest(t, 5, 0, l1, e) == Ok::<(SExpr, int), SErr>((e, 5)));
        assert(p_level_rest(t, 1, 0, l1, SExpr::Int(a)) == Ok::<(SExpr, int), SErr>((e, 5)));
        assert(p_level(t, 0, 0, l1) == Ok::<(SExpr, int), SErr>((e, 5)));
        lemma_levels_down(t, 0, 0, l1, e, 5);
        lemma_expression_program(t, e, 5);
    } else {
        let e = SExpr::Binary { op: op2, left: Box::new(ab), right: Box::new(SExpr::Int(c)) };
        lemma_number_at_operand(t, 4, 0, l2, c);
        assert(p_level_rest(t, 5, 0, l2, e) == Ok::<(SExpr, int), SErr>((e, 5)));
        if l1 == l2 {
            lemma_number_at_operand(t, 0, 0, l1, a);
            lemma_number_at_operand(t, 2, 0, l1, b);
            assert(p_level_rest(t, 3, 0, l2, ab) == Ok::<(SExpr, int), SErr>((e, 5)));
            assert(p_level_rest(t, 1, 0, l1, SExpr::Int(a)) == Ok::<(SExpr, int), SErr>((e, 5)));
        } else {
            assert forall|l: int| l2 + 1 <= l <= 5 implies #[trigger] level_op(l, kind(t, 3)) is None by {
                lemma_spelled_level(k2, l);
            }
            lemma_binary_levels(t, 0, 0, l2 + 1, a, b, op1);
            assert(p_operand(t, 0, 0, l2) == Ok::<(SExpr, int), SErr>((ab, 3)));
            assert(p_level_rest(t, 3, 0, l2, ab) == Ok::<(SExpr, int), SErr>((e, 5)));
        }
        assert(p_level(t, 0, 0, l2) == Ok::<(SExpr, int), SErr>((e, 5)));
        lemma_levels_down(t, 0, 0, l2, e, 5);
        lemma_expression_program(t, e, 5);
    }
}

} // verus!
