//! The pretty-printer: a surface program back to source text.
use vstd::prelude::*;
use vstd::string::StringExecFns;
use vstd::string::StringSliceAdditionalSpecFns;

use crate::ast::surface::{
    variants_view, DataDef, ExternFnDef, FnDef, Item, LetDef, Program, SItem, SProgram, entries_view, exprs_view, fields_view, arms_view, lemma_expr_views, Expr, FieldPattern,
    MatchArm, MatchPattern, PipeTarget, SArm, SExpr, SPattern, SPipeTarget,
};
use crate::ast::{names_view, BinaryOp, UnaryOp};
use crate::lexer::{
    lemma_next_token, lex_from, lex_source, punct_spelling, quoted_body, tokens_view, Lexer, SpecKind, SpecToken, Token,
    TokenKind,
};
use crate::parser_spec::{binding_level, spelled_op};
use crate::text::{
    decimal, ends_with_char, has_char, latin1, push_decimal, str_chars, text_width, trim_text, utrim, width,
};

verus! {

pub const MAX_LIST_INLINE_WIDTH: usize = 80;

pub const MAX_LIST_INLINE_ITEMS: usize = 4;

pub const MAX_INLINE_WIDTH: usize = 100;

pub const MAX_CALL_INLINE_WIDTH: usize = 80;

pub const MAX_CALL_INLINE_ITEMS: usize = 4;

pub const MAX_CONSTRUCT_INLINE_WIDTH: usize = 80;

// ---------------------------------------------------------------------------
// Text building blocks
// ---------------------------------------------------------------------------

/// The pieces with `sep` between each two neighbours.
pub open spec fn join_sep(pieces: Seq<Seq<char>>, sep: Seq<char>) -> Seq<char>
    decreases pieces.len(),
{
    if pieces.len() == 0 {
        Seq::empty()
    } else if pieces.len() == 1 {
        pieces[0]
    } else {
        join_sep(pieces.drop_last(), sep) + sep + pieces.last()
    }
}

/// Joining one more piece.
pub proof fn lemma_join_step(pieces: Seq<Seq<char>>, sep: Seq<char>, i: int)
    requires
        0 <= i < pieces.len(),
    ensures
        join_sep(pieces.take(i + 1), sep) == if i == 0 {
            pieces[0]
        } else {
            join_sep(pieces.take(i), sep) + sep + pieces[i]
        },
{
    assert(pieces.take(i + 1).drop_last() =~= pieces.take(i));
}

/// Two spaces per level.
pub open spec fn indent_text(level: nat) -> Seq<char>
    decreases level,
{
    if level == 0 {
        Seq::empty()
    } else {
        indent_text((level - 1) as nat) + "  "@
    }
}

/// One level deeper (levels stop at `usize::MAX`).
pub open spec fn inc(level: usize) -> usize {
    if level < usize::MAX {
        (level + 1) as usize
    } else {
        level
    }
}

fn next_level(level: usize) -> (r: usize)
    ensures
        r == inc(level),
{
    if level < usize::MAX {
        level + 1
    } else {
        level
    }
}

fn push_indent(out: &mut String, level: usize)
    ensures
        final(out)@ == old(out)@ + indent_text(level as nat),
{
    let ghost start = out@;
    let mut i: usize = 0;
    while i < level
        invariant
            i <= level,
            out@ == start + indent_text(i as nat),
        decreases level - i,
    {
        out.append("  ");
        proof {
            assert(indent_text((i + 1) as nat) == indent_text(i as nat) + "  "@);
            assert(out@ =~= start + indent_text((i + 1) as nat));
        }
        i = i + 1;
    }
}

pub open spec fn unary_text(op: UnaryOp) -> Seq<char> {
    match op {
        UnaryOp::Neg => "-"@,
        UnaryOp::Not => "!"@,
    }
}

fn unary_op_str(op: UnaryOp) -> (r: &'static str)
    ensures
        r@ == unary_text(op),
{
    match op {
        UnaryOp::Neg => "-",
        UnaryOp::Not => "!",
    }
}

pub open spec fn binary_text(op: BinaryOp) -> Seq<char> {
    match op {
        BinaryOp::Add => "+"@,
        BinaryOp::Sub => "-"@,
        BinaryOp::Mul => "*"@,
        BinaryOp::Div => "/"@,
        BinaryOp::Mod => "%"@,
        BinaryOp::Eq => "=="@,
        BinaryOp::Neq => "!="@,
        BinaryOp::Lt => "<"@,
        BinaryOp::Lte => "<="@,
        BinaryOp::Gt => ">"@,
        BinaryOp::Gte => ">="@,
        BinaryOp::And => "&&"@,
        BinaryOp::Or => "||"@,
    }
}

fn binary_op_str(op: BinaryOp) -> (r: &'static str)
    ensures
        r@ == binary_text(op),
{
    match op {
        BinaryOp::Add => "+",
        BinaryOp::Sub => "-",
        BinaryOp::Mul => "*",
        BinaryOp::Div => "/",
        BinaryOp::Mod => "%",
        BinaryOp::Eq => "==",
        BinaryOp::Neq => "!=",
        BinaryOp::Lt => "<",
        BinaryOp::Lte => "<=",
        BinaryOp::Gt => ">",
        BinaryOp::Gte => ">=",
        BinaryOp::And => "&&",
        BinaryOp::Or => "||",
    }
}

/// Binding strength: pipes bind loosest, then `||`, `&&`, equality,
/// comparison, sums, products, prefix operators, and everything else.
pub open spec fn prec_of(e: SExpr) -> u8 {
    match e {
        SExpr::Pipe { .. } => 1,
        SExpr::Binary { op, .. } => match op {
            BinaryOp::Or => 2,
            BinaryOp::And => 3,
            BinaryOp::Eq | BinaryOp::Neq => 4,
            BinaryOp::Lt | BinaryOp::Lte | BinaryOp::Gt | BinaryOp::Gte => 5,
            BinaryOp::Add | BinaryOp::Sub => 6,
            BinaryOp::Mul | BinaryOp::Div | BinaryOp::Mod => 7,
        },
        SExpr::Unary { .. } => 8,
        _ => 9,
    }
}

fn expr_prec(e: &Expr) -> (r: u8)
    ensures
        r == prec_of(e@),
{
    match e {
        Expr::Pipe { .. } => 1,
        Expr::Binary { op, .. } => match op {
            BinaryOp::Or => 2,
            BinaryOp::And => 3,
            BinaryOp::Eq | BinaryOp::Neq => 4,
            BinaryOp::Lt | BinaryOp::Lte | BinaryOp::Gt | BinaryOp::Gte => 5,
            BinaryOp::Add | BinaryOp::Sub => 6,
            BinaryOp::Mul | BinaryOp::Div | BinaryOp::Mod => 7,
        },
        Expr::Unary { .. } => 8,
        _ => 9,
    }
}

/// Whether an expression printed under a parent of strength `parent`
/// (on its right side when `is_right`) needs parentheses.
pub open spec fn needs_paren(e: SExpr, parent: u8, is_right: bool) -> bool {
    prec_of(e) < parent || (prec_of(e) == parent && is_right && (e is Binary || e is Pipe))
}

/// The blocks that print over several lines as statements.
pub open spec fn is_block(e: SExpr) -> bool {
    e is Match || e is If || e is For || e is Pipe
}

fn expr_is_block(e: &Expr) -> (r: bool)
    ensures
        r == is_block(e@),
{
    match e {
        Expr::Match { .. } | Expr::If { .. } | Expr::For { .. } | Expr::Pipe { .. } => true,
        _ => false,
    }
}

/// Literals and names, which a constructor may keep on one line.
pub open spec fn is_simple(e: SExpr) -> bool {
    e is Int || e is Bool || e is Str || e is Bytes || e is Var
}

fn expr_is_simple(e: &Expr) -> (r: bool)
    ensures
        r == is_simple(e@),
{
    match e {
        Expr::Int(_) | Expr::Bool(_) | Expr::Str(_) | Expr::Bytes(_) | Expr::Var(_) => true,
        _ => false,
    }
}

// ---------------------------------------------------------------------------
// Literals
// ---------------------------------------------------------------------------

/// The decimal text of an integer.
pub open spec fn int_text(v: i64) -> Seq<char> {
    if v < 0 {
        seq!['-'] + decimal((-v) as nat)
    } else {
        decimal(v as nat)
    }
}

pub(crate) fn push_int(out: &mut String, v: i64)
    ensures
        final(out)@ == old(out)@ + int_text(v),
{
    if v < 0 {
        out.push('-');
        let u: u64 = ((-(v + 1)) as u64) + 1;
        push_decimal(out, u);
        proof {
            assert(u == -v);
            assert(final(out)@ =~= old(out)@ + int_text(v)) by {
                assert(out@ =~= old(out)@.push('-') + decimal(u as nat));
            }
        }
    } else {
        push_decimal(out, v as u64);
    }
}

/// An upper-case hexadecimal digit.
pub open spec fn hex_digit(d: int) -> char {
    if d < 10 {
        (48 + d) as char
    } else {
        (55 + d) as char
    }
}

/// A byte written as `\xHH`.
pub open spec fn hex_byte(b: u8) -> Seq<char> {
    "\\x"@ + seq![hex_digit((b / 16) as int), hex_digit((b % 16) as int)]
}

/// Bytes written as `\xHH` each.
pub open spec fn hex_bytes(bs: Seq<u8>) -> Seq<char>
    decreases bs.len(),
{
    if bs.len() == 0 {
        Seq::empty()
    } else {
        hex_bytes(bs.drop_last()) + hex_byte(bs.last())
    }
}

fn hex_char(d: u8) -> (c: char)
    requires
        d < 16,
    ensures
        c == hex_digit(d as int),
{
    if d < 10 {
        (48u8 + d) as char
    } else {
        (55u8 + d) as char
    }
}

fn push_hex_byte(out: &mut String, b: u8)
    ensures
        final(out)@ == old(out)@ + hex_byte(b),
{
    out.append("\\x");
    out.push(hex_char(b / 16));
    out.push(hex_char(b % 16));
    proof {
        assert(final(out)@ =~= old(out)@ + hex_byte(b));
    }
}

/// The UTF-8 encoding of a character.
pub open spec fn utf8_bytes(c: char) -> Seq<u8> {
    let n = (c as u32) as int;
    if n < 0x80 {
        seq![n as u8]
    } else if n < 0x800 {
        seq![(0xC0 + n / 64) as u8, (0x80 + n % 64) as u8]
    } else if n < 0x10000 {
        seq![(0xE0 + n / 4096) as u8, (0x80 + (n / 64) % 64) as u8, (0x80 + n % 64) as u8]
    } else {
        seq![
            (0xF0 + n / 262144) as u8,
            (0x80 + (n / 4096) % 64) as u8,
            (0x80 + (n / 64) % 64) as u8,
            (0x80 + n % 64) as u8,
        ]
    }
}

/// A character inside a string literal: the usual escapes, printable ASCII
/// as itself, other code points up to `0xFF` as one `\xHH`, and larger ones
/// as the `\xHH` of each of their UTF-8 bytes.
pub open spec fn esc_char(c: char) -> Seq<char> {
    if c == '\n' {
        "\\n"@
    } else if c == '\r' {
        "\\r"@
    } else if c == '\t' {
        "\\t"@
    } else if c == '\0' {
        "\\0"@
    } else if c == '\\' {
        "\\\\"@
    } else if c == '"' {
        "\\\""@
    } else if ' ' <= c <= '~' {
        seq![c]
    } else if (c as u32) <= 0xFF {
        hex_byte((c as u32) as u8)
    } else {
        hex_bytes(utf8_bytes(c))
    }
}

/// The body of a string literal.
pub open spec fn esc_str(s: Seq<char>) -> Seq<char>
    decreases s.len(),
{
    if s.len() == 0 {
        Seq::empty()
    } else {
        esc_str(s.drop_last()) + esc_char(s.last())
    }
}

fn push_esc_char(out: &mut String, c: char)
    ensures
        final(out)@ == old(out)@ + esc_char(c),
{
    if c == '\n' {
        out.append("\\n");
    } else if c == '\r' {
        out.append("\\r");
    } else if c == '\t' {
        out.append("\\t");
    } else if c == '\0' {
        out.append("\\0");
    } else if c == '\\' {
        out.append("\\\\");
    } else if c == '"' {
        out.append("\\\"");
    } else if ' ' <= c && c <= '~' {
        out.push(c);
        proof {
            assert(final(out)@ =~= old(out)@ + seq![c]);
        }
    } else {
        let n: u32 = c as u32;
        if n <= 0xFF {
            push_hex_byte(out, n as u8);
        } else {
            proof {
                reveal_with_fuel(hex_bytes, 5);
            }
            let ghost bs = utf8_bytes(c);
            if n < 0x800 {
                let b0: u8 = (0xC0 + n / 64) as u8;
                let b1: u8 = (0x80 + n % 64) as u8;
                push_hex_byte(out, b0);
                push_hex_byte(out, b1);
                proof {
                    assert(bs =~= seq![b0, b1]);
                    assert(bs.drop_last() =~= seq![b0]);
                    assert(seq![b0].drop_last() =~= Seq::<u8>::empty());
                    assert(final(out)@ =~= old(out)@ + hex_bytes(bs));
                }
            } else if n < 0x10000 {
                let b0: u8 = (0xE0 + n / 4096) as u8;
                let b1: u8 = (0x80 + (n / 64) % 64) as u8;
                let b2: u8 = (0x80 + n % 64) as u8;
                push_hex_byte(out, b0);
                push_hex_byte(out, b1);
                push_hex_byte(out, b2);
                proof {
                    assert(bs =~= seq![b0, b1, b2]);
                    assert(bs.drop_last() =~= seq![b0, b1]);
                    assert(seq![b0, b1].drop_last() =~= seq![b0]);
                    assert(seq![b0].drop_last() =~= Seq::<u8>::empty());
                    assert(final(out)@ =~= old(out)@ + hex_bytes(bs));
                }
            } else {
                let b0: u8 = (0xF0 + n / 262144) as u8;
                let b1: u8 = (0x80 + (n / 4096) % 64) as u8;
                let b2: u8 = (0x80 + (n / 64) % 64) as u8;
                let b3: u8 = (0x80 + n % 64) as u8;
                push_hex_byte(out, b0);
                push_hex_byte(out, b1);
                push_hex_byte(out, b2);
                push_hex_byte(out, b3);
                proof {
                    assert(bs =~= seq![b0, b1, b2, b3]);
                    assert(bs.drop_last() =~= seq![b0, b1, b2]);
                    assert(seq![b0, b1, b2].drop_last() =~= seq![b0, b1]);
                    assert(seq![b0, b1].drop_last() =~= seq![b0]);
                    assert(seq![b0].drop_last() =~= Seq::<u8>::empty());
                    assert(final(out)@ =~= old(out)@ + hex_bytes(bs));
                }
            }
        }
    }
}

fn push_esc_str(out: &mut String, s: &str)
    ensures
        final(out)@ == old(out)@ + esc_str(s@),
{
    let cs = str_chars(s);
    let ghost start = out@;
    let mut i: usize = 0;
    while i < cs.len()
        invariant
            i <= cs.len(),
            cs@ == s@,
            out@ == start + esc_str(cs@.take(i as int)),
        decreases cs.len() - i,
    {
        push_esc_char(out, cs[i]);
        proof {
            assert(cs@.take(i + 1).drop_last() =~= cs@.take(i as int));
            assert(out@ =~= start + esc_str(cs@.take(i + 1)));
        }
        i = i + 1;
    }
    proof {
        assert(cs@.take(cs@.len() as int) =~= cs@);
    }
}

/// A byte inside a byte-string literal.
pub open spec fn esc_byte(b: u8) -> Seq<char> {
    if b == 10 {
        "\\n"@
    } else if b == 13 {
        "\\r"@
    } else if b == 9 {
        "\\t"@
    } else if b == 0 {
        "\\0"@
    } else if b == 92 {
        "\\\\"@
    } else if b == 34 {
        "\\\""@
    } else if 0x20 <= b <= 0x7E {
        seq![b as char]
    } else {
        hex_byte(b)
    }
}

/// The body of a byte-string literal.
pub open spec fn esc_bytes(bs: Seq<u8>) -> Seq<char>
    decreases bs.len(),
{
    if bs.len() == 0 {
        Seq::empty()
    } else {
        esc_bytes(bs.drop_last()) + esc_byte(bs.last())
    }
}

fn push_esc_bytes(out: &mut String, bs: &Vec<u8>)
    ensures
        final(out)@ == old(out)@ + esc_bytes(bs@),
{
    let ghost start = out@;
    let mut i: usize = 0;
    while i < bs.len()
        invariant
            i <= bs.len(),
            out@ == start + esc_bytes(bs@.take(i as int)),
        decreases bs.len() - i,
    {
        let b = bs[i];
        if b == 10 {
            out.append("\\n");
        } else if b == 13 {
            out.append("\\r");
        } else if b == 9 {
            out.append("\\t");
        } else if b == 0 {
            out.append("\\0");
        } else if b == 92 {
            out.append("\\\\");
        } else if b == 34 {
            out.append("\\\"");
        } else if 0x20 <= b && b <= 0x7E {
            out.push(b as char);
        } else {
            push_hex_byte(out, b);
        }
        proof {
            assert(bs@.take(i + 1).drop_last() =~= bs@.take(i as int));
            assert(out@ =~= start + esc_bytes(bs@.take(i + 1)));
        }
        i = i + 1;
    }
    proof {
        assert(bs@.take(bs@.len() as int) =~= bs@);
    }
}

// ---------------------------------------------------------------------------
// Expressions on one line (or several, where a list, call or constructor
// grows too wide)
// ---------------------------------------------------------------------------

/// An expression printed under a parent of strength `parent`, at indentation
/// `ind`; `ml` allows lists, calls and constructors to break over lines.
pub open spec fn fx(e: SExpr, parent: u8, is_right: bool, ind: usize, ml: bool) -> Seq<char>
    decreases e, 3nat,
{
    let s = fx_body(e, ind, ml);
    if needs_paren(e, parent, is_right) {
        "("@ + s + ")"@
    } else {
        s
    }
}

/// An expression on one line, with no parent and no line breaks.
pub open spec fn flat(e: SExpr) -> Seq<char> {
    fx(e, 0, false, 0, false)
}

/// The text of an expression before any parentheses around it.
pub open spec fn fx_body(e: SExpr, ind: usize, ml: bool) -> Seq<char>
    decreases e, 2nat,
{
    match e {
        SExpr::Int(v) => int_text(v),
        SExpr::Bool(b) => if b {
            "true"@
        } else {
            "false"@
        },
        SExpr::Str(s) => "\""@ + esc_str(s) + "\""@,
        SExpr::Bytes(b) => "b\""@ + esc_bytes(b) + "\""@,
        SExpr::List(items) => if items.len() == 0 {
            "[]"@
        } else if !ml || !(items.len() > MAX_LIST_INLINE_ITEMS || width(
            "["@ + join_sep(fx_all(items, 0, false, false), ", "@) + "]"@,
        ) > MAX_LIST_INLINE_WIDTH) {
            "["@ + join_sep(fx_all(items, ind, false, false), ", "@) + "]"@
        } else {
            "[\n"@ + join_sep(fx_all(items, inc(ind), true, true), ",\n"@) + "\n"@ + indent_text(
                ind as nat,
            ) + "]"@
        },
        SExpr::RangeList { start, end } => "["@ + fx(*start, 0, false, 0, false) + ".."@ + fx(
            *end,
            0,
            false,
            0,
            false,
        ) + "]"@,
        SExpr::Dict(entries) => if entries.len() == 0 {
            "#{}"@
        } else {
            "#{ "@ + join_sep(fx_entries(entries, ind, ml), ", "@) + " }"@
        },
        SExpr::Var(n) => n,
        SExpr::Construct { name, fields } => if fields.len() == 0 {
            name + " {}"@
        } else if ml && construct_breaks(name, fields, ind) {
            name + " {\n"@ + join_sep(fx_fields(fields, inc(ind), true, true), ",\n"@) + "\n"@
                + indent_text(ind as nat) + "}"@
        } else {
            construct_inline(name, fields, ind, ml)
        },
        SExpr::For { name, iter, guard, body } => "for "@ + name + " in "@ + fx(
            *iter,
            0,
            false,
            0,
            false,
        ) + match guard {
            Some(g) => " if "@ + fx(*g, 0, false, 0, false),
            None => Seq::empty(),
        } + " { "@ + fx(*body, 0, false, 0, false) + " }"@,
        SExpr::Unary { op, expr } => unary_text(op) + fx(*expr, 8, false, ind, ml),
        SExpr::Binary { op, left, right } => fx(*left, prec_of(e), false, ind, ml) + " "@
            + binary_text(op) + " "@ + fx(*right, prec_of(e), true, ind, ml),
        SExpr::If { cond, then_branch, else_branch } => "if "@ + fx(*cond, 0, false, 0, false)
            + " { "@ + fx(*then_branch, 0, false, 0, false) + " } else { "@ + fx(
            *else_branch,
            0,
            false,
            0,
            false,
        ) + " }"@,
        SExpr::Call { callee, args } => if args.len() == 0 {
            callee + "()"@
        } else if !ml || !(args.len() > MAX_CALL_INLINE_ITEMS || width(
            callee + "("@ + join_sep(fx_all(args, ind, false, false), ", "@) + ")"@,
        ) > MAX_CALL_INLINE_WIDTH) {
            callee + "("@ + join_sep(fx_all(args, ind, false, false), ", "@) + ")"@
        } else {
            callee + "(\n"@ + join_sep(fx_all(args, inc(ind), true, true), ",\n"@) + "\n"@
                + indent_text(ind as nat) + ")"@
        },
        SExpr::Pipe { .. } => fx_pipe(e, ind, ml),
        SExpr::Match { scrutinee, arms } => "match "@ + fx(*scrutinee, 0, false, 0, false) + " { "@
            + join_sep(fx_arms(arms), " "@) + " }"@,
    }
}

/// The items of a list or the arguments of a call, each with no parent;
/// with `lead`, each after the indentation of its own line.
pub open spec fn fx_all(items: Seq<SExpr>, ind: usize, ml: bool, lead: bool) -> Seq<Seq<char>>
    decreases items, 0nat,
{
    Seq::new(
        items.len(),
        |i: int|
            if 0 <= i < items.len() {
                (if lead {
                    indent_text(ind as nat)
                } else {
                    Seq::empty()
                }) + fx(items[i], 0, false, ind, ml)
            } else {
                Seq::empty()
            },
    )
}

/// The entries of a map literal, `key: value` each.
pub open spec fn fx_entries(entries: Seq<(SExpr, SExpr)>, ind: usize, ml: bool) -> Seq<Seq<char>>
    decreases entries, 0nat,
{
    Seq::new(
        entries.len(),
        |i: int|
            if 0 <= i < entries.len() {
                fx(entries[i].0, 0, false, ind, ml) + ": "@ + fx(entries[i].1, 0, false, ind, ml)
            } else {
                Seq::empty()
            },
    )
}

/// The fields of a constructor: `name` alone where the value is the variable
/// of that name, else `name: value`; with `lead`, each after the indentation
/// of its own line.
pub open spec fn fx_fields(fields: Seq<(Seq<char>, SExpr)>, ind: usize, ml: bool, lead: bool) -> Seq<
    Seq<char>,
>
    decreases fields, 0nat,
{
    Seq::new(
        fields.len(),
        |i: int|
            if 0 <= i < fields.len() {
                (if lead {
                    indent_text(ind as nat)
                } else {
                    Seq::empty()
                }) + field_text(fields[i].0, fields[i].1, ind, ml)
            } else {
                Seq::empty()
            },
    )
}

/// One field of a constructor.
pub open spec fn field_text(name: Seq<char>, value: SExpr, ind: usize, ml: bool) -> Seq<char>
    decreases value, 4nat,
{
    if value == SExpr::Var(name) {
        name
    } else {
        name + ": "@ + fx(value, 0, false, ind, ml)
    }
}

/// The values of a constructor's fields, each allowed to break over lines.
pub open spec fn fx_values(fields: Seq<(Seq<char>, SExpr)>, ind: usize) -> Seq<Seq<char>>
    decreases fields, 0nat,
{
    Seq::new(
        fields.len(),
        |i: int|
            if 0 <= i < fields.len() {
                fx(fields[i].1, 0, false, ind, true)
            } else {
                Seq::empty()
            },
    )
}

/// A constructor on one line.
pub open spec fn construct_inline(
    name: Seq<char>,
    fields: Seq<(Seq<char>, SExpr)>,
    ind: usize,
    ml: bool,
) -> Seq<char>
    decreases fields, 1nat,
{
    name + " { "@ + join_sep(fx_fields(fields, ind, ml, false), ", "@) + " }"@
}

/// A constructor breaks over lines when it has several fields one of which
/// is not a literal or a name (or breaks itself), or when it is too wide.
pub open spec fn construct_breaks(name: Seq<char>, fields: Seq<(Seq<char>, SExpr)>, ind: usize) -> bool
    decreases fields, 2nat,
{
    (fields.len() > 1 && some_value_breaks(fields, fx_values(fields, ind))) || width(
        construct_inline(name, fields, ind, false),
    ) > MAX_CONSTRUCT_INLINE_WIDTH
}

/// Whether some field's value, as printed in `vals`, spans several lines or
/// is not a literal or a name.
pub open spec fn some_value_breaks(fields: Seq<(Seq<char>, SExpr)>, vals: Seq<Seq<char>>) -> bool {
    exists|i: int| 0 <= i < fields.len() && (vals[i].contains('\n') || !is_simple(fields[i].1))
}

/// A chain of pipes: its first input under the strength of a pipe, then
/// ` |> ` and each target in order.
pub open spec fn fx_pipe(e: SExpr, ind: usize, ml: bool) -> Seq<char>
    decreases e, 1nat,
{
    match e {
        SExpr::Pipe { input, target } => (if *input is Pipe {
            fx_pipe(*input, ind, ml)
        } else {
            fx(*input, 1, false, ind, ml)
        }) + " |> "@ + fx_target(target, ind, ml),
        _ => Seq::empty(),
    }
}

/// The target of a pipe.
pub open spec fn fx_target(t: SPipeTarget, ind: usize, ml: bool) -> Seq<char>
    decreases t, 0nat,
{
    match t {
        SPipeTarget::Ident(n) => n,
        SPipeTarget::Call { name, args } => name + "("@ + join_sep(fx_all(args, ind, ml, false), ", "@)
            + ")"@,
    }
}

/// The arms of a match on one line, `pattern => body;` each.
pub open spec fn fx_arms(arms: Seq<SArm>) -> Seq<Seq<char>>
    decreases arms, 0nat,
{
    Seq::new(
        arms.len(),
        |i: int|
            if 0 <= i < arms.len() {
                fx_pattern(arms[i].pattern) + " => "@ + fx(arms[i].body, 0, false, 0, false) + ";"@
            } else {
                Seq::empty()
            },
    )
}

/// A match pattern.
pub open spec fn fx_pattern(p: SPattern) -> Seq<char>
    decreases p, 0nat,
{
    match p {
        SPattern::Wildcard => "_"@,
        SPattern::Expr(x) => fx(x, 0, false, 0, false),
        SPattern::Compare { op, expr } => binary_text(op) + " "@ + fx(expr, 0, false, 0, false),
        SPattern::Variant { name, fields } => if fields.len() == 0 {
            name
        } else {
            name + " { "@ + join_sep(field_pattern_texts(fields), ", "@) + " }"@
        },
    }
}

/// A field of a variant pattern: `field` where it binds its own name,
/// `field: name` where it binds another, `field: _` where it binds none.
pub open spec fn field_pattern_text(f: (Seq<char>, Option<Seq<char>>)) -> Seq<char> {
    match f.1 {
        None => f.0 + ": _"@,
        Some(b) => if b == f.0 {
            f.0
        } else {
            f.0 + ": "@ + b
        },
    }
}

pub open spec fn field_pattern_texts(fields: Seq<(Seq<char>, Option<Seq<char>>)>) -> Seq<Seq<char>> {
    Seq::new(fields.len(), |i: int| field_pattern_text(fields[i]))
}

// ---------------------------------------------------------------------------
// The same, in code
// ---------------------------------------------------------------------------

fn fmt_inline(e: &Expr, parent: u8, is_right: bool, ind: usize, ml: bool) -> (r: String)
    ensures
        r@ == fx(e@, parent, is_right, ind, ml),
    decreases e, 3nat,
{
    let body = fmt_body(e, ind, ml);
    let p = expr_prec(e);
    let chained = match e {
        Expr::Binary { .. } | Expr::Pipe { .. } => true,
        _ => false,
    };
    if p < parent || (p == parent && is_right && chained) {
        let mut r = String::new();
        r.append("(");
        r.append(body.as_str());
        r.append(")");
        proof {
            assert(r@ =~= "("@ + body@ + ")"@);
        }
        r
    } else {
        body
    }
}

#[verifier::rlimit(60)]
#[verifier::spinoff_prover]
fn fmt_body(e: &Expr, ind: usize, ml: bool) -> (r: String)
    ensures
        r@ == fx_body(e@, ind, ml),
    decreases e, 2nat,
{
    proof {
        lemma_expr_views(*e);
    }
    let mut r = String::new();
    match e {
        Expr::Int(v) => {
            push_int(&mut r, *v);
            proof {
                assert(r@ =~= int_text(*v));
            }
        },
        Expr::Bool(b) => {
            if *b {
                r.append("true");
            } else {
                r.append("false");
            }
            proof {
                assert(r@ =~= fx_body(e@, ind, ml));
            }
        },
        Expr::Str(s) => {
            r.append("\"");
            push_esc_str(&mut r, s.as_str());
            r.append("\"");
            proof {
                assert(r@ =~= fx_body(e@, ind, ml));
            }
        },
        Expr::Bytes(b) => {
            r.append("b\"");
            push_esc_bytes(&mut r, b);
            r.append("\"");
            proof {
                assert(r@ =~= fx_body(e@, ind, ml));
            }
        },
        Expr::List(items) => {
            r = fmt_list(items, ind, ml);
        },
        Expr::RangeList { start, end } => {
            let a = fmt_inline(start, 0, false, 0, false);
            let b = fmt_inline(end, 0, false, 0, false);
            r.append("[");
            r.append(a.as_str());
            r.append("..");
            r.append(b.as_str());
            r.append("]");
            proof {
                assert(r@ =~= fx_body(e@, ind, ml));
            }
        },
        Expr::Dict(entries) => {
            if entries.len() == 0 {
                r.append("#{}");
            } else {
                r.append("#{ ");
                push_entries(&mut r, entries, ind, ml);
                r.append(" }");
            }
            proof {
                assert(r@ =~= fx_body(e@, ind, ml));
            }
        },
        Expr::Var(n) => {
            r = n.clone();
        },
        Expr::Construct { name, fields } => {
            r = fmt_construct(name, fields, ind, ml);
        },
        Expr::For { name, iter, guard, body } => {
            let it = fmt_inline(iter, 0, false, 0, false);
            r.append("for ");
            r.append(name.as_str());
            r.append(" in ");
            r.append(it.as_str());
            let ghost before_guard = r@;
            match guard {
                Some(g) => {
                    let gs = fmt_inline(g, 0, false, 0, false);
                    r.append(" if ");
                    r.append(gs.as_str());
                },
                None => {},
            }
            let ghost guard_text = match e@ {
                SExpr::For { guard, .. } => match guard {
                    Some(g) => " if "@ + fx(*g, 0, false, 0, false),
                    None => Seq::<char>::empty(),
                },
                _ => Seq::<char>::empty(),
            };
            proof {
                assert(r@ =~= before_guard + guard_text);
            }
            let bs = fmt_inline(body, 0, false, 0, false);
            r.append(" { ");
            r.append(bs.as_str());
            r.append(" }");
            proof {
                assert(r@ =~= fx_body(e@, ind, ml));
            }
        },
        Expr::Unary { op, expr } => {
            let inner = fmt_inline(expr, 8, false, ind, ml);
            r.append(unary_op_str(*op));
            r.append(inner.as_str());
            proof {
                assert(r@ =~= fx_body(e@, ind, ml));
            }
        },
        Expr::Binary { op, left, right } => {
            let p = expr_prec(e);
            let a = fmt_inline(left, p, false, ind, ml);
            let b = fmt_inline(right, p, true, ind, ml);
            r.append(a.as_str());
            r.append(" ");
            r.append(binary_op_str(*op));
            r.append(" ");
            r.append(b.as_str());
            proof {
                assert(r@ =~= fx_body(e@, ind, ml));
            }
        },
        Expr::If { cond, then_branch, else_branch } => {
            let c = fmt_inline(cond, 0, false, 0, false);
            let t = fmt_inline(then_branch, 0, false, 0, false);
            let f = fmt_inline(else_branch, 0, false, 0, false);
            r.append("if ");
            r.append(c.as_str());
            r.append(" { ");
            r.append(t.as_str());
            r.append(" } else { ");
            r.append(f.as_str());
            r.append(" }");
            proof {
                assert(r@ =~= fx_body(e@, ind, ml));
            }
        },
        Expr::Call { callee, args } => {
            r = fmt_call(callee, args, ind, ml);
        },
        Expr::Pipe { .. } => {
            r = fmt_pipe_inline(e, ind, ml);
        },
        Expr::Match { scrutinee, arms } => {
            let sc = fmt_inline(scrutinee, 0, false, 0, false);
            r.append("match ");
            r.append(sc.as_str());
            r.append(" { ");
            push_arms_inline(&mut r, arms);
            r.append(" }");
            proof {
                assert(r@ =~= fx_body(e@, ind, ml));
            }
        },
    }
    r
}

fn push_all(out: &mut String, items: &Vec<Expr>, ind: usize, ml: bool, lead: bool, sep: &str)
    ensures
        final(out)@ == old(out)@ + join_sep(fx_all(exprs_view(items@), ind, ml, lead), sep@),
    decreases items, 0nat,
{
    let ghost start = out@;
    let ghost pieces = fx_all(exprs_view(items@), ind, ml, lead);
    let mut i: usize = 0;
    while i < items.len()
        invariant
            i <= items.len(),
            pieces == fx_all(exprs_view(items@), ind, ml, lead),
            out@ == start + join_sep(pieces.take(i as int), sep@),
        decreases items.len() - i,
    {
        let ghost before = out@;
        if i > 0 {
            out.append(sep);
        }
        if lead {
            push_indent(out, ind);
        }
        let s = fmt_inline(&items[i], 0, false, ind, ml);
        out.append(s.as_str());
        proof {
            lemma_join_step(pieces, sep@, i as int);
            assert(pieces[i as int] == (if lead {
                indent_text(ind as nat)
            } else {
                Seq::<char>::empty()
            }) + s@);
            assert(out@ =~= start + join_sep(pieces.take(i + 1), sep@));
        }
        i = i + 1;
    }
    proof {
        assert(pieces.take(items.len() as int) =~= pieces);
    }
}

fn push_entries(out: &mut String, entries: &Vec<(Expr, Expr)>, ind: usize, ml: bool)
    ensures
        final(out)@ == old(out)@ + join_sep(fx_entries(entries_view(entries@), ind, ml), ", "@),
    decreases entries, 0nat,
{
    let ghost start = out@;
    let ghost pieces = fx_entries(entries_view(entries@), ind, ml);
    let mut i: usize = 0;
    while i < entries.len()
        invariant
            i <= entries.len(),
            pieces == fx_entries(entries_view(entries@), ind, ml),
            out@ == start + join_sep(pieces.take(i as int), ", "@),
        decreases entries.len() - i,
    {
        if i > 0 {
            out.append(", ");
        }
        let k = fmt_inline(&entries[i].0, 0, false, ind, ml);
        let v = fmt_inline(&entries[i].1, 0, false, ind, ml);
        out.append(k.as_str());
        out.append(": ");
        out.append(v.as_str());
        proof {
            lemma_join_step(pieces, ", "@, i as int);
            assert(pieces[i as int] == k@ + ": "@ + v@);
            assert(out@ =~= start + join_sep(pieces.take(i + 1), ", "@));
        }
        i = i + 1;
    }
    proof {
        assert(pieces.take(entries.len() as int) =~= pieces);
    }
}

fn fmt_field(name: &String, value: &Expr, ind: usize, ml: bool) -> (t: String)
    ensures
        t@ == field_text(name@, value@, ind, ml),
    decreases value, 4nat,
{
    let same = match value {
        Expr::Var(v) => *v == *name,
        _ => false,
    };
    let mut t = String::new();
    t.append(name.as_str());
    if !same {
        let v = fmt_inline(value, 0, false, ind, ml);
        t.append(": ");
        t.append(v.as_str());
    }
    proof {
        assert(same == (value@ == SExpr::Var(name@)));
        assert(t@ =~= field_text(name@, value@, ind, ml));
    }
    t
}

fn push_fields(
    out: &mut String,
    fields: &Vec<(String, Expr)>,
    ind: usize,
    ml: bool,
    lead: bool,
    sep: &str,
)
    ensures
        final(out)@ == old(out)@ + join_sep(fx_fields(fields_view(fields@), ind, ml, lead), sep@),
    decreases fields, 0nat,
{
    let ghost start = out@;
    let ghost fv = fields_view(fields@);
    let ghost pieces = fx_fields(fv, ind, ml, lead);
    let mut i: usize = 0;
    while i < fields.len()
        invariant
            i <= fields.len(),
            fv == fields_view(fields@),
            pieces == fx_fields(fv, ind, ml, lead),
            out@ == start + join_sep(pieces.take(i as int), sep@),
        decreases fields.len() - i,
    {
        if i > 0 {
            out.append(sep);
        }
        if lead {
            push_indent(out, ind);
        }
        let t = fmt_field(&fields[i].0, &fields[i].1, ind, ml);
        out.append(t.as_str());
        proof {
            lemma_join_step(pieces, sep@, i as int);
            assert(pieces[i as int] == (if lead {
                indent_text(ind as nat)
            } else {
                Seq::<char>::empty()
            }) + t@);
            assert(out@ =~= start + join_sep(pieces.take(i + 1), sep@));
        }
        i = i + 1;
    }
    proof {
        assert(pieces.take(fields.len() as int) =~= pieces);
    }
}

fn fmt_list(items: &Vec<Expr>, ind: usize, ml: bool) -> (r: String)
    ensures
        r@ == fx_body(SExpr::List(exprs_view(items@)), ind, ml),
    decreases items, 1nat,
{
    let ghost xs = exprs_view(items@);
    let mut r = String::new();
    if items.len() == 0 {
        r.append("[]");
        proof {
            assert(r@ =~= "[]"@);
        }
        return r;
    }
    let breaks = if !ml {
        false
    } else if items.len() > MAX_LIST_INLINE_ITEMS {
        true
    } else {
        let mut t = String::new();
        t.append("[");
        push_all(&mut t, items, 0, false, false, ", ");
        t.append("]");
        proof {
            assert(t@ =~= "["@ + join_sep(fx_all(xs, 0, false, false), ", "@) + "]"@);
        }
        text_width(t.as_str()) > MAX_LIST_INLINE_WIDTH
    };
    if !breaks {
        r.append("[");
        push_all(&mut r, items, ind, false, false, ", ");
        r.append("]");
        proof {
            assert(r@ =~= "["@ + join_sep(fx_all(xs, ind, false, false), ", "@) + "]"@);
        }
    } else {
        let next = next_level(ind);
        r.append("[\n");
        push_all(&mut r, items, next, true, true, ",\n");
        r.append("\n");
        push_indent(&mut r, ind);
        r.append("]");
        proof {
            assert(r@ =~= "[\n"@ + join_sep(fx_all(xs, inc(ind), true, true), ",\n"@) + "\n"@
                + indent_text(ind as nat) + "]"@);
        }
    }
    r
}

fn fmt_call(callee: &String, args: &Vec<Expr>, ind: usize, ml: bool) -> (r: String)
    ensures
        r@ == fx_body(SExpr::Call { callee: callee@, args: exprs_view(args@) }, ind, ml),
    decreases args, 1nat,
{
    let ghost xs = exprs_view(args@);
    let mut r = String::new();
    r.append(callee.as_str());
    if args.len() == 0 {
        r.append("()");
        proof {
            assert(r@ =~= callee@ + "()"@);
        }
        return r;
    }
    let mut inline = String::new();
    inline.append(callee.as_str());
    inline.append("(");
    push_all(&mut inline, args, ind, false, false, ", ");
    inline.append(")");
    proof {
        assert(inline@ =~= callee@ + "("@ + join_sep(fx_all(xs, ind, false, false), ", "@) + ")"@);
    }
    if !ml || !(args.len() > MAX_CALL_INLINE_ITEMS || text_width(inline.as_str()) > MAX_CALL_INLINE_WIDTH) {
        return inline;
    }
    let next = next_level(ind);
    r.append("(\n");
    push_all(&mut r, args, next, true, true, ",\n");
    r.append("\n");
    push_indent(&mut r, ind);
    r.append(")");
    proof {
        assert(r@ =~= callee@ + "(\n"@ + join_sep(fx_all(xs, inc(ind), true, true), ",\n"@) + "\n"@
            + indent_text(ind as nat) + ")"@);
    }
    r
}

fn fmt_construct_inline(name: &String, fields: &Vec<(String, Expr)>, ind: usize, ml: bool) -> (r: String)
    ensures
        r@ == construct_inline(name@, fields_view(fields@), ind, ml),
    decreases fields, 1nat,
{
    let mut r = String::new();
    r.append(name.as_str());
    r.append(" { ");
    push_fields(&mut r, fields, ind, ml, false, ", ");
    r.append(" }");
    proof {
        assert(r@ =~= construct_inline(name@, fields_view(fields@), ind, ml));
    }
    r
}

#[verifier::spinoff_prover]
fn construct_breaks_code(name: &String, fields: &Vec<(String, Expr)>, ind: usize) -> (r: bool)
    ensures
        r == construct_breaks(name@, fields_view(fields@), ind),
    decreases fields, 2nat,
{
    let ghost fv = fields_view(fields@);
    let ghost vals = fx_values(fv, ind);
    if fields.len() > 1 {
        let mut i: usize = 0;
        while i < fields.len()
            invariant
                i <= fields.len(),
                fields.len() > 1,
                fv == fields_view(fields@),
                vals == fx_values(fv, ind),
                forall|j: int|
                    0 <= j < i ==> !(vals[j].contains('\n') || !is_simple(fv[j].1)),
            decreases fields.len() - i,
        {
            let s = fmt_inline(&fields[i].1, 0, false, ind, true);
            proof {
                assert(vals[i as int] == s@);
                assert(fv[i as int].1 == fields@[i as int].1@);
            }
            if has_char(s.as_str(), '\n') || !expr_is_simple(&fields[i].1) {
                proof {
                    assert(fx_values(fv, ind)[i as int].contains('\n') || !is_simple(fv[i as int].1));
                    assert(some_value_breaks(fv, vals));
                }
                return true;
            }
            proof {
                assert(!(vals[i as int].contains('\n') || !is_simple(fv[i as int].1)));
            }
            i = i + 1;
        }
    }
    let inline = fmt_construct_inline(name, fields, ind, false);
    text_width(inline.as_str()) > MAX_CONSTRUCT_INLINE_WIDTH
}

fn fmt_construct(name: &String, fields: &Vec<(String, Expr)>, ind: usize, ml: bool) -> (r: String)
    ensures
        r@ == fx_body(SExpr::Construct { name: name@, fields: fields_view(fields@) }, ind, ml),
    decreases fields, 3nat,
{
    let ghost fv = fields_view(fields@);
    if fields.len() == 0 {
        let mut r = String::new();
        r.append(name.as_str());
        r.append(" {}");
        proof {
            assert(r@ =~= name@ + " {}"@);
        }
        return r;
    }
    if ml && construct_breaks_code(name, fields, ind) {
        let next = next_level(ind);
        let mut r = String::new();
        r.append(name.as_str());
        r.append(" {\n");
        push_fields(&mut r, fields, next, true, true, ",\n");
        r.append("\n");
        push_indent(&mut r, ind);
        r.append("}");
        proof {
            assert(r@ =~= name@ + " {\n"@ + join_sep(fx_fields(fv, inc(ind), true, true), ",\n"@) + "\n"@
                + indent_text(ind as nat) + "}"@);
        }
        r
    } else {
        fmt_construct_inline(name, fields, ind, ml)
    }
}

fn fmt_pipe_inline(e: &Expr, ind: usize, ml: bool) -> (r: String)
    ensures
        r@ == fx_pipe(e@, ind, ml),
    decreases e, 1nat,
{
    proof {
        lemma_expr_views(*e);
    }
    match e {
        Expr::Pipe { input, target } => {
            let is_pipe = match &**input {
                Expr::Pipe { .. } => true,
                _ => false,
            };
            proof {
                assert(is_pipe == ((**input)@ is Pipe));
            }
            let mut r = if is_pipe {
                fmt_pipe_inline(input, ind, ml)
            } else {
                fmt_inline(input, 1, false, ind, ml)
            };
            let t = fmt_target(target, ind, ml);
            r.append(" |> ");
            r.append(t.as_str());
            r
        },
        _ => String::new(),
    }
}

fn fmt_target(t: &PipeTarget, ind: usize, ml: bool) -> (r: String)
    ensures
        r@ == fx_target(t@, ind, ml),
    decreases t, 0nat,
{
    match t {
        PipeTarget::Ident(n) => n.clone(),
        PipeTarget::Call { name, args } => {
            let mut r = String::new();
            r.append(name.as_str());
            r.append("(");
            push_all(&mut r, args, ind, ml, false, ", ");
            r.append(")");
            proof {
                assert(exprs_view(args@) =~= Seq::new(args@.len(), |i: int| args@[i]@));
                assert(r@ =~= fx_target(t@, ind, ml));
            }
            r
        },
    }
}

#[verifier::spinoff_prover]
#[verifier::rlimit(30)]
fn push_arms_inline(out: &mut String, arms: &Vec<MatchArm>)
    ensures
        final(out)@ == old(out)@ + join_sep(fx_arms(arms_view(arms@)), " "@),
    decreases arms, 0nat,
{
    let ghost start = out@;
    let ghost pieces = fx_arms(arms_view(arms@));
    let mut i: usize = 0;
    while i < arms.len()
        invariant
            i <= arms.len(),
            pieces == fx_arms(arms_view(arms@)),
            out@ == start + join_sep(pieces.take(i as int), " "@),
        decreases arms.len() - i,
    {
        if i > 0 {
            out.append(" ");
        }
        let p = fmt_pattern(&arms[i].pattern);
        let b = fmt_inline(&arms[i].body, 0, false, 0, false);
        out.append(p.as_str());
        out.append(" => ");
        out.append(b.as_str());
        out.append(";");
        proof {
            lemma_join_step(pieces, " "@, i as int);
            assert(pieces[i as int] == p@ + " => "@ + b@ + ";"@);
            assert(out@ =~= start + join_sep(pieces.take(i + 1), " "@));
        }
        i = i + 1;
    }
    proof {
        assert(pieces.take(arms.len() as int) =~= pieces);
    }
}

fn fmt_field_pattern(f: &FieldPattern) -> (r: String)
    ensures
        r@ == field_pattern_text(f@),
{
    let mut r = String::new();
    r.append(f.field.as_str());
    match &f.bind {
        None => {
            r.append(": _");
        },
        Some(b) => {
            if *b != f.field {
                r.append(": ");
                r.append(b.as_str());
            }
        },
    }
    proof {
        assert(r@ =~= field_pattern_text(f@));
    }
    r
}

fn fmt_pattern(p: &MatchPattern) -> (r: String)
    ensures
        r@ == fx_pattern(p@),
    decreases p, 0nat,
{
    let mut r = String::new();
    match p {
        MatchPattern::Wildcard => {
            r.append("_");
            proof {
                assert(r@ =~= "_"@);
            }
        },
        MatchPattern::Expr(x) => {
            r = fmt_inline(x, 0, false, 0, false);
        },
        MatchPattern::Compare { op, expr } => {
            let x = fmt_inline(expr, 0, false, 0, false);
            r.append(binary_op_str(*op));
            r.append(" ");
            r.append(x.as_str());
            proof {
                assert(r@ =~= fx_pattern(p@));
            }
        },
        MatchPattern::Variant { name, fields } => {
            r.append(name.as_str());
            let ghost fv = Seq::new(fields@.len(), |j: int| fields@[j]@);
            let ghost pieces = field_pattern_texts(fv);
            if fields.len() > 0 {
                r.append(" { ");
                let ghost start = r@;
                let mut i: usize = 0;
                while i < fields.len()
                    invariant
                        i <= fields.len(),
                        fv == Seq::new(fields@.len(), |j: int| fields@[j]@),
                        pieces == field_pattern_texts(fv),
                        r@ == start + join_sep(pieces.take(i as int), ", "@),
                    decreases fields.len() - i,
                {
                    if i > 0 {
                        r.append(", ");
                    }
                    let t = fmt_field_pattern(&fields[i]);
                    r.append(t.as_str());
                    proof {
                        lemma_join_step(pieces, ", "@, i as int);
                        assert(r@ =~= start + join_sep(pieces.take(i + 1), ", "@));
                    }
                    i = i + 1;
                }
                r.append(" }");
                proof {
                    assert(pieces.take(fields.len() as int) =~= pieces);
                }
            }
            proof {
                assert(r@ =~= fx_pattern(p@));
            }
        },
    }
    r
}

// ---------------------------------------------------------------------------
// Comments and statements
// ---------------------------------------------------------------------------

/// A line comment of the source: its indentation level, its text after
/// `//` (trimmed) and the line it stands on.
#[derive(Debug)]
pub struct Comment {
    pub indent: usize,
    pub text: String,
    pub line: usize,
}

pub ghost struct SComment {
    pub indent: usize,
    pub text: Seq<char>,
    pub line: usize,
}

impl View for Comment {
    type V = SComment;

    open spec fn view(&self) -> SComment {
        SComment { indent: self.indent, text: self.text@, line: self.line }
    }
}

pub open spec fn comments_view(v: Seq<Comment>) -> Seq<SComment> {
    Seq::new(v.len(), |i: int| v[i]@)
}

pub open spec fn buckets_view(v: Seq<Vec<Comment>>) -> Seq<Seq<SComment>> {
    Seq::new(v.len(), |i: int| comments_view(v[i]@))
}

/// A comment on a line of its own: `//`, a space and the text (no space
/// when the text is empty), indented to its level.
pub open spec fn comment_text(c: SComment) -> Seq<char> {
    indent_text(c.indent as nat) + "//"@ + (if c.text.len() == 0 {
        Seq::empty()
    } else {
        " "@ + c.text
    }) + "\n"@
}

/// Comments one after the other.
pub open spec fn comments_text(cs: Seq<SComment>) -> Seq<char>
    decreases cs.len(),
{
    if cs.len() == 0 {
        Seq::empty()
    } else {
        comments_text(cs.drop_last()) + comment_text(cs.last())
    }
}

/// All comments from `idx` on.
pub open spec fn rest_text(cs: Seq<SComment>, idx: nat) -> Seq<char>
    decreases cs.len() - idx,
{
    if idx < cs.len() {
        comment_text(cs[idx as int]) + rest_text(cs, idx + 1)
    } else {
        Seq::empty()
    }
}

/// The comments from `idx` on that stand at level `ind`, up to the first
/// that does not; and the position after them.
pub open spec fn emit_cs(cs: Seq<SComment>, idx: nat, ind: usize) -> (Seq<char>, nat)
    decreases cs.len() - idx,
{
    if idx < cs.len() && cs[idx as int].indent == ind {
        let r = emit_cs(cs, idx + 1, ind);
        (comment_text(cs[idx as int]) + r.0, r.1)
    } else {
        (Seq::empty(), idx)
    }
}

pub proof fn lemma_emit_bounds(cs: Seq<SComment>, idx: nat, ind: usize)
    requires
        idx <= cs.len(),
    ensures
        idx <= emit_cs(cs, idx, ind).1 <= cs.len(),
    decreases cs.len() - idx,
{
    if idx < cs.len() && cs[idx as int].indent == ind {
        lemma_emit_bounds(cs, idx + 1, ind);
    }
}

/// A pipe chain as a statement: its first input on the current line, then
/// each target on a line of its own one level deeper, after `|> `.
pub open spec fn st_pipe(e: SExpr, ind: usize) -> Seq<char>
    decreases e,
{
    match e {
        SExpr::Pipe { input, target } => (if *input is Pipe {
            st_pipe(*input, ind)
        } else {
            indent_text(ind as nat) + fx(*input, 0, false, ind, true)
        }) + "\n"@ + indent_text(inc(ind) as nat) + "|> "@ + fx_target(target, inc(ind), true),
        _ => Seq::empty(),
    }
}

/// An expression as a statement at level `ind`, after the comments that
/// stand at that level; with the position in `cs` after the comments it
/// printed.
pub open spec fn st_expr(cs: Seq<SComment>, e: SExpr, ind: usize, idx: nat) -> (Seq<char>, nat)
    decreases e, 3nat,
{
    let c = emit_cs(cs, idx, ind);
    let r = match e {
        SExpr::Match { .. } => st_match(cs, e, ind, c.1),
        SExpr::If { .. } => st_if(cs, e, ind, c.1),
        SExpr::For { .. } => st_for(cs, e, ind, c.1),
        SExpr::Pipe { .. } => (st_pipe(e, ind), c.1),
        _ => (indent_text(ind as nat) + fx(e, 0, false, ind, true), c.1),
    };
    (c.0 + r.0, r.1)
}

/// `if` as a statement: each branch on its own lines one level deeper.
pub open spec fn st_if(cs: Seq<SComment>, e: SExpr, ind: usize, idx: nat) -> (Seq<char>, nat)
    decreases e, 2nat,
{
    match e {
        SExpr::If { cond, then_branch, else_branch } => {
            let i1 = inc(ind);
            let a = emit_cs(cs, idx, i1);
            let b = st_expr(cs, *then_branch, i1, a.1);
            let c = emit_cs(cs, b.1, i1);
            let d = st_expr(cs, *else_branch, i1, c.1);
            let f = emit_cs(cs, d.1, i1);
            (indent_text(ind as nat) + "if "@ + flat(*cond) + " {"@ + "\n"@ + a.0 + b.0 + "\n"@
                + indent_text(ind as nat) + "} else {"@ + "\n"@ + c.0 + d.0 + "\n"@ + f.0
                + indent_text(ind as nat) + "}"@, f.1)
        },
        _ => (Seq::empty(), idx),
    }
}

/// `for` as a statement: its body on its own lines one level deeper.
pub open spec fn st_for(cs: Seq<SComment>, e: SExpr, ind: usize, idx: nat) -> (Seq<char>, nat)
    decreases e, 2nat,
{
    match e {
        SExpr::For { name, iter, guard, body } => {
            let i1 = inc(ind);
            let a = emit_cs(cs, idx, i1);
            let b = st_expr(cs, *body, i1, a.1);
            let f = emit_cs(cs, b.1, i1);
            (indent_text(ind as nat) + "for "@ + name + " in "@ + flat(*iter) + match guard {
                Some(g) => " if "@ + flat(*g),
                None => Seq::empty(),
            } + " {"@ + "\n"@ + a.0 + b.0 + "\n"@ + f.0 + indent_text(ind as nat) + "}"@, f.1)
        },
        _ => (Seq::empty(), idx),
    }
}

/// `match` as a statement: one arm after the other, one level deeper.
pub open spec fn st_match(cs: Seq<SComment>, e: SExpr, ind: usize, idx: nat) -> (Seq<char>, nat)
    decreases e, 2nat,
{
    match e {
        SExpr::Match { scrutinee, arms } => {
            let i1 = inc(ind);
            let a = emit_cs(cs, idx, i1);
            let r = st_arms(cs, arms, i1, a.1);
            let c = emit_cs(cs, r.1, i1);
            (indent_text(ind as nat) + "match "@ + flat(*scrutinee) + " {"@ + "\n"@ + a.0 + r.0 + c.0
                + indent_text(ind as nat) + "}"@, c.1)
        },
        _ => (Seq::empty(), idx),
    }
}

/// The arms of a match statement, in order.
pub open spec fn st_arms(cs: Seq<SComment>, arms: Seq<SArm>, ind: usize, idx: nat) -> (Seq<char>, nat)
    decreases arms, 1nat,
{
    if arms.len() == 0 {
        (Seq::empty(), idx)
    } else {
        let p = st_arms(cs, arms.subrange(0, arms.len() - 1), ind, idx);
        let q = st_arm(cs, arms[arms.len() - 1], ind, p.1);
        (p.0 + q.0, q.1)
    }
}

/// One arm: on one line where it fits in the line width and its body is
/// no block; else its body as a statement one level deeper.
pub open spec fn st_arm(cs: Seq<SComment>, arm: SArm, ind: usize, idx: nat) -> (Seq<char>, nat)
    decreases arm, 0nat,
{
    let pat = fx_pattern(arm.pattern);
    let inline = fx(arm.body, 0, false, ind, true);
    let line_len = ind * 2 + width(pat) + 4 + width(inline) + 1;
    if is_block(arm.body) || inline.contains('\n') || line_len > MAX_INLINE_WIDTH {
        let a = emit_cs(cs, idx, inc(ind));
        let b = st_expr(cs, arm.body, inc(ind), a.1);
        (indent_text(ind as nat) + pat + " =>"@ + "\n"@ + a.0 + b.0 + ";"@ + "\n"@, b.1)
    } else {
        (indent_text(ind as nat) + pat + " =>"@ + " "@ + inline + ";"@ + "\n"@, idx)
    }
}

/// A text cut at each `\n` (the pieces between them, the last one possibly
/// empty).
pub open spec fn split_nl(s: Seq<char>) -> Seq<Seq<char>>
    decreases s.len(),
{
    if s.len() == 0 {
        seq![Seq::empty()]
    } else {
        let r = split_nl(s.drop_last());
        if s.last() == '\n' {
            r.push(Seq::empty())
        } else {
            r.update(r.len() - 1, r.last().push(s.last()))
        }
    }
}

pub proof fn lemma_split_len(s: Seq<char>)
    ensures
        1 <= split_nl(s).len() <= s.len() + 1,
    decreases s.len(),
{
    if s.len() > 0 {
        lemma_split_len(s.drop_last());
    }
}

/// The lines of a text, as `str::lines` gives them up to a `\r` at their
/// end: no last line after a final `\n`.
pub open spec fn text_lines(s: Seq<char>) -> Seq<Seq<char>> {
    let p = split_nl(s);
    if p.last().len() == 0 {
        p.drop_last()
    } else {
        p
    }
}

/// Lines each trimmed, indented to `ind` and ended.
pub open spec fn line_block(lines: Seq<Seq<char>>, ind: usize) -> Seq<char>
    decreases lines.len(),
{
    if lines.len() == 0 {
        Seq::empty()
    } else {
        line_block(lines.drop_last(), ind) + indent_text(ind as nat) + utrim(lines.last()) + "\n"@
    }
}

/// A data variant: its name, then its fields in braces if it has any.
pub open spec fn variant_text(v: (Seq<char>, Seq<Seq<char>>)) -> Seq<char> {
    if v.1.len() == 0 {
        v.0
    } else {
        v.0 + " { "@ + join_sep(v.1, ", "@) + " }"@
    }
}

pub open spec fn variant_texts(vs: Seq<(Seq<char>, Seq<Seq<char>>)>) -> Seq<Seq<char>> {
    Seq::new(vs.len(), |i: int| variant_text(vs[i]))
}

/// A top-level item at level `ind`.
pub open spec fn st_item(cs: Seq<SComment>, item: SItem, ind: usize, idx: nat) -> (Seq<char>, nat) {
    let lead = indent_text(ind as nat);
    match item {
        SItem::Data { name, variants } => (lead + "data "@ + name + " = "@ + join_sep(
            variant_texts(variants),
            " | "@,
        ) + ";"@ + "\n"@, idx),
        SItem::ExternFn { name, params, explain } => {
            let ps = join_sep(params, ", "@);
            if explain.contains('\n') {
                (lead + "extern fn "@ + name + "("@ + ps + ") explain {"@ + "\n"@ + line_block(
                    text_lines(explain),
                    inc(ind),
                ) + lead + "};"@ + "\n"@, idx)
            } else {
                (lead + "extern fn "@ + name + "("@ + ps + ") explain { "@ + utrim(explain) + " };"@
                    + "\n"@, idx)
            }
        },
        SItem::Fn { name, params, body } => {
            let ps = join_sep(params, ", "@);
            if is_block(body) {
                let b = st_expr(cs, body, inc(ind), idx);
                (lead + "fn "@ + name + "("@ + ps + ") ="@ + "\n"@ + b.0 + ";"@ + "\n"@, b.1)
            } else {
                let x = fx(body, 0, false, inc(ind), true);
                let line_len = ind * 2 + 3 + width(name) + 2 + width(ps) + 4 + width(x) + 1;
                if x.contains('\n') || line_len > MAX_INLINE_WIDTH {
                    (lead + "fn "@ + name + "("@ + ps + ") ="@ + "\n"@ + indent_text(inc(ind) as nat) + x
                        + ";"@ + "\n"@, idx)
                } else {
                    (lead + "fn "@ + name + "("@ + ps + ") = "@ + x + ";"@ + "\n"@, idx)
                }
            }
        },
        SItem::Let { name, expr } => {
            if is_block(expr) {
                let b = st_expr(cs, expr, inc(ind), idx);
                (lead + "let "@ + name + " ="@ + "\n"@ + b.0 + ";"@ + "\n"@, b.1)
            } else {
                let x = fx(expr, 0, false, inc(ind), true);
                let line_len = ind * 2 + 4 + width(name) + 3 + width(x) + 1;
                if x.contains('\n') || line_len > MAX_INLINE_WIDTH {
                    (lead + "let "@ + name + " ="@ + "\n"@ + indent_text(inc(ind) as nat) + x + ";"@
                        + "\n"@, idx)
                } else {
                    (lead + "let "@ + name + " = "@ + x + ";"@ + "\n"@, idx)
                }
            }
        },
    }
}

/// The kind of an item: data, extern function, function or binding.
pub open spec fn item_kind(item: SItem) -> u8 {
    match item {
        SItem::Data { .. } => 0,
        SItem::ExternFn { .. } => 1,
        SItem::Fn { .. } => 2,
        SItem::Let { .. } => 3,
    }
}

/// Whether an item takes several lines.
pub open spec fn item_multiline(item: SItem) -> bool {
    match item {
        SItem::Data { .. } => false,
        SItem::ExternFn { explain, .. } => explain.contains('\n'),
        SItem::Fn { body, .. } => is_block(body) || fx(body, 0, false, 0, true).contains('\n'),
        SItem::Let { expr, .. } => is_block(expr) || fx(expr, 0, false, 0, true).contains('\n'),
    }
}

/// The comments that go before item `i` (or, at the number of items, before
/// the final expression).
pub open spec fn item_cs_text(ics: Seq<Seq<SComment>>, i: int) -> Seq<char> {
    if 0 <= i < ics.len() {
        comments_text(ics[i])
    } else {
        Seq::empty()
    }
}

/// The items one after the other; an empty line goes before an item whose
/// kind differs from the one before, that takes several lines, or that has
/// comments before it.
pub open spec fn st_items(cs: Seq<SComment>, ics: Seq<Seq<SComment>>, items: Seq<SItem>, idx: nat) -> (
    Seq<char>,
    nat,
)
    decreases items.len(),
{
    if items.len() == 0 {
        (Seq::empty(), idx)
    } else {
        let i = items.len() - 1;
        let p = st_items(cs, ics, items.drop_last(), idx);
        let gap = i > 0 && (item_kind(items[i]) != item_kind(items[i - 1]) || item_multiline(items[i])
            || (i < ics.len() && ics[i].len() > 0));
        let q = st_item(cs, items[i], 0, p.1);
        (p.0 + (if gap {
            "\n"@
        } else {
            Seq::empty()
        }) + item_cs_text(ics, i) + q.0, q.1)
    }
}

/// A program, with the comments `cs` placed inside its statements and the
/// comments `ics[i]` before item `i`; and how many of `cs` it printed.
pub open spec fn st_program(cs: Seq<SComment>, ics: Seq<Seq<SComment>>, p: SProgram) -> (Seq<char>, nat) {
    let a = st_items(cs, ics, p.items, 0);
    match p.expr {
        Some(e) => {
            let b = st_expr(cs, e, 0, a.1);
            let c = emit_cs(cs, b.1, 0);
            (a.0 + (if p.items.len() > 0 {
                "\n"@
            } else {
                Seq::empty()
            }) + item_cs_text(ics, p.items.len() as int) + b.0 + "\n"@ + c.0, c.1)
        },
        None => {
            let c = emit_cs(cs, a.1, 0);
            ((if a.0.len() > 0 && a.0.last() == '\n' {
                a.0
            } else {
                a.0 + "\n"@
            }) + c.0, c.1)
        },
    }
}

// ---------------------------------------------------------------------------
// Statements in code
// ---------------------------------------------------------------------------

fn push_comment(out: &mut String, c: &Comment)
    ensures
        final(out)@ == old(out)@ + comment_text(c@),
{
    let ghost start = out@;
    push_indent(out, c.indent);
    out.append("//");
    if !c.text.as_str().is_empty() {
        out.append(" ");
        out.append(c.text.as_str());
    }
    out.append("\n");
    proof {
        assert(out@ =~= start + comment_text(c@));
    }
}

fn push_pipe_stmt(out: &mut String, e: &Expr, ind: usize)
    ensures
        final(out)@ == old(out)@ + st_pipe(e@, ind),
    decreases e,
{
    proof {
        lemma_expr_views(*e);
    }
    let ghost start = out@;
    match e {
        Expr::Pipe { input, target } => {
            let is_pipe = match &**input {
                Expr::Pipe { .. } => true,
                _ => false,
            };
            proof {
                assert(is_pipe == ((**input)@ is Pipe));
            }
            if is_pipe {
                push_pipe_stmt(out, input, ind);
            } else {
                push_indent(out, ind);
                let b = fmt_inline(input, 0, false, ind, true);
                out.append(b.as_str());
            }
            let ghost mid = out@;
            let next = next_level(ind);
            let t = fmt_target(target, next, true);
            out.append("\n");
            push_indent(out, next);
            out.append("|> ");
            out.append(t.as_str());
            proof {
                assert(out@ =~= mid + "\n"@ + indent_text(inc(ind) as nat) + "|> "@ + t@);
                assert(out@ =~= start + st_pipe(e@, ind));
            }
        },
        _ => {
            proof {
                assert(out@ =~= start + st_pipe(e@, ind));
            }
        },
    }
}

fn join_names(names: &Vec<String>) -> (r: String)
    ensures
        r@ == join_sep(names_view(names@), ", "@),
{
    let ghost pieces = names_view(names@);
    let mut r = String::new();
    let mut i: usize = 0;
    while i < names.len()
        invariant
            i <= names.len(),
            pieces == names_view(names@),
            r@ == join_sep(pieces.take(i as int), ", "@),
        decreases names.len() - i,
    {
        if i > 0 {
            r.append(", ");
        }
        r.append(names[i].as_str());
        proof {
            lemma_join_step(pieces, ", "@, i as int);
            assert(r@ =~= join_sep(pieces.take(i + 1), ", "@));
        }
        i = i + 1;
    }
    proof {
        assert(pieces.take(names.len() as int) =~= pieces);
    }
    r
}

struct Formatter {
    out: String,
    indent: usize,
    comments: Vec<Comment>,
    comment_idx: usize,
    item_comments: Vec<Vec<Comment>>,
    item_index: usize,
}

impl Formatter {
    fn new() -> (f: Formatter)
        ensures
            f.out@ == Seq::<char>::empty(),
            f.indent == 0,
            f.comments@.len() == 0,
            f.comment_idx == 0,
            f.item_comments@.len() == 0,
            f.item_index == 0,
    {
        Formatter {
            out: String::new(),
            indent: 0,
            comments: Vec::new(),
            comment_idx: 0,
            item_comments: Vec::new(),
            item_index: 0,
        }
    }

    fn with_comments(comments: Vec<Comment>, item_comments: Vec<Vec<Comment>>) -> (f: Formatter)
        ensures
            f.out@ == Seq::<char>::empty(),
            f.indent == 0,
            f.comments == comments,
            f.comment_idx == 0,
            f.item_comments == item_comments,
            f.item_index == 0,
    {
        Formatter { out: String::new(), indent: 0, comments, comment_idx: 0, item_comments, item_index: 0 }
    }

    spec fn cs(&self) -> Seq<SComment> {
        comments_view(self.comments@)
    }

    spec fn wf(&self) -> bool {
        self.comment_idx <= self.comments@.len()
    }

    /// Everything but the output and the comment position is as in `o`.
    spec fn frame(&self, o: Formatter) -> bool {
        &&& self.indent == o.indent
        &&& self.comments == o.comments
        &&& self.item_comments == o.item_comments
        &&& self.item_index == o.item_index
    }

    fn emit_comments(&mut self, ind: usize)
        requires
            old(self).wf(),
        ensures
            final(self).wf(),
            final(self).frame(*old(self)),
            final(self).out@ == old(self).out@ + emit_cs(
                old(self).cs(),
                old(self).comment_idx as nat,
                ind,
            ).0,
            final(self).comment_idx == emit_cs(old(self).cs(), old(self).comment_idx as nat, ind).1,
    {
        let ghost f0 = *self;
        let ghost cs = self.cs();
        let ghost goal = emit_cs(cs, self.comment_idx as nat, ind);
        while self.comment_idx < self.comments.len() && self.comments[self.comment_idx].indent == ind
            invariant
                self.wf(),
                self.frame(f0),
                cs == self.cs(),
                f0.out@ + goal.0 == self.out@ + emit_cs(cs, self.comment_idx as nat, ind).0,
                goal.1 == emit_cs(cs, self.comment_idx as nat, ind).1,
            decreases self.comments.len() - self.comment_idx,
        {
            let ghost before = self.out@;
            push_comment(&mut self.out, &self.comments[self.comment_idx]);
            proof {
                let i = self.comment_idx as nat;
                assert(cs[i as int] == self.comments@[i as int]@);
                let r = emit_cs(cs, i + 1, ind);
                assert(emit_cs(cs, i, ind) == (comment_text(cs[i as int]) + r.0, r.1));
                assert(before + (comment_text(cs[i as int]) + r.0) =~= self.out@ + r.0);
            }
            self.comment_idx = self.comment_idx + 1;
        }
    }

    fn emit_remaining_comments(&mut self)
        requires
            old(self).wf(),
        ensures
            final(self).wf(),
            final(self).frame(*old(self)),
            final(self).out@ == old(self).out@ + rest_text(old(self).cs(), old(self).comment_idx as nat),
    {
        let ghost f0 = *self;
        let ghost cs = self.cs();
        let ghost goal = rest_text(cs, self.comment_idx as nat);
        while self.comment_idx < self.comments.len()
            invariant
                self.wf(),
                self.frame(f0),
                cs == self.cs(),
                f0.out@ + goal == self.out@ + rest_text(cs, self.comment_idx as nat),
            decreases self.comments.len() - self.comment_idx,
        {
            let ghost before = self.out@;
            push_comment(&mut self.out, &self.comments[self.comment_idx]);
            proof {
                let i = self.comment_idx as nat;
                assert(cs[i as int] == self.comments@[i as int]@);
                let r = rest_text(cs, i + 1);
                assert(rest_text(cs, i) == comment_text(cs[i as int]) + r);
                assert(before + (comment_text(cs[i as int]) + r) =~= self.out@ + r);
            }
            self.comment_idx = self.comment_idx + 1;
        }
        proof {
            assert(self.out@ + rest_text(cs, self.comment_idx as nat) =~= self.out@);
        }
    }

    fn emit_item_comments(&mut self)
        requires
            old(self).wf(),
        ensures
            final(self).wf(),
            final(self).frame(*old(self)),
            final(self).comment_idx == old(self).comment_idx,
            final(self).out@ == old(self).out@ + item_cs_text(
                buckets_view(old(self).item_comments@),
                old(self).item_index as int,
            ),
    {
        if self.item_index >= self.item_comments.len() {
            proof {
                assert(self.out@ =~= self.out@ + Seq::<char>::empty());
            }
            return;
        }
        let ghost f0 = *self;
        let ghost group = comments_view(self.item_comments@[self.item_index as int]@);
        let k = self.item_index;
        let mut j: usize = 0;
        proof {
            assert(group.take(0) =~= Seq::<SComment>::empty());
            assert(self.out@ =~= f0.out@ + comments_text(group.take(0)));
        }
        while j < self.item_comments[k].len()
            invariant
                self.wf(),
                self.frame(f0),
                self.comment_idx == f0.comment_idx,
                k == self.item_index,
                k < self.item_comments.len(),
                group == comments_view(self.item_comments@[k as int]@),
                j <= group.len(),
                self.out@ == f0.out@ + comments_text(group.take(j as int)),
            decreases group.len() - j,
        {
            push_comment(&mut self.out, &self.item_comments[k][j]);
            proof {
                assert(group.take(j + 1).drop_last() =~= group.take(j as int));
                assert(self.out@ =~= f0.out@ + comments_text(group.take(j + 1)));
            }
            j = j + 1;
        }
        proof {
            assert(group.take(group.len() as int) =~= group);
            assert(buckets_view(self.item_comments@)[k as int] == group);
        }
    }

    #[verifier::rlimit(100)]
    #[verifier::spinoff_prover]
    fn fmt_expr_stmt(&mut self, e: &Expr)
        requires
            old(self).wf(),
        ensures
            final(self).wf(),
            final(self).frame(*old(self)),
            final(self).out@ == old(self).out@ + st_expr(
                old(self).cs(),
                e@,
                old(self).indent,
                old(self).comment_idx as nat,
            ).0,
            final(self).comment_idx == st_expr(
                old(self).cs(),
                e@,
                old(self).indent,
                old(self).comment_idx as nat,
            ).1,
        decreases e, 3nat,
    {
        let ghost o = self.out@;
        let ind = self.indent;
        self.emit_comments(ind);
        let ghost mid = self.out@;
        match e {
            Expr::Match { .. } => self.fmt_match_expr(e),
            Expr::If { .. } => self.fmt_if_expr(e),
            Expr::For { .. } => self.fmt_for_expr(e),
            Expr::Pipe { .. } => push_pipe_stmt(&mut self.out, e, ind),
            _ => {
                push_indent(&mut self.out, ind);
                let s = fmt_inline(e, 0, false, ind, true);
                self.out.append(s.as_str());
            },
        }
        proof {
            let c = emit_cs(old(self).cs(), old(self).comment_idx as nat, ind);
            assert(self.out@ =~= o + st_expr(old(self).cs(), e@, ind, old(self).comment_idx as nat).0) by {
                assert(mid == o + c.0);
            }
        }
    }

    #[verifier::rlimit(100)]
    #[verifier::spinoff_prover]
    fn fmt_if_expr(&mut self, e: &Expr)
        requires
            old(self).wf(),
        ensures
            final(self).wf(),
            final(self).frame(*old(self)),
            final(self).out@ == old(self).out@ + st_if(
                old(self).cs(),
                e@,
                old(self).indent,
                old(self).comment_idx as nat,
            ).0,
            final(self).comment_idx == st_if(
                old(self).cs(),
                e@,
                old(self).indent,
                old(self).comment_idx as nat,
            ).1,
        decreases e, 2nat,
    {
        let ghost o = self.out@;
        match e {
            Expr::If { cond, then_branch, else_branch } => {
                let ind = self.indent;
                let next = next_level(ind);
                push_indent(&mut self.out, ind);
                let c = fmt_inline(cond, 0, false, 0, false);
                self.out.append("if ");
                self.out.append(c.as_str());
                self.out.append(" {");
                self.out.append("\n");
                self.indent = next;
                self.emit_comments(next);
                self.fmt_expr_stmt(then_branch);
                self.out.append("\n");
                self.indent = ind;
                push_indent(&mut self.out, ind);
                self.out.append("} else {");
                self.out.append("\n");
                self.indent = next;
                self.emit_comments(next);
                self.fmt_expr_stmt(else_branch);
                self.out.append("\n");
                self.indent = ind;
                self.emit_comments(next);
                push_indent(&mut self.out, ind);
                self.out.append("}");
                proof {
                    assert(self.out@ =~= o + st_if(old(self).cs(), e@, ind, old(self).comment_idx as nat).0);
                }
            },
            _ => {
                proof {
                    assert(self.out@ =~= o + Seq::<char>::empty());
                }
            },
        }
    }

    #[verifier::rlimit(100)]
    #[verifier::spinoff_prover]
    fn fmt_for_expr(&mut self, e: &Expr)
        requires
            old(self).wf(),
        ensures
            final(self).wf(),
            final(self).frame(*old(self)),
            final(self).out@ == old(self).out@ + st_for(
                old(self).cs(),
                e@,
                old(self).indent,
                old(self).comment_idx as nat,
            ).0,
            final(self).comment_idx == st_for(
                old(self).cs(),
                e@,
                old(self).indent,
                old(self).comment_idx as nat,
            ).1,
        decreases e, 2nat,
    {
        let ghost o = self.out@;
        match e {
            Expr::For { name, iter, guard, body } => {
                let ind = self.indent;
                let next = next_level(ind);
                push_indent(&mut self.out, ind);
                let it = fmt_inline(iter, 0, false, 0, false);
                self.out.append("for ");
                self.out.append(name.as_str());
                self.out.append(" in ");
                self.out.append(it.as_str());
                let ghost before_guard = self.out@;
                match guard {
                    Some(g) => {
                        let gs = fmt_inline(g, 0, false, 0, false);
                        self.out.append(" if ");
                        self.out.append(gs.as_str());
                    },
                    None => {},
                }
                let ghost guard_text = match e@ {
                    SExpr::For { guard, .. } => match guard {
                        Some(g) => " if "@ + flat(*g),
                        None => Seq::<char>::empty(),
                    },
                    _ => Seq::<char>::empty(),
                };
                proof {
                    assert(self.out@ =~= before_guard + guard_text);
                }
                self.out.append(" {");
                self.out.append("\n");
                self.indent = next;
                self.emit_comments(next);
                self.fmt_expr_stmt(body);
                self.out.append("\n");
                self.indent = ind;
                self.emit_comments(next);
                push_indent(&mut self.out, ind);
                self.out.append("}");
                proof {
                    assert(self.out@ =~= o + st_for(old(self).cs(), e@, ind, old(self).comment_idx as nat).0);
                }
            },
            _ => {
                proof {
                    assert(self.out@ =~= o + Seq::<char>::empty());
                }
            },
        }
    }

    #[verifier::rlimit(100)]
    #[verifier::spinoff_prover]
    fn fmt_match_expr(&mut self, e: &Expr)
        requires
            old(self).wf(),
        ensures
            final(self).wf(),
            final(self).frame(*old(self)),
            final(self).out@ == old(self).out@ + st_match(
                old(self).cs(),
                e@,
                old(self).indent,
                old(self).comment_idx as nat,
            ).0,
            final(self).comment_idx == st_match(
                old(self).cs(),
                e@,
                old(self).indent,
                old(self).comment_idx as nat,
            ).1,
        decreases e, 2nat,
    {
        proof {
            lemma_expr_views(*e);
        }
        let ghost o = self.out@;
        let ghost cs = self.cs();
        match e {
            Expr::Match { scrutinee, arms } => {
                let ind = self.indent;
                let next = next_level(ind);
                push_indent(&mut self.out, ind);
                let sc = fmt_inline(scrutinee, 0, false, 0, false);
                self.out.append("match ");
                self.out.append(sc.as_str());
                self.out.append(" {");
                self.out.append("\n");
                let ghost head = self.out@;
                self.indent = next;
                self.emit_comments(next);
                self.fmt_arms(arms);
                self.emit_comments(next);
                self.indent = ind;
                push_indent(&mut self.out, ind);
                self.out.append("}");
                proof {
                    assert(self.out@ =~= o + st_match(cs, e@, ind, old(self).comment_idx as nat).0);
                }
            },
            _ => {
                proof {
                    assert(self.out@ =~= o + Seq::<char>::empty());
                }
            },
        }
    }

    fn fmt_arms(&mut self, arms: &Vec<MatchArm>)
        requires
            old(self).wf(),
        ensures
            final(self).wf(),
            final(self).frame(*old(self)),
            final(self).out@ == old(self).out@ + st_arms(
                old(self).cs(),
                arms_view(arms@),
                old(self).indent,
                old(self).comment_idx as nat,
            ).0,
            final(self).comment_idx == st_arms(
                old(self).cs(),
                arms_view(arms@),
                old(self).indent,
                old(self).comment_idx as nat,
            ).1,
        decreases arms, 1nat,
    {
        let ghost cs = self.cs();
        let ghost av = arms_view(arms@);
        let ghost a_end = self.comment_idx as nat;
        let ghost after_a = self.out@;
        let ghost f0 = *self;
        let mut i: usize = 0;
        proof {
            assert(av.take(0) =~= Seq::<SArm>::empty());
            assert(self.out@ =~= after_a + st_arms(cs, av.take(0), f0.indent, a_end).0);
        }
        while i < arms.len()
            invariant
                i <= arms.len(),
                self.wf(),
                self.frame(f0),
                cs == self.cs(),
                av == arms_view(arms@),
                self.out@ == after_a + st_arms(cs, av.take(i as int), f0.indent, a_end).0,
                self.comment_idx == st_arms(cs, av.take(i as int), f0.indent, a_end).1,
            decreases arms.len() - i,
        {
            self.fmt_match_arm(&arms[i]);
            proof {
                let t = av.take(i + 1);
                assert(t.subrange(0, t.len() - 1) =~= av.take(i as int));
                assert(t[t.len() - 1] == arms@[i as int]@);
                assert(self.out@ =~= after_a + st_arms(cs, t, f0.indent, a_end).0);
            }
            i = i + 1;
        }
        proof {
            assert(av.take(arms.len() as int) =~= av);
        }
    }

    #[verifier::rlimit(100)]
    #[verifier::spinoff_prover]
    fn fmt_match_arm(&mut self, arm: &MatchArm)
        requires
            old(self).wf(),
        ensures
            final(self).wf(),
            final(self).frame(*old(self)),
            final(self).out@ == old(self).out@ + st_arm(
                old(self).cs(),
                arm@,
                old(self).indent,
                old(self).comment_idx as nat,
            ).0,
            final(self).comment_idx == st_arm(
                old(self).cs(),
                arm@,
                old(self).indent,
                old(self).comment_idx as nat,
            ).1,
        decreases arm, 0nat,
    {
        let ghost o = self.out@;
        let ind = self.indent;
        push_indent(&mut self.out, ind);
        let pat = fmt_pattern(&arm.pattern);
        self.out.append(pat.as_str());
        self.out.append(" =>");
        let inline = fmt_inline(&arm.body, 0, false, ind, true);
        let line_len: u128 = (ind as u128) * 2 + (text_width(pat.as_str()) as u128) + 4 + (text_width(
            inline.as_str(),
        ) as u128) + 1;
        proof {
            assert((line_len > MAX_INLINE_WIDTH) == (ind * 2 + width(pat@) + 4 + width(inline@) + 1
                > MAX_INLINE_WIDTH));
        }
        if expr_is_block(&arm.body) || has_char(inline.as_str(), '\n') || line_len > MAX_INLINE_WIDTH as u128 {
            self.out.append("\n");
            let next = next_level(ind);
            self.indent = next;
            self.emit_comments(next);
            self.fmt_expr_stmt(&arm.body);
            self.indent = ind;
            self.out.append(";");
            self.out.append("\n");
        } else {
            self.out.append(" ");
            self.out.append(inline.as_str());
            self.out.append(";");
            self.out.append("\n");
        }
        proof {
            assert(self.out@ =~= o + st_arm(old(self).cs(), arm@, ind, old(self).comment_idx as nat).0);
        }
    }

    fn fmt_data_def(&mut self, def: &DataDef)
        requires
            old(self).wf(),
        ensures
            final(self).wf(),
            final(self).frame(*old(self)),
            final(self).comment_idx == old(self).comment_idx,
            final(self).out@ == old(self).out@ + st_item(
                old(self).cs(),
                (SItem::Data { name: def.name@, variants: variants_view(def.variants@) }),
                old(self).indent,
                old(self).comment_idx as nat,
            ).0,
    {
        let ghost o = self.out@;
        let ind = self.indent;
        push_indent(&mut self.out, ind);
        self.out.append("data ");
        self.out.append(def.name.as_str());
        self.out.append(" = ");
        let ghost head = self.out@;
        let ghost vv = variants_view(def.variants@);
        let ghost pieces = variant_texts(vv);
        let mut i: usize = 0;
        while i < def.variants.len()
            invariant
                i <= def.variants.len(),
                self.wf(),
                self.frame(*old(self)),
                self.comment_idx == old(self).comment_idx,
                vv == variants_view(def.variants@),
                pieces == variant_texts(vv),
                self.out@ == head + join_sep(pieces.take(i as int), " | "@),
            decreases def.variants.len() - i,
        {
            if i > 0 {
                self.out.append(" | ");
            }
            let v = &def.variants[i];
            let mut t = String::new();
            t.append(v.name.as_str());
            if v.fields.len() > 0 {
                let fs = join_names(&v.fields);
                t.append(" { ");
                t.append(fs.as_str());
                t.append(" }");
            }
            proof {
                assert(vv[i as int] == v@);
                assert(t@ =~= variant_text(v@));
            }
            self.out.append(t.as_str());
            proof {
                lemma_join_step(pieces, " | "@, i as int);
                assert(self.out@ =~= head + join_sep(pieces.take(i + 1), " | "@));
            }
            i = i + 1;
        }
        proof {
            assert(pieces.take(def.variants.len() as int) =~= pieces);
        }
        self.out.append(";");
        self.out.append("\n");
        proof {
            assert(self.out@ =~= o + st_item(
                old(self).cs(),
                (SItem::Data { name: def.name@, variants: vv }),
                ind,
                old(self).comment_idx as nat,
            ).0);
        }
    }

    #[verifier::rlimit(50)]
    fn fmt_extern_fn(&mut self, def: &ExternFnDef)
        requires
            old(self).wf(),
        ensures
            final(self).wf(),
            final(self).frame(*old(self)),
            final(self).comment_idx == old(self).comment_idx,
            final(self).out@ == old(self).out@ + st_item(
                old(self).cs(),
                (SItem::ExternFn {
                    name: def.name@,
                    params: names_view(def.params@),
                    explain: def.explain@,
                }),
                old(self).indent,
                old(self).comment_idx as nat,
            ).0,
    {
        let ghost o = self.out@;
        let ind = self.indent;
        let params = join_names(&def.params);
        push_indent(&mut self.out, ind);
        self.out.append("extern fn ");
        self.out.append(def.name.as_str());
        self.out.append("(");
        self.out.append(params.as_str());
        if has_char(def.explain.as_str(), '\n') {
            self.out.append(") explain {");
            self.out.append("\n");
            push_explain_lines(&mut self.out, def.explain.as_str(), next_level(ind));
            push_indent(&mut self.out, ind);
            self.out.append("};");
            self.out.append("\n");
        } else {
            let t = trim_text(def.explain.as_str());
            self.out.append(") explain { ");
            self.out.append(t.as_str());
            self.out.append(" };");
            self.out.append("\n");
        }
        proof {
            assert(self.out@ =~= o + st_item(
                old(self).cs(),
                (SItem::ExternFn {
                    name: def.name@,
                    params: names_view(def.params@),
                    explain: def.explain@,
                }),
                ind,
                old(self).comment_idx as nat,
            ).0);
        }
    }

    #[verifier::rlimit(100)]
    #[verifier::spinoff_prover]
    fn fmt_fn(&mut self, def: &FnDef)
        requires
            old(self).wf(),
        ensures
            final(self).wf(),
            final(self).frame(*old(self)),
            final(self).out@ == old(self).out@ + st_item(
                old(self).cs(),
                (SItem::Fn { name: def.name@, params: names_view(def.params@), body: def.body@ }),
                old(self).indent,
                old(self).comment_idx as nat,
            ).0,
            final(self).comment_idx == st_item(
                old(self).cs(),
                (SItem::Fn { name: def.name@, params: names_view(def.params@), body: def.body@ }),
                old(self).indent,
                old(self).comment_idx as nat,
            ).1,
    {
        let ghost o = self.out@;
        let ind = self.indent;
        let next = next_level(ind);
        let params = join_names(&def.params);
        if expr_is_block(&def.body) {
            push_indent(&mut self.out, ind);
            self.out.append("fn ");
            self.out.append(def.name.as_str());
            self.out.append("(");
            self.out.append(params.as_str());
            self.out.append(") =");
            self.out.append("\n");
            self.indent = next;
            self.fmt_expr_stmt(&def.body);
            self.indent = ind;
            self.out.append(";");
            self.out.append("\n");
        } else {
            let x = fmt_inline(&def.body, 0, false, next, true);
            let line_len: u128 = (ind as u128) * 2 + 3 + (text_width(def.name.as_str()) as u128) + 2 + (
            text_width(params.as_str()) as u128) + 4 + (text_width(x.as_str()) as u128) + 1;
            proof {
                assert((line_len > MAX_INLINE_WIDTH) == (ind * 2 + 3 + width(def.name@) + 2 + width(params@)
                    + 4 + width(x@) + 1 > MAX_INLINE_WIDTH));
            }
            push_indent(&mut self.out, ind);
            self.out.append("fn ");
            self.out.append(def.name.as_str());
            self.out.append("(");
            self.out.append(params.as_str());
            if has_char(x.as_str(), '\n') || line_len > MAX_INLINE_WIDTH as u128 {
                self.out.append(") =");
                self.out.append("\n");
                push_indent(&mut self.out, next);
                self.out.append(x.as_str());
                self.out.append(";");
                self.out.append("\n");
            } else {
                self.out.append(") = ");
                self.out.append(x.as_str());
                self.out.append(";");
                self.out.append("\n");
            }
        }
        proof {
            assert(self.out@ =~= o + st_item(
                old(self).cs(),
                (SItem::Fn { name: def.name@, params: names_view(def.params@), body: def.body@ }),
                ind,
                old(self).comment_idx as nat,
            ).0);
        }
    }

    #[verifier::rlimit(100)]
    #[verifier::spinoff_prover]
    fn fmt_let(&mut self, def: &LetDef)
        requires
            old(self).wf(),
        ensures
            final(self).wf(),
            final(self).frame(*old(self)),
            final(self).out@ == old(self).out@ + st_item(
                old(self).cs(),
                (SItem::Let { name: def.name@, expr: def.expr@ }),
                old(self).indent,
                old(self).comment_idx as nat,
            ).0,
            final(self).comment_idx == st_item(
                old(self).cs(),
                (SItem::Let { name: def.name@, expr: def.expr@ }),
                old(self).indent,
                old(self).comment_idx as nat,
            ).1,
    {
        let ghost o = self.out@;
        let ind = self.indent;
        let next = next_level(ind);
        if expr_is_block(&def.expr) {
            push_indent(&mut self.out, ind);
            self.out.append("let ");
            self.out.append(def.name.as_str());
            self.out.append(" =");
            self.out.append("\n");
            self.indent = next;
            self.fmt_expr_stmt(&def.expr);
            self.indent = ind;
            self.out.append(";");
            self.out.append("\n");
        } else {
            let x = fmt_inline(&def.expr, 0, false, next, true);
            let line_len: u128 = (ind as u128) * 2 + 4 + (text_width(def.name.as_str()) as u128) + 3 + (
            text_width(x.as_str()) as u128) + 1;
            proof {
                assert((line_len > MAX_INLINE_WIDTH) == (ind * 2 + 4 + width(def.name@) + 3 + width(x@) + 1
                    > MAX_INLINE_WIDTH));
            }
            push_indent(&mut self.out, ind);
            self.out.append("let ");
            self.out.append(def.name.as_str());
            if has_char(x.as_str(), '\n') || line_len > MAX_INLINE_WIDTH as u128 {
                self.out.append(" =");
                self.out.append("\n");
                push_indent(&mut self.out, next);
                self.out.append(x.as_str());
                self.out.append(";");
                self.out.append("\n");
            } else {
                self.out.append(" = ");
                self.out.append(x.as_str());
                self.out.append(";");
                self.out.append("\n");
            }
        }
        proof {
            assert(self.out@ =~= o + st_item(
                old(self).cs(),
                (SItem::Let { name: def.name@, expr: def.expr@ }),
                ind,
                old(self).comment_idx as nat,
            ).0);
        }
    }

    fn fmt_item(&mut self, item: &Item)
        requires
            old(self).wf(),
        ensures
            final(self).wf(),
            final(self).frame(*old(self)),
            final(self).out@ == old(self).out@ + st_item(
                old(self).cs(),
                item@,
                old(self).indent,
                old(self).comment_idx as nat,
            ).0,
            final(self).comment_idx == st_item(
                old(self).cs(),
                item@,
                old(self).indent,
                old(self).comment_idx as nat,
            ).1,
    {
        match item {
            Item::Data(def) => {
                proof {
                    assert(item@ == (SItem::Data { name: def.name@, variants: variants_view(def.variants@) }));
                }
                self.fmt_data_def(def);
            },
            Item::ExternFn(def) => self.fmt_extern_fn(def),
            Item::Fn(def) => self.fmt_fn(def),
            Item::Let(def) => self.fmt_let(def),
        }
    }

    fn has_item_comments(&self) -> (r: bool)
        ensures
            r == (self.item_index < buckets_view(self.item_comments@).len()
                && buckets_view(self.item_comments@)[self.item_index as int].len() > 0),
    {
        self.item_index < self.item_comments.len() && self.item_comments[self.item_index].len() > 0
    }

    #[verifier::rlimit(60)]
    fn fmt_program(&mut self, program: &Program)
        requires
            old(self).wf(),
            old(self).indent == 0,
            old(self).item_index == 0,
            old(self).comment_idx == 0,
            old(self).out@ == Seq::<char>::empty(),
        ensures
            final(self).wf(),
            final(self).comments == old(self).comments,
            final(self).out@ == st_program(
                old(self).cs(),
                buckets_view(old(self).item_comments@),
                program@,
            ).0,
            final(self).comment_idx == st_program(
                old(self).cs(),
                buckets_view(old(self).item_comments@),
                program@,
            ).1,
    {
        let ghost cs = self.cs();
        let ghost ics = buckets_view(self.item_comments@);
        let ghost iv = program@.items;
        let ghost f0 = *self;
        let mut i: usize = 0;
        proof {
            assert(iv.take(0) =~= Seq::<SItem>::empty());
        }
        while i < program.items.len()
            invariant
                i <= program.items.len(),
                self.wf(),
                self.indent == 0,
                self.item_index == i,
                self.comments == f0.comments,
                self.item_comments == f0.item_comments,
                cs == self.cs(),
                ics == buckets_view(self.item_comments@),
                iv == program@.items,
                self.out@ == st_items(cs, ics, iv.take(i as int), 0).0,
                self.comment_idx == st_items(cs, ics, iv.take(i as int), 0).1,
            decreases program.items.len() - i,
        {
            let item = &program.items[i];
            let kind = item_kind_code(item);
            let multi = item_is_multiline(item);
            let has = self.has_item_comments();
            let ghost before = self.out@;
            let gap = i > 0 && (kind != item_kind_code(&program.items[i - 1]) || multi || has);
            if gap {
                self.out.append("\n");
            }
            self.emit_item_comments();
            self.fmt_item(item);
            proof {
                let t = iv.take(i + 1);
                assert(t.drop_last() =~= iv.take(i as int));
                assert(t[i as int] == item@);
                if i > 0 {
                    assert(t[i - 1] == program.items@[i - 1]@);
                }
                assert(gap == (i > 0 && (item_kind(t[i as int]) != item_kind(t[i - 1]) || item_multiline(
                    t[i as int],
                ) || (i < ics.len() && ics[i as int].len() > 0))));
                assert(self.out@ =~= st_items(cs, ics, t, 0).0);
            }
            self.item_index = self.item_index + 1;
            i = i + 1;
        }
        proof {
            assert(iv.take(program.items.len() as int) =~= iv);
        }
        let ghost a = st_items(cs, ics, iv, 0);
        match &program.expr {
            Some(e) => {
                if program.items.len() > 0 {
                    self.out.append("\n");
                }
                self.emit_item_comments();
                self.fmt_expr_stmt(e);
                self.out.append("\n");
            },
            None => {
                if !ends_with_char(self.out.as_str(), '\n') {
                    self.out.append("\n");
                }
            },
        }
        self.emit_comments(0);
        proof {
            assert(self.out@ =~= st_program(cs, ics, program@).0);
        }
    }
}

fn item_kind_code(item: &Item) -> (r: u8)
    ensures
        r == item_kind(item@),
{
    match item {
        Item::Data(_) => 0,
        Item::ExternFn(_) => 1,
        Item::Fn(_) => 2,
        Item::Let(_) => 3,
    }
}

fn item_is_multiline(item: &Item) -> (r: bool)
    ensures
        r == item_multiline(item@),
{
    match item {
        Item::Data(_) => false,
        Item::ExternFn(def) => has_char(def.explain.as_str(), '\n'),
        Item::Fn(def) => {
            if expr_is_block(&def.body) {
                true
            } else {
                let x = fmt_inline(&def.body, 0, false, 0, true);
                has_char(x.as_str(), '\n')
            }
        },
        Item::Let(def) => {
            if expr_is_block(&def.expr) {
                true
            } else {
                let x = fmt_inline(&def.expr, 0, false, 0, true);
                has_char(x.as_str(), '\n')
            }
        },
    }
}

fn push_explain_lines(out: &mut String, explain: &str, ind: usize)
    ensures
        final(out)@ == old(out)@ + line_block(text_lines(explain@), ind),
{
    let cs = str_chars(explain);
    let ghost start = out@;
    let mut cur = String::new();
    let mut i: usize = 0;
    proof {
        assert(cs@.take(0) =~= Seq::<char>::empty());
        assert(split_nl(Seq::<char>::empty()).drop_last() =~= Seq::<Seq<char>>::empty());
        assert(cur@ =~= split_nl(cs@.take(0)).last());
    }
    while i < cs.len()
        invariant
            i <= cs.len(),
            cs@ == explain@,
            out@ == start + line_block(split_nl(cs@.take(i as int)).drop_last(), ind),
            cur@ == split_nl(cs@.take(i as int)).last(),
        decreases cs.len() - i,
    {
        let c = cs[i];
        let ghost r = split_nl(cs@.take(i as int));
        proof {
            lemma_split_len(cs@.take(i as int));
            assert(cs@.take(i + 1).drop_last() =~= cs@.take(i as int));
            assert(cs@.take(i + 1).last() == c);
        }
        if c == '\n' {
            let ghost before = out@;
            push_indent(out, ind);
            let t = trim_text(cur.as_str());
            out.append(t.as_str());
            out.append("\n");
            cur = String::new();
            proof {
                let r2 = r.push(Seq::<char>::empty());
                assert(split_nl(cs@.take(i + 1)) == r2);
                assert(r2.drop_last() =~= r);
                assert(r.drop_last() == r.subrange(0, r.len() - 1));
                assert(line_block(r, ind) == line_block(r.drop_last(), ind) + indent_text(ind as nat) + utrim(
                    r.last(),
                ) + "\n"@);
                assert(out@ =~= start + line_block(r2.drop_last(), ind));
                assert(cur@ =~= r2.last());
            }
        } else {
            cur.push(c);
            proof {
                let r2 = r.update(r.len() - 1, r.last().push(c));
                assert(split_nl(cs@.take(i + 1)) == r2);
                assert(r2.drop_last() =~= r.drop_last());
            }
        }
        i = i + 1;
    }
    proof {
        assert(cs@.take(cs.len() as int) =~= cs@);
        lemma_split_len(cs@);
    }
    if !cur.as_str().is_empty() {
        push_indent(out, ind);
        let t = trim_text(cur.as_str());
        out.append(t.as_str());
        out.append("\n");
        proof {
            let p = split_nl(cs@);
            assert(p.drop_last() == p.subrange(0, p.len() - 1));
            assert(out@ =~= start + line_block(p, ind));
        }
    }
}

/// The text of a program.
pub open spec fn formatted(p: SProgram) -> Seq<char> {
    st_program(Seq::empty(), Seq::empty(), p).0
}

/// Prints a program in the canonical layout.
pub fn format_program(program: &Program) -> (r: String)
    ensures
        r@ == formatted(program@),
{
    let mut f = Formatter::new();
    proof {
        assert(f.cs() =~= Seq::<SComment>::empty());
        assert(buckets_view(f.item_comments@) =~= Seq::<Seq<SComment>>::empty());
    }
    f.fmt_program(program);
    f.out
}

// ---------------------------------------------------------------------------
// Where the comments of a source go
// ---------------------------------------------------------------------------

/// Where `//` starts a comment in a line, scanning from `i`; `quoted` says
/// whether `i` is inside a string (or byte-string) literal, where a
/// backslash hides the next character.
pub open spec fn comment_at(s: Seq<char>, i: int, quoted: bool) -> Option<int>
    decreases s.len() - i,
{
    if i < 0 || i >= s.len() {
        None
    } else if quoted {
        if s[i] == '\\' {
            comment_at(
                s,
                if i + 2 <= s.len() {
                    i + 2
                } else {
                    s.len() as int
                },
                true,
            )
        } else if s[i] == '"' {
            comment_at(s, i + 1, false)
        } else {
            comment_at(s, i + 1, true)
        }
    } else if s[i] == '"' {
        comment_at(s, i + 1, true)
    } else if s[i] == '/' && i + 1 < s.len() && s[i + 1] == '/' {
        Some(i)
    } else {
        comment_at(s, i + 1, false)
    }
}

/// The columns of leading blanks from `i` on: a space counts one, a tab two.
pub open spec fn lead_cols(s: Seq<char>, i: int) -> nat
    decreases s.len() - i,
{
    if 0 <= i < s.len() && s[i] == ' ' {
        1 + lead_cols(s, i + 1)
    } else if 0 <= i < s.len() && s[i] == '\t' {
        2 + lead_cols(s, i + 1)
    } else {
        0
    }
}

/// The comment of a line, if it has one: its level (two columns each) and
/// its text after `//`, trimmed.
pub open spec fn scan_comment(line: Seq<char>) -> Option<(usize, Seq<char>)> {
    match comment_at(line, 0, false) {
        Some(p) => Some(((lead_cols(line, 0) / 2) as usize, utrim(line.subrange(p + 2, line.len() as int)))),
        None => None,
    }
}

/// The comments of numbered lines.
pub open spec fn gather(lines: Seq<Seq<char>>) -> Seq<SComment>
    decreases lines.len(),
{
    if lines.len() == 0 {
        Seq::empty()
    } else {
        gather(lines.drop_last()) + match scan_comment(lines.last()) {
            Some(c) => seq![SComment { indent: c.0, text: c.1, line: (lines.len() - 1) as usize }],
            None => Seq::empty(),
        }
    }
}

/// The line comments of a source, in order.
pub open spec fn source_comments(src: Seq<char>) -> Seq<SComment> {
    gather(split_nl(src))
}

/// The byte offsets where lines start: 0, and one past each `\n`.
pub open spec fn line_starts_of(b: Seq<u8>) -> Seq<usize>
    decreases b.len(),
{
    if b.len() == 0 {
        seq![0]
    } else if b.last() == 10 {
        line_starts_of(b.drop_last()).push(b.len() as usize)
    } else {
        line_starts_of(b.drop_last())
    }
}

/// The line of a byte offset: the last line start at or before it (the
/// starts ascending).
pub open spec fn line_of(starts: Seq<usize>, pos: int, i: int) -> int
    decreases starts.len() - i,
{
    if 0 <= i && i + 1 < starts.len() && starts[i + 1] <= pos {
        line_of(starts, pos, i + 1)
    } else {
        i
    }
}

/// What the scan for top-level items knows after some tokens.
pub ghost struct ItemScan {
    pub parens: nat,
    pub braces: nat,
    pub brackets: nat,
    pub in_item: bool,
    pub lines: Seq<usize>,
}

pub open spec fn opens_item(k: SpecKind) -> bool {
    k == SpecKind::KwData || k == SpecKind::KwExtern || k == SpecKind::KwFn || k == SpecKind::KwLet
}

/// One down, not below zero.
pub open spec fn down(n: nat) -> nat {
    if n > 0 {
        (n - 1) as nat
    } else {
        0
    }
}

/// The scan after one more token: an item starts at `data`, `extern`, `fn`
/// or `let` outside any brackets and outside an item, and ends at `;`
/// outside any brackets.
pub open spec fn scan_step(st: ItemScan, t: SpecToken, starts: Seq<usize>) -> ItemScan {
    let top = st.parens == 0 && st.braces == 0 && st.brackets == 0;
    let starts_item = !st.in_item && top && opens_item(t.kind);
    let lines = if starts_item {
        st.lines.push(line_of(starts, t.position, 0) as usize)
    } else {
        st.lines
    };
    let parens = if t.kind == SpecKind::LParen {
        st.parens + 1
    } else if t.kind == SpecKind::RParen {
        down(st.parens)
    } else {
        st.parens
    };
    let braces = if t.kind == SpecKind::LBrace {
        st.braces + 1
    } else if t.kind == SpecKind::RBrace {
        down(st.braces)
    } else {
        st.braces
    };
    let brackets = if t.kind == SpecKind::LBracket {
        st.brackets + 1
    } else if t.kind == SpecKind::RBracket {
        down(st.brackets)
    } else {
        st.brackets
    };
    let in_item = st.in_item || starts_item;
    let ends = in_item && parens == 0 && braces == 0 && brackets == 0 && t.kind == SpecKind::Semicolon;
    ItemScan { parens, braces, brackets, in_item: in_item && !ends, lines }
}

pub open spec fn scan_tokens(ts: Seq<SpecToken>, starts: Seq<usize>) -> ItemScan
    decreases ts.len(),
{
    if ts.len() == 0 {
        ItemScan { parens: 0, braces: 0, brackets: 0, in_item: false, lines: Seq::empty() }
    } else {
        scan_step(scan_tokens(ts.drop_last(), starts), ts.last(), starts)
    }
}

/// The lines on which the top-level items start.
pub open spec fn item_lines(ts: Seq<SpecToken>, starts: Seq<usize>) -> Seq<usize> {
    scan_tokens(ts, starts).lines
}

/// The first item from `i` on that starts at or after `line` (the number of
/// items if none does).
pub open spec fn place(lines: Seq<usize>, line: usize, i: int) -> int
    decreases lines.len() - i,
{
    if i < 0 || i >= lines.len() {
        lines.len() as int
    } else if line <= lines[i] {
        i
    } else {
        place(lines, line, i + 1)
    }
}

/// The comments that are indented: they stay inside the statements.
pub open spec fn keep_inline(cs: Seq<SComment>) -> Seq<SComment>
    decreases cs.len(),
{
    if cs.len() == 0 {
        Seq::empty()
    } else {
        keep_inline(cs.drop_last()) + if cs.last().indent != 0 {
            seq![cs.last()]
        } else {
            Seq::empty()
        }
    }
}

/// The comments at level zero that go before item `k`.
pub open spec fn bucket(cs: Seq<SComment>, lines: Seq<usize>, k: int) -> Seq<SComment>
    decreases cs.len(),
{
    if cs.len() == 0 {
        Seq::empty()
    } else {
        bucket(cs.drop_last(), lines, k) + if cs.last().indent == 0 && place(lines, cs.last().line, 0) == k {
            seq![cs.last()]
        } else {
            Seq::empty()
        }
    }
}

/// The comments split between the statements and the places before each of
/// `count` items (and the final expression); when the item lines were not
/// found for every item, all stay with the statements.
pub open spec fn distribute(cs: Seq<SComment>, lines: Seq<usize>, count: nat) -> (
    Seq<SComment>,
    Seq<Seq<SComment>>,
) {
    if lines.len() != count {
        (cs, Seq::new(count + 1, |k: int| Seq::<SComment>::empty()))
    } else {
        (keep_inline(cs), Seq::new(count + 1, |k: int| bucket(cs, lines, k)))
    }
}

/// A program printed with the comments of its source.
pub open spec fn source_formatted(src: &str, p: SProgram) -> Seq<char> {
    let d = distribute(
        source_comments(src@),
        item_lines(lex_source(src), line_starts_of(src.spec_bytes())),
        p.items.len(),
    );
    let r = st_program(d.0, d.1, p);
    r.0 + rest_text(d.0, r.1)
}

fn find_comment(s: &Vec<char>) -> (r: Option<usize>)
    ensures
        match r {
            Some(p) => comment_at(s@, 0, false) == Some(p as int) && p + 2 <= s@.len(),
            None => comment_at(s@, 0, false) is None,
        },
{
    let mut i: usize = 0;
    let mut quoted = false;
    while i < s.len()
        invariant
            i <= s.len(),
            comment_at(s@, i as int, quoted) == comment_at(s@, 0, false),
        decreases s.len() - i,
    {
        let c = s[i];
        if quoted {
            if c == '\\' {
                i = if s.len() - i >= 2 {
                    i + 2
                } else {
                    s.len()
                };
            } else if c == '"' {
                quoted = false;
                i = i + 1;
            } else {
                i = i + 1;
            }
        } else {
            if c == '"' {
                quoted = true;
                i = i + 1;
            } else if c == '/' && i + 1 < s.len() && s[i + 1] == '/' {
                return Some(i);
            } else {
                i = i + 1;
            }
        }
    }
    None
}

fn lead_level(s: &Vec<char>) -> (r: usize)
    ensures
        r == lead_cols(s@, 0) / 2,
{
    let mut cols: u128 = 0;
    let mut i: usize = 0;
    while i < s.len() && (s[i] == ' ' || s[i] == '\t')
        invariant
            i <= s.len(),
            cols <= 2 * i,
            cols + lead_cols(s@, i as int) == lead_cols(s@, 0),
        decreases s.len() - i,
    {
        if s[i] == ' ' {
            cols = cols + 1;
        } else {
            cols = cols + 2;
        }
        i = i + 1;
    }
    (cols / 2) as usize
}

fn scan_line_comment(line: &Vec<char>) -> (r: Option<(usize, String)>)
    ensures
        match r {
            Some(c) => scan_comment(line@) == Some((c.0, c.1@)),
            None => scan_comment(line@) is None,
        },
{
    match find_comment(line) {
        Some(p) => {
            let mut rest = String::new();
            let n = line.len();
            proof {
                assert(p + 2 <= n);
            }
            let mut j: usize = p + 2;
            proof {
                assert(line@.subrange(p + 2, p + 2) =~= rest@);
            }
            while j < line.len()
                invariant
                    p + 2 <= j <= line.len(),
                    rest@ == line@.subrange(p + 2, j as int),
                decreases line.len() - j,
            {
                rest.push(line[j]);
                proof {
                    assert(rest@ =~= line@.subrange(p + 2, j + 1));
                }
                j = j + 1;
            }
            let text = trim_text(rest.as_str());
            Some((lead_level(line), text))
        },
        None => None,
    }
}

/// A comment found on line `line_no` appended to `out`.
fn push_line_comment(out: &mut Vec<Comment>, line: &Vec<char>, line_no: usize)
    ensures
        comments_view(final(out)@) == comments_view(old(out)@) + match scan_comment(line@) {
            Some(c) => seq![SComment { indent: c.0, text: c.1, line: line_no }],
            None => Seq::<SComment>::empty(),
        },
{
    match scan_line_comment(line) {
        Some((indent, text)) => {
            out.push(Comment { indent, text, line: line_no });
        },
        None => {},
    }
    proof {
        assert(comments_view(out@) =~= comments_view(old(out)@) + match scan_comment(line@) {
            Some(c) => seq![SComment { indent: c.0, text: c.1, line: line_no }],
            None => Seq::<SComment>::empty(),
        });
    }
}

/// The line comments of a source.
pub fn collect_comments(source: &str) -> (r: Vec<Comment>)
    ensures
        comments_view(r@) == source_comments(source@),
{
    let cs = str_chars(source);
    let mut out: Vec<Comment> = Vec::new();
    let mut cur: Vec<char> = Vec::new();
    let mut line: usize = 0;
    let mut i: usize = 0;
    proof {
        assert(cs@.take(0) =~= Seq::<char>::empty());
        assert(split_nl(Seq::<char>::empty()).drop_last() =~= Seq::<Seq<char>>::empty());
        assert(comments_view(out@) =~= Seq::<SComment>::empty());
        assert(cur@ =~= split_nl(cs@.take(0)).last());
    }
    while i < cs.len()
        invariant
            i <= cs.len(),
            cs@ == source@,
            comments_view(out@) == gather(split_nl(cs@.take(i as int)).drop_last()),
            cur@ == split_nl(cs@.take(i as int)).last(),
            line == split_nl(cs@.take(i as int)).len() - 1,
        decreases cs.len() - i,
    {
        let c = cs[i];
        let ghost r = split_nl(cs@.take(i as int));
        proof {
            lemma_split_len(cs@.take(i as int));
            assert(cs@.take(i + 1).drop_last() =~= cs@.take(i as int));
            assert(cs@.take(i + 1).last() == c);
        }
        if c == '\n' {
            push_line_comment(&mut out, &cur, line);
            cur = Vec::new();
            line = line + 1;
            proof {
                let r2 = r.push(Seq::<char>::empty());
                assert(split_nl(cs@.take(i + 1)) == r2);
                assert(r2.drop_last() =~= r);
                assert(r.drop_last() == r.subrange(0, r.len() - 1));
                assert(cur@ =~= r2.last());
            }
        } else {
            cur.push(c);
            proof {
                let r2 = r.update(r.len() - 1, r.last().push(c));
                assert(split_nl(cs@.take(i + 1)) == r2);
                assert(r2.drop_last() =~= r.drop_last());
            }
        }
        i = i + 1;
    }
    proof {
        assert(cs@.take(cs.len() as int) =~= cs@);
        lemma_split_len(cs@);
        let p = split_nl(cs@);
        assert(p.drop_last() == p.subrange(0, p.len() - 1));
    }
    push_line_comment(&mut out, &cur, line);
    out
}

/// The byte offsets where the lines of a source start.
pub fn line_starts(source: &str) -> (r: Vec<usize>)
    ensures
        r@ == line_starts_of(source.spec_bytes()),
{
    let bytes = source.as_bytes();
    let mut starts: Vec<usize> = Vec::new();
    starts.push(0);
    let mut i: usize = 0;
    proof {
        assert(bytes@.take(0) =~= Seq::<u8>::empty());
        assert(starts@ =~= line_starts_of(bytes@.take(0)));
    }
    while i < bytes.len()
        invariant
            i <= bytes.len(),
            bytes@ == source.spec_bytes(),
            starts@ == line_starts_of(bytes@.take(i as int)),
        decreases bytes.len() - i,
    {
        proof {
            assert(bytes@.take(i + 1).drop_last() =~= bytes@.take(i as int));
            assert(bytes@.take(i + 1).last() == bytes@[i as int]);
        }
        if bytes[i] == 10 {
            starts.push(i + 1);
        }
        i = i + 1;
    }
    proof {
        assert(bytes@.take(bytes.len() as int) =~= bytes@);
    }
    starts
}

/// The line of a byte offset.
pub fn byte_to_line(pos: usize, starts: &Vec<usize>) -> (r: usize)
    ensures
        r == line_of(starts@, pos as int, 0),
{
    let mut i: usize = 0;
    while i + 1 < starts.len() && starts[i + 1] <= pos
        invariant
            i == 0 || i < starts.len(),
            line_of(starts@, pos as int, i as int) == line_of(starts@, pos as int, 0),
        decreases starts.len() - i,
    {
        i = i + 1;
    }
    i
}

fn is_item_keyword(k: &TokenKind) -> (r: bool)
    ensures
        r == opens_item(k@),
{
    match k {
        TokenKind::KwData | TokenKind::KwExtern | TokenKind::KwFn | TokenKind::KwLet => true,
        _ => false,
    }
}

/// The lines on which the top-level items of a token stream start.
#[verifier::rlimit(40)]
pub fn scan_top_level_item_lines(tokens: &Vec<Token>, starts: &Vec<usize>) -> (r: Vec<usize>)
    ensures
        r@ == item_lines(tokens_view(tokens@), starts@),
{
    let ghost ts = tokens_view(tokens@);
    let mut lines: Vec<usize> = Vec::new();
    let mut parens: usize = 0;
    let mut braces: usize = 0;
    let mut brackets: usize = 0;
    let mut in_item = false;
    let mut i: usize = 0;
    proof {
        assert(ts.take(0) =~= Seq::<SpecToken>::empty());
    }
    while i < tokens.len()
        invariant
            i <= tokens.len(),
            ts == tokens_view(tokens@),
            parens <= i,
            braces <= i,
            brackets <= i,
            scan_tokens(ts.take(i as int), starts@) == (ItemScan {
                parens: parens as nat,
                braces: braces as nat,
                brackets: brackets as nat,
                in_item,
                lines: lines@,
            }),
        decreases tokens.len() - i,
    {
        let t = &tokens[i];
        proof {
            assert(ts.take(i + 1).drop_last() =~= ts.take(i as int));
            assert(ts.take(i + 1).last() == t@);
        }
        let top = parens == 0 && braces == 0 && brackets == 0;
        if !in_item && top && is_item_keyword(&t.kind) {
            let l = byte_to_line(t.position, starts);
            lines.push(l);
            in_item = true;
        }
        match t.kind {
            TokenKind::LParen => parens = parens + 1,
            TokenKind::RParen => parens = if parens > 0 {
                parens - 1
            } else {
                0
            },
            TokenKind::LBrace => braces = braces + 1,
            TokenKind::RBrace => braces = if braces > 0 {
                braces - 1
            } else {
                0
            },
            TokenKind::LBracket => brackets = brackets + 1,
            TokenKind::RBracket => brackets = if brackets > 0 {
                brackets - 1
            } else {
                0
            },
            _ => {},
        }
        let semi = match t.kind {
            TokenKind::Semicolon => true,
            _ => false,
        };
        if in_item && parens == 0 && braces == 0 && brackets == 0 && semi {
            in_item = false;
        }
        proof {
            assert(scan_tokens(ts.take(i + 1), starts@) == (ItemScan {
                parens: parens as nat,
                braces: braces as nat,
                brackets: brackets as nat,
                in_item,
                lines: lines@,
            }));
        }
        i = i + 1;
    }
    proof {
        assert(ts.take(tokens.len() as int) =~= ts);
    }
    lines
}

fn copy_comment(c: &Comment) -> (r: Comment)
    ensures
        r@ == c@,
{
    Comment { indent: c.indent, text: c.text.clone(), line: c.line }
}

fn place_of(lines: &Vec<usize>, line: usize) -> (r: usize)
    ensures
        r == place(lines@, line, 0),
{
    let mut i: usize = 0;
    while i < lines.len()
        invariant
            i <= lines.len(),
            place(lines@, line, i as int) == place(lines@, line, 0),
        decreases lines.len() - i,
    {
        if line <= lines[i] {
            return i;
        }
        i = i + 1;
    }
    i
}

/// Splits the comments between the statements and the places before each
/// of `item_count` items (and the final expression).
pub fn distribute_comments(comments: Vec<Comment>, item_lines: &Vec<usize>, item_count: usize) -> (r: (
    Vec<Comment>,
    Vec<Vec<Comment>>,
))
    requires
        item_count < usize::MAX,
    ensures
        (comments_view(r.0@), buckets_view(r.1@)) == distribute(
            comments_view(comments@),
            item_lines@,
            item_count as nat,
        ),
{
    let ghost cv = comments_view(comments@);
    let ghost d = distribute(cv, item_lines@, item_count as nat);
    let mut buckets: Vec<Vec<Comment>> = Vec::new();
    let mut k: usize = 0;
    if item_lines.len() != item_count {
        while k <= item_count
            invariant
                k <= item_count + 1,
                item_count < usize::MAX,
                buckets@.len() == k,
                forall|j: int| 0 <= j < k ==> #[trigger] buckets@[j]@.len() == 0,
            decreases item_count + 1 - k,
        {
            buckets.push(Vec::new());
            k = k + 1;
        }
        proof {
            assert forall|j: int| 0 <= j < buckets@.len() implies buckets_view(buckets@)[j] == d.1[j] by {
                assert(buckets_view(buckets@)[j] =~= Seq::<SComment>::empty());
            }
            assert(buckets_view(buckets@) =~= d.1);
        }
        return (comments, buckets);
    }
    let mut inline: Vec<Comment> = Vec::new();
    let mut i: usize = 0;
    proof {
        assert(cv.take(0) =~= Seq::<SComment>::empty());
        assert(comments_view(inline@) =~= keep_inline(cv.take(0)));
    }
    while i < comments.len()
        invariant
            i <= comments.len(),
            cv == comments_view(comments@),
            comments_view(inline@) == keep_inline(cv.take(i as int)),
        decreases comments.len() - i,
    {
        if comments[i].indent != 0 {
            inline.push(copy_comment(&comments[i]));
        }
        proof {
            assert(cv.take(i + 1).drop_last() =~= cv.take(i as int));
            assert(cv.take(i + 1).last() == comments@[i as int]@);
            assert(comments_view(inline@) =~= keep_inline(cv.take(i + 1)));
        }
        i = i + 1;
    }
    proof {
        assert(cv.take(comments.len() as int) =~= cv);
    }
    let mut places: Vec<usize> = Vec::new();
    let mut i: usize = 0;
    while i < comments.len()
        invariant
            i <= comments.len(),
            places@.len() == i,
            forall|j: int| 0 <= j < i ==> #[trigger] places@[j] == place(item_lines@, comments@[j].line, 0),
        decreases comments.len() - i,
    {
        places.push(place_of(item_lines, comments[i].line));
        i = i + 1;
    }
    while k <= item_count
        invariant
            k <= item_count + 1,
            item_count < usize::MAX,
            item_lines@.len() == item_count,
            cv == comments_view(comments@),
            places@.len() == comments@.len(),
            forall|j: int|
                0 <= j < comments@.len() ==> #[trigger] places@[j] == place(item_lines@, comments@[j].line, 0),
            buckets@.len() == k,
            forall|j: int| 0 <= j < k ==> #[trigger] comments_view(buckets@[j]@) == bucket(cv, item_lines@, j),
        decreases item_count + 1 - k,
    {
        let mut b: Vec<Comment> = Vec::new();
        let mut i: usize = 0;
        proof {
            assert(cv.take(0) =~= Seq::<SComment>::empty());
            assert(comments_view(b@) =~= bucket(cv.take(0), item_lines@, k as int));
        }
        while i < comments.len()
            invariant
                i <= comments.len(),
                cv == comments_view(comments@),
                places@.len() == comments@.len(),
                forall|j: int|
                    0 <= j < comments@.len() ==> #[trigger] places@[j] == place(item_lines@, comments@[j].line, 0),
                comments_view(b@) == bucket(cv.take(i as int), item_lines@, k as int),
            decreases comments.len() - i,
        {
            if comments[i].indent == 0 && places[i] == k {
                b.push(copy_comment(&comments[i]));
            }
            proof {
                assert(cv.take(i + 1).drop_last() =~= cv.take(i as int));
                assert(cv.take(i + 1).last() == comments@[i as int]@);
                assert(places@[i as int] == place(item_lines@, comments@[i as int].line, 0));
                assert(comments_view(b@) =~= bucket(cv.take(i + 1), item_lines@, k as int));
            }
            i = i + 1;
        }
        proof {
            assert(cv.take(comments.len() as int) =~= cv);
        }
        buckets.push(b);
        proof {
            assert(comments_view(buckets@[k as int]@) == bucket(cv, item_lines@, k as int));
        }
        k = k + 1;
    }
    proof {
        assert(buckets_view(buckets@) =~= d.1);
        assert(comments_view(inline@) == d.0);
    }
    (inline, buckets)
}

/// Prints a program in the canonical layout with the line comments of its
/// source: indented comments inside the statements, the others before the
/// item they precede, and whatever is left at the end.
pub fn format_source(source: &str, program: &Program) -> (r: String)
    requires
        program.items@.len() < usize::MAX,
    ensures
        r@ == source_formatted(source, program@),
{
    let comments = collect_comments(source);
    let tokens = Lexer::new(source).lex_all();
    let starts = line_starts(source);
    let lines = scan_top_level_item_lines(&tokens, &starts);
    let (inline, buckets) = distribute_comments(comments, &lines, program.items.len());
    let mut f = Formatter::with_comments(inline, buckets);
    f.fmt_program(program);
    f.emit_remaining_comments();
    f.out
}


// ---------------------------------------------------------------------------
// Laws
// ---------------------------------------------------------------------------

/// Text that is empty or ends a line.
pub open spec fn ends_line(t: Seq<char>) -> bool {
    t.len() == 0 || t.last() == '\n'
}

proof fn lemma_comment_ends_line(c: SComment)
    ensures
        comment_text(c).len() > 0,
        comment_text(c).last() == '\n',
{
    reveal_strlit("\n");
}

proof fn lemma_emit_ends_line(cs: Seq<SComment>, idx: nat, ind: usize)
    ensures
        ends_line(emit_cs(cs, idx, ind).0),
    decreases cs.len() - idx,
{
    if idx < cs.len() && cs[idx as int].indent == ind {
        lemma_emit_ends_line(cs, idx + 1, ind);
        lemma_comment_ends_line(cs[idx as int]);
    }
}

proof fn lemma_rest_ends_line(cs: Seq<SComment>, idx: nat)
    ensures
        ends_line(rest_text(cs, idx)),
    decreases cs.len() - idx,
{
    if idx < cs.len() {
        lemma_rest_ends_line(cs, idx + 1);
        lemma_comment_ends_line(cs[idx as int]);
    }
}

/// A printed program is never empty and always ends with a line break,
/// whatever comments go into it.
pub proof fn law_output_ends_with_newline(cs: Seq<SComment>, ics: Seq<Seq<SComment>>, p: SProgram)
    ensures
        st_program(cs, ics, p).0.len() > 0,
        st_program(cs, ics, p).0.last() == '\n',
{
    reveal_strlit("\n");
    let a = st_items(cs, ics, p.items, 0);
    match p.expr {
        Some(e) => {
            let b = st_expr(cs, e, 0, a.1);
            lemma_emit_ends_line(cs, b.1, 0);
        },
        None => {
            lemma_emit_ends_line(cs, a.1, 0);
        },
    }
}

/// `format_program` and `format_source` end their text with a line break.
pub proof fn law_formatted_ends_with_newline(src: &str, p: SProgram)
    ensures
        formatted(p).len() > 0,
        formatted(p).last() == '\n',
        source_formatted(src, p).len() > 0,
        source_formatted(src, p).last() == '\n',
{
    law_output_ends_with_newline(Seq::empty(), Seq::empty(), p);
    let d = distribute(
        source_comments(src@),
        item_lines(lex_source(src), line_starts_of(src.spec_bytes())),
        p.items.len(),
    );
    law_output_ends_with_newline(d.0, d.1, p);
    let r = st_program(d.0, d.1, p);
    lemma_rest_ends_line(d.0, r.1);
}

/// Item lists printed with comment buckets that are all empty read the same
/// as with no buckets at all.
proof fn lemma_empty_buckets(cs: Seq<SComment>, ics: Seq<Seq<SComment>>, items: Seq<SItem>, idx: nat)
    requires
        forall|i: int| 0 <= i < ics.len() ==> (#[trigger] ics[i]).len() == 0,
    ensures
        st_items(cs, ics, items, idx) == st_items(cs, Seq::empty(), items, idx),
    decreases items.len(),
{
    if items.len() > 0 {
        lemma_empty_buckets(cs, ics, items.drop_last(), idx);
        let i = items.len() - 1;
        if 0 <= i < ics.len() {
            assert(ics[i].len() == 0);
            assert(comments_text(ics[i]) == Seq::<char>::empty());
        }
        assert(item_cs_text(ics, i) == Seq::<char>::empty());
        assert(item_cs_text(Seq::empty(), i) == Seq::<char>::empty());
    }
}

proof fn lemma_no_comments_placed(lines: Seq<usize>, count: nat, k: int)
    ensures
        keep_inline(Seq::empty()) == Seq::<SComment>::empty(),
        bucket(Seq::empty(), lines, k) == Seq::<SComment>::empty(),
{
}

/// A source with no comments formats exactly as its program does:
/// `format_source` then gives the text of `format_program`.
pub proof fn law_source_without_comments_formats_as_program(src: &str, p: SProgram)
    requires
        source_comments(src@).len() == 0,
    ensures
        source_formatted(src, p) == formatted(p),
{
    let cs = source_comments(src@);
    assert(cs =~= Seq::<SComment>::empty());
    let lines = item_lines(lex_source(src), line_starts_of(src.spec_bytes()));
    let d = distribute(cs, lines, p.items.len());
    lemma_no_comments_placed(lines, p.items.len(), 0);
    assert forall|i: int| 0 <= i < d.1.len() implies (#[trigger] d.1[i]).len() == 0 by {
        lemma_no_comments_placed(lines, p.items.len(), i);
    }
    assert(d.0 == Seq::<SComment>::empty());
    lemma_empty_buckets(d.0, d.1, p.items, 0);
    let n = p.items.len() as int;
    if 0 <= n < d.1.len() {
        assert(d.1[n].len() == 0);
        assert(comments_text(d.1[n]) == Seq::<char>::empty());
    }
    assert(item_cs_text(d.1, n) == Seq::<char>::empty());
    assert(item_cs_text(Seq::empty(), n) == Seq::<char>::empty());
    let r = st_program(d.0, d.1, p);
    assert(r == st_program(Seq::empty(), Seq::empty(), p));
    assert(rest_text(d.0, r.1) == Seq::<char>::empty());
    assert(r.0 + rest_text(d.0, r.1) =~= r.0);
}

/// Each character of a text as one byte (its code, for codes up to `0xFF`).
pub open spec fn char_bytes(s: Seq<char>) -> Seq<u8> {
    Seq::new(s.len(), |i: int| s[i] as u8)
}

/// A string literal as the formatter writes it: the escaped text in quotes.
pub open spec fn quoted_text(s: Seq<char>) -> Seq<char> {
    seq!['"'] + esc_str(s) + seq!['"']
}

/// The escape of one character is ASCII, and the lexer reads it back as
/// that character's byte.
proof fn lemma_esc_char_reads_back(b: Seq<u8>, p: int, out: Seq<u8>, c: char)
    requires
        (c as u32) <= 0xFF,
        0 <= p,
        p + esc_char(c).len() < b.len(),
        b.subrange(p, p + esc_char(c).len()) == char_bytes(esc_char(c)),
    ensures
        quoted_body(b, p, out) == quoted_body(b, p + esc_char(c).len(), out.push(c as u8)),
{
    reveal_strlit("\\n");
    reveal_strlit("\\r");
    reveal_strlit("\\t");
    reveal_strlit("\\0");
    reveal_strlit("\\\\");
    reveal_strlit("\\\"");
    reveal_strlit("\\x");
    let e = esc_char(c);
    assert forall|i: int| 0 <= i < e.len() implies b[p + i] == (#[trigger] e[i]) as u8 by {
        assert(b.subrange(p, p + e.len())[i] == b[p + i]);
    }
    if c == '\n' || c == '\r' || c == '\t' || c == '\0' || c == '\\' || c == '"' {
        assert(b[p] == e[0] as u8);
        assert(b[p + 1] == e[1] as u8);
    } else if ' ' <= c <= '~' {
        assert(b[p] == e[0] as u8);
    } else {
        let v = (c as u32) as u8;
        let hi = (v / 16) as int;
        let lo = (v % 16) as int;
        assert(e == hex_byte(v));
        assert(e =~= seq!['\\', 'x', hex_digit(hi), hex_digit(lo)]);
        assert(b[p] == 0x5c);
        assert(b[p + 1] == 0x78);
        assert(b[p + 2] == hex_digit(hi) as u8);
        assert(b[p + 3] == hex_digit(lo) as u8);
        assert(hi * 16 + lo == v);
    }
}

/// The escape of a character with a code up to `0xFF` is ASCII.
proof fn lemma_esc_char_ascii(c: char)
    requires
        (c as u32) <= 0xFF,
    ensures
        forall|i: int| 0 <= i < esc_char(c).len() ==> ((#[trigger] esc_char(c)[i]) as u32) < 0x80,
{
    reveal_strlit("\\n");
    reveal_strlit("\\r");
    reveal_strlit("\\t");
    reveal_strlit("\\0");
    reveal_strlit("\\\\");
    reveal_strlit("\\\"");
    reveal_strlit("\\x");
    if !(c == '\n' || c == '\r' || c == '\t' || c == '\0' || c == '\\' || c == '"') && !(' ' <= c <= '~') {
        let v = (c as u32) as u8;
        assert(esc_char(c) =~= seq!['\\', 'x', hex_digit((v / 16) as int), hex_digit((v % 16) as int)]);
    }
}

/// Escaped text of characters with codes up to `0xFF` is ASCII.
proof fn lemma_esc_str_ascii(s: Seq<char>)
    requires
        forall|i: int| 0 <= i < s.len() ==> ((#[trigger] s[i]) as u32) <= 0xFF,
    ensures
        forall|i: int| 0 <= i < esc_str(s).len() ==> ((#[trigger] esc_str(s)[i]) as u32) < 0x80,
    decreases s.len(),
{
    if s.len() > 0 {
        let f = s.drop_last();
        assert forall|i: int| 0 <= i < f.len() implies ((#[trigger] f[i]) as u32) <= 0xFF by {
            assert(f[i] == s[i]);
        }
        lemma_esc_str_ascii(f);
        lemma_esc_char_ascii(s.last());
        let a = esc_str(f);
        let e = esc_char(s.last());
        assert forall|i: int| 0 <= i < esc_str(s).len() implies ((#[trigger] esc_str(s)[i]) as u32) < 0x80 by {
            if i < a.len() {
                assert(esc_str(s)[i] == a[i]);
            } else {
                assert(esc_str(s)[i] == e[i - a.len()]);
            }
        }
    }
}

proof fn lemma_esc_str_step(s: Seq<char>, j: int)
    requires
        0 <= j < s.len(),
    ensures
        esc_str(s.take(j + 1)) == esc_str(s.take(j)) + esc_char(s[j]),
{
    assert(s.take(j + 1).drop_last() =~= s.take(j));
}

proof fn lemma_esc_str_prefix(s: Seq<char>, m: int, n: int)
    requires
        0 <= m <= n <= s.len(),
    ensures
        esc_str(s.take(m)).len() <= esc_str(s.take(n)).len(),
        esc_str(s.take(n)).subrange(0, esc_str(s.take(m)).len() as int) == esc_str(s.take(m)),
    decreases n - m,
{
    if m < n {
        lemma_esc_str_prefix(s, m, n - 1);
        lemma_esc_str_step(s, n - 1);
        let a = esc_str(s.take(n - 1));
        assert((a + esc_char(s[n - 1])).subrange(0, esc_str(s.take(m)).len() as int) =~= a.subrange(
            0,
            esc_str(s.take(m)).len() as int,
        ));
    } else {
        assert(esc_str(s.take(n)).subrange(0, esc_str(s.take(n)).len() as int) =~= esc_str(s.take(n)));
    }
}

proof fn lemma_quoted_reads_back(s: Seq<char>, j: int)
    requires
        forall|i: int| 0 <= i < s.len() ==> ((#[trigger] s[i]) as u32) <= 0xFF,
        0 <= j <= s.len(),
    ensures
        quoted_body(char_bytes(quoted_text(s)), 1 + esc_str(s.take(j)).len() as int, char_bytes(s.take(j)))
            == (Ok::<Seq<u8>, char>(char_bytes(s)), quoted_text(s).len() as int),
    decreases s.len() - j,
{
    let q = quoted_text(s);
    let b = char_bytes(q);
    let es = esc_str(s);
    lemma_esc_str_prefix(s, j, s.len() as int);
    assert(s.take(s.len() as int) =~= s);
    if j == s.len() {
        assert(b[1 + es.len() as int] == 0x22);
        assert(char_bytes(s.take(j)) =~= char_bytes(s));
    } else {
        let pj: int = 1 + esc_str(s.take(j)).len() as int;
        let c = s[j];
        let k: int = esc_char(c).len() as int;
        lemma_esc_str_step(s, j);
        lemma_esc_str_prefix(s, j + 1, s.len() as int);
        let pre = esc_str(s.take(j + 1));
        assert forall|i: int| 0 <= i < k implies #[trigger] b.subrange(pj, pj + k)[i] == char_bytes(esc_char(c))[i] by {
            assert(b.subrange(pj, pj + k)[i] == b[pj + i]);
            assert(q[pj + i] == es[pj + i - 1]);
            assert(es.subrange(0, pre.len() as int)[pj + i - 1] == pre[pj + i - 1]);
        }
        assert(b.subrange(pj, pj + k) =~= char_bytes(esc_char(c)));
        lemma_esc_char_reads_back(b, pj, char_bytes(s.take(j)), c);
        assert(char_bytes(s.take(j)).push(c as u8) =~= char_bytes(s.take(j + 1)));
        lemma_quoted_reads_back(s, j + 1);
    }
}

/// A string whose characters all have codes up to `0xFF`, written as the
/// formatter writes a string literal, is ASCII text that lexes back to one
/// string token holding exactly that string, then `Eof` at its end.
pub proof fn law_escaped_string_lexes_back(s: Seq<char>)
    requires
        forall|i: int| 0 <= i < s.len() ==> ((#[trigger] s[i]) as u32) <= 0xFF,
    ensures
        forall|i: int| 0 <= i < quoted_text(s).len() ==> ((#[trigger] quoted_text(s)[i]) as u32) < 0x80,
        lex_from(char_bytes(quoted_text(s)), 0) == seq![
            SpecToken { kind: SpecKind::Str(s), position: 0 },
            SpecToken { kind: SpecKind::Eof, position: quoted_text(s).len() as int },
        ],
{
    let q = quoted_text(s);
    let b = char_bytes(q);
    lemma_quoted_reads_back(s, 0);
    lemma_esc_str_ascii(s);
    assert(s.take(s.len() as int) =~= s);
    assert(s.take(0) =~= Seq::<char>::empty());
    assert(char_bytes(Seq::<char>::empty()) =~= Seq::<u8>::empty());
    assert forall|i: int| 0 <= i < q.len() implies ((#[trigger] q[i]) as u32) < 0x80 by {
        if 0 < i < q.len() - 1 {
            assert(q[i] == esc_str(s)[i - 1]);
        }
    }
    assert(b[0] == 0x22);
    assert(latin1(char_bytes(s)) =~= s) by {
        assert forall|i: int| 0 <= i < s.len() implies #[trigger] latin1(char_bytes(s))[i] == s[i] by {
            let c = s[i];
            let bb = char_bytes(s);
            assert(bb[i] == c as u8);
            assert(latin1(bb)[i] == bb[i] as char);
            let u = c as u32;
            vstd::utf8::char_u32_cast(c, u);
        }
    }
    lemma_next_token(b, 0);
    lemma_next_token(b, q.len() as int);
    assert(lex_from(b, q.len() as int) == seq![SpecToken { kind: SpecKind::Eof, position: q.len() as int }]);
}

/// Whether `t` occurs in `s` as a contiguous piece.
pub open spec fn has_piece(s: Seq<char>, t: Seq<char>) -> bool {
    exists|a: Seq<char>, b: Seq<char>| s == a + t + b
}

/// Whether each of the comments `cs[from..to]` occurs in `out`.
pub open spec fn shows_comments(out: Seq<char>, cs: Seq<SComment>, from: int, to: int) -> bool {
    forall|k: int| from <= k < to ==> has_piece(out, comment_text(#[trigger] cs[k]))
}

proof fn lemma_piece_self(t: Seq<char>)
    ensures
        has_piece(t, t),
{
    assert(t == Seq::<char>::empty() + t + Seq::<char>::empty());
}

/// A piece of either part is a piece of the whole.
proof fn lemma_piece_concat()
    ensures
        forall|s1: Seq<char>, s2: Seq<char>, t: Seq<char>|
            (has_piece(s1, t) || has_piece(s2, t)) ==> #[trigger] has_piece(s1 + s2, t),
{
    assert forall|s1: Seq<char>, s2: Seq<char>, t: Seq<char>|
        (has_piece(s1, t) || has_piece(s2, t)) implies #[trigger] has_piece(s1 + s2, t) by {
        if has_piece(s1, t) {
            let (a, b) = choose|a: Seq<char>, b: Seq<char>| s1 == a + t + b;
            assert(s1 + s2 == a + t + (b + s2));
        } else {
            let (a, b) = choose|a: Seq<char>, b: Seq<char>| s2 == a + t + b;
            assert(s1 + s2 == (s1 + a) + t + b);
        }
    }
}

proof fn lemma_emit_shows(cs: Seq<SComment>, idx: nat, ind: usize)
    requires
        idx <= cs.len(),
    ensures
        shows_comments(emit_cs(cs, idx, ind).0, cs, idx as int, emit_cs(cs, idx, ind).1 as int),
    decreases cs.len() - idx,
{
    lemma_piece_concat();
    if idx < cs.len() && cs[idx as int].indent == ind {
        lemma_emit_shows(cs, idx + 1, ind);
        lemma_piece_self(comment_text(cs[idx as int]));
    }
}

proof fn lemma_rest_shows(cs: Seq<SComment>, idx: nat)
    ensures
        shows_comments(rest_text(cs, idx), cs, idx as int, cs.len() as int),
    decreases cs.len() - idx,
{
    lemma_piece_concat();
    if idx < cs.len() {
        lemma_rest_shows(cs, idx + 1);
        lemma_piece_self(comment_text(cs[idx as int]));
    }
}

/// The comments a statement printer consumes all occur in what it prints.
proof fn lemma_st_expr_shows(cs: Seq<SComment>, e: SExpr, ind: usize, idx: nat)
    requires
        idx <= cs.len(),
    ensures
        idx <= st_expr(cs, e, ind, idx).1 <= cs.len(),
        shows_comments(st_expr(cs, e, ind, idx).0, cs, idx as int, st_expr(cs, e, ind, idx).1 as int),
    decreases e, 3nat,
{
    lemma_piece_concat();
    lemma_emit_bounds(cs, idx, ind);
    lemma_emit_shows(cs, idx, ind);
    let c = emit_cs(cs, idx, ind);
    match e {
        SExpr::Match { .. } => {
            lemma_st_match_shows(cs, e, ind, c.1);
        },
        SExpr::If { .. } => {
            lemma_st_if_shows(cs, e, ind, c.1);
        },
        SExpr::For { .. } => {
            lemma_st_for_shows(cs, e, ind, c.1);
        },
        _ => {},
    }
}

proof fn lemma_st_if_shows(cs: Seq<SComment>, e: SExpr, ind: usize, idx: nat)
    requires
        idx <= cs.len(),
    ensures
        idx <= st_if(cs, e, ind, idx).1 <= cs.len(),
        shows_comments(st_if(cs, e, ind, idx).0, cs, idx as int, st_if(cs, e, ind, idx).1 as int),
    decreases e, 2nat,
{
    lemma_piece_concat();
    match e {
        SExpr::If { cond, then_branch, else_branch } => {
            let i1 = inc(ind);
            lemma_emit_bounds(cs, idx, i1);
            lemma_emit_shows(cs, idx, i1);
            let a = emit_cs(cs, idx, i1);
            lemma_st_expr_shows(cs, *then_branch, i1, a.1);
            let b = st_expr(cs, *then_branch, i1, a.1);
            lemma_emit_bounds(cs, b.1, i1);
            lemma_emit_shows(cs, b.1, i1);
            let c = emit_cs(cs, b.1, i1);
            lemma_st_expr_shows(cs, *else_branch, i1, c.1);
            let d = st_expr(cs, *else_branch, i1, c.1);
            lemma_emit_bounds(cs, d.1, i1);
            lemma_emit_shows(cs, d.1, i1);
            let f = emit_cs(cs, d.1, i1);
            let out = st_if(cs, e, ind, idx).0;
            assert forall|k: int| idx <= k < f.1 implies has_piece(out, comment_text(#[trigger] cs[k])) by {
                if k < a.1 {
                    assert(has_piece(a.0, comment_text(cs[k])));
                } else if k < b.1 {
                    assert(has_piece(b.0, comment_text(cs[k])));
                } else if k < c.1 {
                    assert(has_piece(c.0, comment_text(cs[k])));
                } else if k < d.1 {
                    assert(has_piece(d.0, comment_text(cs[k])));
                } else {
                    assert(has_piece(f.0, comment_text(cs[k])));
                }
            }
        },
        _ => {},
    }
}

proof fn lemma_st_for_shows(cs: Seq<SComment>, e: SExpr, ind: usize, idx: nat)
    requires
        idx <= cs.len(),
    ensures
        idx <= st_for(cs, e, ind, idx).1 <= cs.len(),
        shows_comments(st_for(cs, e, ind, idx).0, cs, idx as int, st_for(cs, e, ind, idx).1 as int),
    decreases e, 2nat,
{
    lemma_piece_concat();
    match e {
        SExpr::For { name, iter, guard, body } => {
            let i1 = inc(ind);
            lemma_emit_bounds(cs, idx, i1);
            lemma_emit_shows(cs, idx, i1);
            let a = emit_cs(cs, idx, i1);
            lemma_st_expr_shows(cs, *body, i1, a.1);
            let b = st_expr(cs, *body, i1, a.1);
            lemma_emit_bounds(cs, b.1, i1);
            lemma_emit_shows(cs, b.1, i1);
            let f = emit_cs(cs, b.1, i1);
            let out = st_for(cs, e, ind, idx).0;
            assert forall|k: int| idx <= k < f.1 implies has_piece(out, comment_text(#[trigger] cs[k])) by {
                if k < a.1 {
                    assert(has_piece(a.0, comment_text(cs[k])));
                } else if k < b.1 {
                    assert(has_piece(b.0, comment_text(cs[k])));
                } else {
                    assert(has_piece(f.0, comment_text(cs[k])));
                }
            }
        },
        _ => {},
    }
}

proof fn lemma_st_match_shows(cs: Seq<SComment>, e: SExpr, ind: usize, idx: nat)
    requires
        idx <= cs.len(),
    ensures
        idx <= st_match(cs, e, ind, idx).1 <= cs.len(),
        shows_comments(st_match(cs, e, ind, idx).0, cs, idx as int, st_match(cs, e, ind, idx).1 as int),
    decreases e, 2nat,
{
    lemma_piece_concat();
    match e {
        SExpr::Match { scrutinee, arms } => {
            let i1 = inc(ind);
            lemma_emit_bounds(cs, idx, i1);
            lemma_emit_shows(cs, idx, i1);
            let a = emit_cs(cs, idx, i1);
            lemma_st_arms_shows(cs, arms, i1, a.1);
            let r = st_arms(cs, arms, i1, a.1);
            lemma_emit_bounds(cs, r.1, i1);
            lemma_emit_shows(cs, r.1, i1);
            let c = emit_cs(cs, r.1, i1);
            let out = st_match(cs, e, ind, idx).0;
            assert forall|k: int| idx <= k < c.1 implies has_piece(out, comment_text(#[trigger] cs[k])) by {
                if k < a.1 {
                    assert(has_piece(a.0, comment_text(cs[k])));
                } else if k < r.1 {
                    assert(has_piece(r.0, comment_text(cs[k])));
                } else {
                    assert(has_piece(c.0, comment_text(cs[k])));
                }
            }
        },
        _ => {},
    }
}

proof fn lemma_st_arms_shows(cs: Seq<SComment>, arms: Seq<SArm>, ind: usize, idx: nat)
    requires
        idx <= cs.len(),
    ensures
        idx <= st_arms(cs, arms, ind, idx).1 <= cs.len(),
        shows_comments(st_arms(cs, arms, ind, idx).0, cs, idx as int, st_arms(cs, arms, ind, idx).1 as int),
    decreases arms, 1nat,
{
    lemma_piece_concat();
    if arms.len() > 0 {
        let front = arms.subrange(0, arms.len() - 1);
        lemma_st_arms_shows(cs, front, ind, idx);
        let p = st_arms(cs, front, ind, idx);
        lemma_st_arm_shows(cs, arms[arms.len() - 1], ind, p.1);
        let q = st_arm(cs, arms[arms.len() - 1], ind, p.1);
        assert forall|k: int| idx <= k < q.1 implies has_piece(p.0 + q.0, comment_text(#[trigger] cs[k])) by {
            if k < p.1 {
                assert(has_piece(p.0, comment_text(cs[k])));
            } else {
                assert(has_piece(q.0, comment_text(cs[k])));
            }
        }
    }
}

proof fn lemma_st_arm_shows(cs: Seq<SComment>, arm: SArm, ind: usize, idx: nat)
    requires
        idx <= cs.len(),
    ensures
        idx <= st_arm(cs, arm, ind, idx).1 <= cs.len(),
        shows_comments(st_arm(cs, arm, ind, idx).0, cs, idx as int, st_arm(cs, arm, ind, idx).1 as int),
    decreases arm, 0nat,
{
    lemma_piece_concat();
    let pat = fx_pattern(arm.pattern);
    let inline = fx(arm.body, 0, false, ind, true);
    let line_len = ind * 2 + width(pat) + 4 + width(inline) + 1;
    if is_block(arm.body) || inline.contains('\n') || line_len > MAX_INLINE_WIDTH {
        lemma_emit_bounds(cs, idx, inc(ind));
        lemma_emit_shows(cs, idx, inc(ind));
        let a = emit_cs(cs, idx, inc(ind));
        lemma_st_expr_shows(cs, arm.body, inc(ind), a.1);
        let b = st_expr(cs, arm.body, inc(ind), a.1);
        let out = st_arm(cs, arm, ind, idx).0;
        assert forall|k: int| idx <= k < b.1 implies has_piece(out, comment_text(#[trigger] cs[k])) by {
            if k < a.1 {
                assert(has_piece(a.0, comment_text(cs[k])));
            } else {
                assert(has_piece(b.0, comment_text(cs[k])));
            }
        }
    }
}

proof fn lemma_comments_text_shows(cs: Seq<SComment>)
    ensures
        forall|j: int| 0 <= j < cs.len() ==> has_piece(comments_text(cs), comment_text(#[trigger] cs[j])),
    decreases cs.len(),
{
    lemma_piece_concat();
    if cs.len() > 0 {
        let f = cs.drop_last();
        lemma_comments_text_shows(f);
        lemma_piece_self(comment_text(cs.last()));
        assert forall|j: int| 0 <= j < cs.len() implies has_piece(comments_text(cs), comment_text(#[trigger] cs[j])) by {
            if j < f.len() {
                assert(f[j] == cs[j]);
                assert(has_piece(comments_text(f), comment_text(f[j])));
            }
        }
    }
}

proof fn lemma_st_item_shows(cs: Seq<SComment>, item: SItem, ind: usize, idx: nat)
    requires
        idx <= cs.len(),
    ensures
        idx <= st_item(cs, item, ind, idx).1 <= cs.len(),
        shows_comments(st_item(cs, item, ind, idx).0, cs, idx as int, st_item(cs, item, ind, idx).1 as int),
{
    lemma_piece_concat();
    match item {
        SItem::Fn { name, params, body } => {
            if is_block(body) {
                lemma_st_expr_shows(cs, body, inc(ind), idx);
            }
        },
        SItem::Let { name, expr } => {
            if is_block(expr) {
                lemma_st_expr_shows(cs, expr, inc(ind), idx);
            }
        },
        _ => {},
    }
}

/// The comments of the bucket before item `i`, for `i` below `n`, all
/// occur in `out`.
pub open spec fn shows_buckets(out: Seq<char>, ics: Seq<Seq<SComment>>, n: int) -> bool {
    forall|i: int, j: int|
        0 <= i < n && i < ics.len() && 0 <= j < ics[i].len() ==> has_piece(
            out,
            comment_text(#[trigger] ics[i][j]),
        )
}

proof fn lemma_st_items_shows(cs: Seq<SComment>, ics: Seq<Seq<SComment>>, items: Seq<SItem>, idx: nat)
    requires
        idx <= cs.len(),
    ensures
        idx <= st_items(cs, ics, items, idx).1 <= cs.len(),
        shows_comments(st_items(cs, ics, items, idx).0, cs, idx as int, st_items(cs, ics, items, idx).1 as int),
        shows_buckets(st_items(cs, ics, items, idx).0, ics, items.len() as int),
    decreases items.len(),
{
    lemma_piece_concat();
    if items.len() > 0 {
        let n = items.len() - 1;
        let front = items.drop_last();
        lemma_st_items_shows(cs, ics, front, idx);
        let p = st_items(cs, ics, front, idx);
        lemma_st_item_shows(cs, items[n], 0, p.1);
        let q = st_item(cs, items[n], 0, p.1);
        let out = st_items(cs, ics, items, idx).0;
        assert forall|k: int| idx <= k < q.1 implies has_piece(out, comment_text(#[trigger] cs[k])) by {
            if k < p.1 {
                assert(has_piece(p.0, comment_text(cs[k])));
            } else {
                assert(has_piece(q.0, comment_text(cs[k])));
            }
        }
        assert forall|i: int, j: int|
            0 <= i < items.len() && i < ics.len() && 0 <= j < ics[i].len() implies has_piece(
            out,
            comment_text(#[trigger] ics[i][j]),
        ) by {
            if i < n {
                assert(has_piece(p.0, comment_text(ics[i][j])));
            } else {
                lemma_comments_text_shows(ics[i]);
                assert(has_piece(item_cs_text(ics, i), comment_text(ics[i][j])));
            }
        }
    }
}

proof fn lemma_st_program_shows(cs: Seq<SComment>, ics: Seq<Seq<SComment>>, p: SProgram)
    ensures
        st_program(cs, ics, p).1 <= cs.len(),
        shows_comments(st_program(cs, ics, p).0, cs, 0, st_program(cs, ics, p).1 as int),
        shows_buckets(
            st_program(cs, ics, p).0,
            ics,
            p.items.len() + if p.expr is Some {
                1int
            } else {
                0int
            },
        ),
{
    lemma_piece_concat();
    lemma_st_items_shows(cs, ics, p.items, 0);
    let a = st_items(cs, ics, p.items, 0);
    let out = st_program(cs, ics, p).0;
    let n = p.items.len() as int;
    match p.expr {
        Some(e) => {
            lemma_st_expr_shows(cs, e, 0, a.1);
            let b = st_expr(cs, e, 0, a.1);
            lemma_emit_bounds(cs, b.1, 0);
            lemma_emit_shows(cs, b.1, 0);
            let c = emit_cs(cs, b.1, 0);
            assert forall|k: int| 0 <= k < c.1 implies has_piece(out, comment_text(#[trigger] cs[k])) by {
                if k < a.1 {
                    assert(has_piece(a.0, comment_text(cs[k])));
                } else if k < b.1 {
                    assert(has_piece(b.0, comment_text(cs[k])));
                } else {
                    assert(has_piece(c.0, comment_text(cs[k])));
                }
            }
            assert forall|i: int, j: int|
                0 <= i < n + 1 && i < ics.len() && 0 <= j < ics[i].len() implies has_piece(
                out,
                comment_text(#[trigger] ics[i][j]),
            ) by {
                if i < n {
                    assert(has_piece(a.0, comment_text(ics[i][j])));
                } else {
                    lemma_comments_text_shows(ics[i]);
                    assert(has_piece(item_cs_text(ics, i), comment_text(ics[i][j])));
                }
            }
        },
        None => {
            lemma_emit_bounds(cs, a.1, 0);
            lemma_emit_shows(cs, a.1, 0);
            let c = emit_cs(cs, a.1, 0);
            let head = if a.0.len() > 0 && a.0.last() == '\n' {
                a.0
            } else {
                a.0 + "\n"@
            };
            assert forall|k: int| 0 <= k < c.1 implies has_piece(out, comment_text(#[trigger] cs[k])) by {
                if k < a.1 {
                    assert(has_piece(a.0, comment_text(cs[k])));
                    assert(has_piece(head, comment_text(cs[k])));
                } else {
                    assert(has_piece(c.0, comment_text(cs[k])));
                }
            }
            assert forall|i: int, j: int|
                0 <= i < n && i < ics.len() && 0 <= j < ics[i].len() implies has_piece(
                out,
                comment_text(#[trigger] ics[i][j]),
            ) by {
                assert(has_piece(a.0, comment_text(ics[i][j])));
                assert(has_piece(head, comment_text(ics[i][j])));
            }
        },
    }
}

proof fn lemma_place_bounds(lines: Seq<usize>, line: usize, i: int)
    requires
        0 <= i,
    ensures
        0 <= place(lines, line, i) <= lines.len(),
    decreases lines.len() - i,
{
    if i < lines.len() && !(line <= lines[i]) {
        lemma_place_bounds(lines, line, i + 1);
    }
}

proof fn lemma_keep_inline_has(cs: Seq<SComment>, j: int)
    requires
        0 <= j < cs.len(),
        cs[j].indent != 0,
    ensures
        keep_inline(cs).contains(cs[j]),
    decreases cs.len(),
{
    let f = cs.drop_last();
    if j < f.len() {
        assert(f[j] == cs[j]);
        lemma_keep_inline_has(f, j);
        let w = choose|x: int| 0 <= x < keep_inline(f).len() && keep_inline(f)[x] == cs[j];
        assert(keep_inline(cs)[w] == cs[j]);
    } else {
        assert(keep_inline(cs)[keep_inline(cs).len() - 1] == cs[j]);
    }
}

proof fn lemma_bucket_has(cs: Seq<SComment>, lines: Seq<usize>, k: int, j: int)
    requires
        0 <= j < cs.len(),
        cs[j].indent == 0,
        place(lines, cs[j].line, 0) == k,
    ensures
        bucket(cs, lines, k).contains(cs[j]),
    decreases cs.len(),
{
    let f = cs.drop_last();
    if j < f.len() {
        assert(f[j] == cs[j]);
        lemma_bucket_has(f, lines, k, j);
        let w = choose|x: int| 0 <= x < bucket(f, lines, k).len() && bucket(f, lines, k)[x] == cs[j];
        assert(bucket(cs, lines, k)[w] == cs[j]);
    } else {
        assert(bucket(cs, lines, k)[bucket(cs, lines, k).len() - 1] == cs[j]);
    }
}

/// Whether `format_source` leaves a comment of `src` out: as the formatter
/// has always done, a comment at level zero that comes after the line on
/// which the last item starts, in a program without a final expression.
pub open spec fn comment_left_out(src: &str, p: SProgram, c: SComment) -> bool {
    let lines = item_lines(lex_source(src), line_starts_of(src.spec_bytes()));
    &&& p.expr is None
    &&& lines.len() == p.items.len()
    &&& c.indent == 0
    &&& place(lines, c.line, 0) == p.items.len()
}

/// `format_source` keeps the line comments of its source: each one occurs
/// in the output as a line of its own (`//`, then a space and its text when
/// it has any, at its level of indentation), but for those that
/// `comment_left_out` names.
pub proof fn law_format_source_keeps_comments(src: &str, p: SProgram, c: SComment)
    requires
        source_comments(src@).contains(c),
        !comment_left_out(src, p, c),
    ensures
        has_piece(source_formatted(src, p), comment_text(c)),
{
    lemma_piece_concat();
    let all = source_comments(src@);
    let lines = item_lines(lex_source(src), line_starts_of(src.spec_bytes()));
    let n = p.items.len();
    let d = distribute(all, lines, n);
    let r = st_program(d.0, d.1, p);
    let out = source_formatted(src, p);
    assert(out == r.0 + rest_text(d.0, r.1));
    lemma_st_program_shows(d.0, d.1, p);
    lemma_rest_shows(d.0, r.1);
    let j = choose|j: int| 0 <= j < all.len() && all[j] == c;
    let inline_at = |x: int| 0 <= x < d.0.len() && d.0[x] == c;
    if lines.len() != n || c.indent != 0 {
        if lines.len() != n {
            assert(d.0[j] == c);
            assert(inline_at(j));
        } else {
            lemma_keep_inline_has(all, j);
        }
        let x = choose|x: int| 0 <= x < d.0.len() && d.0[x] == c;
        if x < r.1 {
            assert(has_piece(r.0, comment_text(d.0[x])));
        } else {
            assert(has_piece(rest_text(d.0, r.1), comment_text(d.0[x])));
        }
    } else {
        let k = place(lines, c.line, 0);
        lemma_place_bounds(lines, c.line, 0);
        lemma_bucket_has(all, lines, k, j);
        assert(d.1[k] == bucket(all, lines, k));
        let x = choose|x: int| 0 <= x < d.1[k].len() && d.1[k][x] == c;
        assert(k < n || p.expr is Some);
        assert(has_piece(r.0, comment_text(d.1[k][x])));
    }
}

/// The formatter's binding strengths order expressions as the grammar's
/// precedence does: two binary operators bind equally tightly in the
/// formatter exactly when they share a precedence level, and one binds
/// more tightly exactly when its level is tighter; a pipe binds more
/// loosely, and a prefix operator more tightly, than every binary operator.
/// So the formatter adds parentheses where the parser would otherwise group
/// differently.
pub proof fn law_format_strengths_follow_precedence(
    op1: BinaryOp,
    op2: BinaryOp,
    l1: SExpr,
    r1: SExpr,
    l2: SExpr,
    r2: SExpr,
    input: SExpr,
    target: SPipeTarget,
    uop: UnaryOp,
    x: SExpr,
)
    ensures
        (prec_of(SExpr::Binary { op: op1, left: Box::new(l1), right: Box::new(r1) }) < prec_of(
            SExpr::Binary { op: op2, left: Box::new(l2), right: Box::new(r2) },
        )) <==> binding_level(op1) < binding_level(op2),
        (prec_of(SExpr::Binary { op: op1, left: Box::new(l1), right: Box::new(r1) }) == prec_of(
            SExpr::Binary { op: op2, left: Box::new(l2), right: Box::new(r2) },
        )) <==> binding_level(op1) == binding_level(op2),
        prec_of(SExpr::Pipe { input: Box::new(input), target }) < prec_of(
            SExpr::Binary { op: op1, left: Box::new(l1), right: Box::new(r1) },
        ),
        prec_of(SExpr::Binary { op: op1, left: Box::new(l1), right: Box::new(r1) }) < prec_of(
            SExpr::Unary { op: uop, expr: Box::new(x) },
        ),
{
}

/// Two operand texts joined by an operator, with a space on each side.
pub open spec fn infix_text(l: Seq<char>, op: BinaryOp, r: Seq<char>) -> Seq<char> {
    l + " "@ + binary_text(op) + " "@ + r
}

/// A text in parentheses.
pub open spec fn parenthesized(t: Seq<char>) -> Seq<char> {
    "("@ + t + ")"@
}

/// A binary expression of numbers prints with parentheses exactly where
/// the grammar needs them: around a left operand that binds more loosely,
/// and around a right operand that binds no more tightly (operators of one
/// level group to the left).
pub proof fn law_format_parenthesizes_by_precedence(
    op: BinaryOp,
    op2: BinaryOp,
    a: i64,
    b: i64,
    c: i64,
    ind: usize,
    ml: bool,
)
    ensures
        fx(
            SExpr::Binary {
                op,
                left: Box::new(
                    SExpr::Binary { op: op2, left: Box::new(SExpr::Int(a)), right: Box::new(SExpr::Int(b)) },
                ),
                right: Box::new(SExpr::Int(c)),
            },
            0,
            false,
            ind,
            ml,
        ) == infix_text(
            if binding_level(op2) < binding_level(op) {
                parenthesized(infix_text(int_text(a), op2, int_text(b)))
            } else {
                infix_text(int_text(a), op2, int_text(b))
            },
            op,
            int_text(c),
        ),
        fx(
            SExpr::Binary {
                op,
                left: Box::new(SExpr::Int(a)),
                right: Box::new(
                    SExpr::Binary { op: op2, left: Box::new(SExpr::Int(b)), right: Box::new(SExpr::Int(c)) },
                ),
            },
            0,
            false,
            ind,
            ml,
        ) == infix_text(
            int_text(a),
            op,
            if binding_level(op2) <= binding_level(op) {
                parenthesized(infix_text(int_text(b), op2, int_text(c)))
            } else {
                infix_text(int_text(b), op2, int_text(c))
            },
        ),
{
    let ia = SExpr::Int(a);
    let ib = SExpr::Int(b);
    let ic = SExpr::Int(c);
    let ab = SExpr::Binary { op: op2, left: Box::new(ia), right: Box::new(ib) };
    let bc = SExpr::Binary { op: op2, left: Box::new(ib), right: Box::new(ic) };
    let e1 = SExpr::Binary { op, left: Box::new(ab), right: Box::new(ic) };
    let e2 = SExpr::Binary { op, left: Box::new(ia), right: Box::new(bc) };
    let p1 = prec_of(e1);
    let p2 = prec_of(ab);
    assert(p2 as int == binding_level(op2) + 2);
    assert(p1 as int == binding_level(op) + 2);
    assert(prec_of(bc) == p2);
    assert(prec_of(e2) == p1);
    lemma_fx_number(a, p2, false, ind, ml);
    lemma_fx_number(b, p2, true, ind, ml);
    lemma_fx_number(b, p2, false, ind, ml);
    lemma_fx_number(c, p2, true, ind, ml);
    lemma_fx_number(c, p1, true, ind, ml);
    lemma_fx_number(a, p1, false, ind, ml);
    lemma_fx_binary(op2, ia, ib, ind, ml);
    lemma_fx_binary(op2, ib, ic, ind, ml);
    lemma_fx_binary(op, ab, ic, ind, ml);
    lemma_fx_binary(op, ia, bc, ind, ml);
    lemma_fx_wrap(ab, p1, false, ind, ml);
    lemma_fx_wrap(bc, p1, true, ind, ml);
    lemma_fx_wrap(e1, 0, false, ind, ml);
    lemma_fx_wrap(e2, 0, false, ind, ml);
}

proof fn lemma_fx_number(v: i64, parent: u8, is_right: bool, ind: usize, ml: bool)
    requires
        parent <= 8,
    ensures
        fx(SExpr::Int(v), parent, is_right, ind, ml) == int_text(v),
{
    assert(fx_body(SExpr::Int(v), ind, ml) == int_text(v));
}

proof fn lemma_fx_binary(op: BinaryOp, l: SExpr, r: SExpr, ind: usize, ml: bool)
    ensures
        fx_body(SExpr::Binary { op, left: Box::new(l), right: Box::new(r) }, ind, ml) == infix_text(
            fx(l, prec_of(SExpr::Binary { op, left: Box::new(l), right: Box::new(r) }), false, ind, ml),
            op,
            fx(r, prec_of(SExpr::Binary { op, left: Box::new(l), right: Box::new(r) }), true, ind, ml),
        ),
{
}

proof fn lemma_fx_wrap(e: SExpr, parent: u8, is_right: bool, ind: usize, ml: bool)
    ensures
        fx(e, parent, is_right, ind, ml) == if needs_paren(e, parent, is_right) {
            parenthesized(fx_body(e, ind, ml))
        } else {
            fx_body(e, ind, ml)
        },
{
}

/// Each binary operator prints as the token that spells it.
pub proof fn law_operator_text_is_its_spelling(k: SpecKind)
    ensures
        spelled_op(k) matches Some(op) ==> binary_text(op) == latin1(punct_spelling(k)),
{
    reveal_strlit("+");
    reveal_strlit("-");
    reveal_strlit("*");
    reveal_strlit("/");
    reveal_strlit("%");
    reveal_strlit("==");
    reveal_strlit("!=");
    reveal_strlit("<");
    reveal_strlit("<=");
    reveal_strlit(">");
    reveal_strlit(">=");
    reveal_strlit("&&");
    reveal_strlit("||");
    match spelled_op(k) {
        Some(op) => {
            assert(binary_text(op) =~= latin1(punct_spelling(k)));
        },
        None => {},
    }
}

} // verus!
