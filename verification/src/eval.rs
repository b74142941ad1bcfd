//! Evaluation of core programs: the meaning of every expression, as a
//! function, and the evaluator that computes it.
//!
//! Host functions (`extern fn` implemented by the embedding program) answer
//! outside of the library. The meaning of a program is therefore stated for
//! a sequence of answers: the k-th host call made gets the k-th answer.
use vstd::prelude::*;

use vstd::string::StringExecFns;

use crate::ast::core_ast::{
    carms_view, cexprs_view, centries_view, cfields_view, citems_view, lemma_core_views, CArm,
    CExpr, CItem, CPattern, CProgram, DataVariant, Expr, FnDef, Item, MatchArm, MatchPattern,
    FieldPattern, Program,
};
use crate::ast::{names_view, BinaryOp, UnaryOp};
use crate::text::{debug_string, debug_text, decimal, push_decimal};
use crate::value::{
    dict_insert, dict_put, dict_view, duplicate_fields, equal_values, equal_values_spec, field_insert, field_put,
    lemma_value_views, value_fields_view, value_to_key, value_to_key_spec, values_view, EvalError,
    SKey, SValue, Value, ValueKey,
};

verus! {

/// The count from which evaluation counts nested function calls down: the
/// largest count a `u64` holds, so that in practice only the machine's
/// stack limits how deeply calls nest.
pub const MAX_CALL_DEPTH: u64 = 18446744073709551615;

/// A value or the message of an error.
pub type SRes = Result<SValue, Seq<char>>;

/// The answers of the host functions: the k-th host call, of the function
/// `n` with arguments `a`, gets the answer `ans(k, n, a)` (no answer where
/// it is `None`).
pub type Answers = spec_fn(int, Seq<char>, Seq<SValue>) -> Option<SRes>;

/// A call of a host function: its name, its arguments and its answer.
pub type HostCall = (Seq<char>, Seq<SValue>, SRes);

/// Local bindings; a name bound twice means its last binding.
pub type SLocals = Seq<(Seq<char>, SValue)>;

/// What a name can stand for while a program runs. A name defined twice
/// means its last definition.
#[verifier::ext_equal]
pub ghost struct SEnv {
    pub funcs: Seq<(Seq<char>, Seq<Seq<char>>, CExpr)>,
    pub externs: Seq<Seq<char>>,
    pub builtins: Seq<Seq<char>>,
    pub ctors: Seq<(Seq<char>, Seq<Seq<char>>)>,
    pub globals: SLocals,
}

// ---------------------------------------------------------------------------
// Lookups.
pub open spec fn find_fn(fs: Seq<(Seq<char>, Seq<Seq<char>>, CExpr)>, n: Seq<char>) -> Option<
    (Seq<Seq<char>>, CExpr),
>
    decreases fs.len(),
{
    if fs.len() == 0 {
        None
    } else if fs.last().0 == n {
        Some((fs.last().1, fs.last().2))
    } else {
        find_fn(fs.drop_last(), n)
    }
}

pub open spec fn find_ctor(cs: Seq<(Seq<char>, Seq<Seq<char>>)>, n: Seq<char>) -> Option<
    Seq<Seq<char>>,
>
    decreases cs.len(),
{
    if cs.len() == 0 {
        None
    } else if cs.last().0 == n {
        Some(cs.last().1)
    } else {
        find_ctor(cs.drop_last(), n)
    }
}

pub open spec fn find_binding(bs: SLocals, n: Seq<char>) -> Option<SValue>
    decreases bs.len(),
{
    if bs.len() == 0 {
        None
    } else if bs.last().0 == n {
        Some(bs.last().1)
    } else {
        find_binding(bs.drop_last(), n)
    }
}

/// The value of a field of a variant: its first occurrence.
pub open spec fn find_field(fs: Seq<(Seq<char>, SValue)>, n: Seq<char>) -> Option<SValue>
    decreases fs.len(),
{
    if fs.len() == 0 {
        None
    } else if fs[0].0 == n {
        Some(fs[0].1)
    } else {
        find_field(fs.drop_first(), n)
    }
}

/// A variable: a local, a global, or a constructor without fields.
pub open spec fn lookup_var_spec(n: Seq<char>, env: SEnv, locals: SLocals) -> SRes {
    match find_binding(locals, n) {
        Some(v) => Ok(v),
        None => match find_binding(env.globals, n) {
            Some(v) => Ok(v),
            None => match find_ctor(env.ctors, n) {
                Some(fields) => if fields.len() == 0 {
                    Ok(SValue::Variant { name: n, fields: Seq::empty() })
                } else {
                    Err("unknown variable '"@ + n + "'"@)
                },
                None => Err("unknown variable '"@ + n + "'"@),
            },
        },
    }
}

// ---------------------------------------------------------------------------
// Operators.
pub open spec fn expect_int_spec(v: SValue) -> Result<i64, Seq<char>> {
    match v {
        SValue::Int(x) => Ok(x),
        _ => Err("expected Int"@),
    }
}

pub open spec fn expect_bool_spec(v: SValue) -> Result<bool, Seq<char>> {
    match v {
        SValue::Bool(b) => Ok(b),
        _ => Err("expected Bool"@),
    }
}

/// An integer result, or an error where it does not fit in 64 bits.
pub open spec fn int_result(x: int) -> SRes {
    if i64::MIN <= x <= i64::MAX {
        Ok(SValue::Int(x as i64))
    } else {
        Err("integer overflow"@)
    }
}

pub open spec fn abs(x: int) -> int {
    if x < 0 {
        -x
    } else {
        x
    }
}

/// Division that rounds toward zero.
pub open spec fn trunc_div(a: int, b: int) -> int {
    if (a < 0) != (b < 0) {
        -(abs(a) / abs(b))
    } else {
        abs(a) / abs(b)
    }
}

/// The remainder that goes with `trunc_div`: it has the sign of `a`.
pub open spec fn trunc_rem(a: int, b: int) -> int {
    if a < 0 {
        -(abs(a) % abs(b))
    } else {
        abs(a) % abs(b)
    }
}

pub open spec fn eval_unary_spec(op: UnaryOp, v: SValue) -> SRes {
    match op {
        UnaryOp::Neg => match expect_int_spec(v) {
            Ok(x) => int_result(-x),
            Err(m) => Err(m),
        },
        UnaryOp::Not => match expect_bool_spec(v) {
            Ok(b) => Ok(SValue::Bool(!b)),
            Err(m) => Err(m),
        },
    }
}

/// Both operands as integers, the left one checked first.
pub open spec fn both_ints(l: SValue, r: SValue) -> Result<(i64, i64), Seq<char>> {
    match expect_int_spec(l) {
        Err(m) => Err(m),
        Ok(a) => match expect_int_spec(r) {
            Err(m) => Err(m),
            Ok(b) => Ok((a, b)),
        },
    }
}

pub open spec fn eval_binary_spec(op: BinaryOp, l: SValue, r: SValue) -> SRes {
    match op {
        BinaryOp::Add => match both_ints(l, r) {
            Err(m) => Err(m),
            Ok((a, b)) => int_result(a + b),
        },
        BinaryOp::Sub => match both_ints(l, r) {
            Err(m) => Err(m),
            Ok((a, b)) => int_result(a - b),
        },
        BinaryOp::Mul => match both_ints(l, r) {
            Err(m) => Err(m),
            Ok((a, b)) => int_result(a * b),
        },
        BinaryOp::Div => match expect_int_spec(r) {
            Err(m) => Err(m),
            Ok(b) => if b == 0 {
                Err("division by zero"@)
            } else {
                match expect_int_spec(l) {
                    Err(m) => Err(m),
                    Ok(a) => int_result(trunc_div(a as int, b as int)),
                }
            },
        },
        BinaryOp::Mod => match expect_int_spec(r) {
            Err(m) => Err(m),
            Ok(b) => if b == 0 {
                Err("mod by zero"@)
            } else {
                match expect_int_spec(l) {
                    Err(m) => Err(m),
                    Ok(a) => if a == i64::MIN && b == -1 {
                        Err("integer overflow"@)
                    } else {
                        int_result(trunc_rem(a as int, b as int))
                    },
                }
            },
        },
        BinaryOp::Eq => match equal_values_spec(l, r) {
            Err(m) => Err(m),
            Ok(b) => Ok(SValue::Bool(b)),
        },
        BinaryOp::Neq => match equal_values_spec(l, r) {
            Err(m) => Err(m),
            Ok(b) => Ok(SValue::Bool(!b)),
        },
        BinaryOp::Lt => match both_ints(l, r) {
            Err(m) => Err(m),
            Ok((a, b)) => Ok(SValue::Bool(a < b)),
        },
        BinaryOp::Lte => match both_ints(l, r) {
            Err(m) => Err(m),
            Ok((a, b)) => Ok(SValue::Bool(a <= b)),
        },
        BinaryOp::Gt => match both_ints(l, r) {
            Err(m) => Err(m),
            Ok((a, b)) => Ok(SValue::Bool(a > b)),
        },
        BinaryOp::Gte => match both_ints(l, r) {
            Err(m) => Err(m),
            Ok((a, b)) => Ok(SValue::Bool(a >= b)),
        },
        _ => Err("internal: short-circuit handled"@),
    }
}

/// The inclusive list of integers from `a` to `b`.
pub open spec fn range_values(a: i64, b: i64) -> Seq<SValue> {
    Seq::new(
        if a <= b {
            (b - a + 1) as nat
        } else {
            0
        },
        |i: int| SValue::Int((a + i) as i64),
    )
}

pub open spec fn range_result(l: SValue, r: SValue) -> SRes {
    match both_ints(l, r) {
        Err(m) => Err(m),
        Ok((a, b)) => Ok(SValue::List(range_values(a, b))),
    }
}

/// Whether a compare pattern's operator holds, or `None` for an operator
/// that is not a comparison.
pub open spec fn compare_spec(op: BinaryOp, a: i64, b: i64) -> Option<bool> {
    match op {
        BinaryOp::Lt => Some(a < b),
        BinaryOp::Lte => Some(a <= b),
        BinaryOp::Gt => Some(a > b),
        BinaryOp::Gte => Some(a >= b),
        _ => None,
    }
}

// ---------------------------------------------------------------------------
// Messages.
/// `{:?}` of a list of strings.
pub open spec fn debug_join(xs: Seq<Seq<char>>) -> Seq<char>
    decreases xs.len(),
{
    if xs.len() == 0 {
        Seq::empty()
    } else if xs.len() == 1 {
        debug_text(xs[0])
    } else {
        debug_join(xs.drop_last()) + ", "@ + debug_text(xs.last())
    }
}

pub open spec fn debug_list(xs: Seq<Seq<char>>) -> Seq<char> {
    "["@ + debug_join(xs) + "]"@
}

pub open spec fn arity_message(f: Seq<char>, expected: nat, got: nat) -> Seq<char> {
    "function '"@ + f + "' expects "@ + decimal(expected) + " args, got "@ + decimal(got)
}

// ---------------------------------------------------------------------------
// Constructors.
pub open spec fn field_names(fs: Seq<(Seq<char>, SValue)>) -> Seq<Seq<char>> {
    Seq::new(fs.len(), |i: int| fs[i].0)
}

/// The declared fields that a constructor does not give, in declared order.
pub open spec fn missing_fields(expected: Seq<Seq<char>>, given: Seq<Seq<char>>) -> Seq<Seq<char>>
    decreases expected.len(),
{
    if expected.len() == 0 {
        Seq::empty()
    } else {
        missing_fields(expected.drop_last(), given) + if given.contains(expected.last()) {
            Seq::empty()
        } else {
            seq![expected.last()]
        }
    }
}

/// The given fields that the variant does not declare, in name order.
pub open spec fn extra_fields(given: Seq<Seq<char>>, expected: Seq<Seq<char>>) -> Seq<Seq<char>>
    decreases given.len(),
{
    if given.len() == 0 {
        Seq::empty()
    } else {
        extra_fields(given.drop_last(), expected) + if expected.contains(given.last()) {
            Seq::empty()
        } else {
            seq![given.last()]
        }
    }
}

/// A constructed variant, checked against its data definition.
pub open spec fn construct_result(n: Seq<char>, given: Seq<(Seq<char>, SValue)>, env: SEnv) -> SRes {
    match find_ctor(env.ctors, n) {
        None => Err("unknown constructor '"@ + n + "'"@),
        Some(expected) => {
            let missing = missing_fields(expected, field_names(given));
            let extra = extra_fields(field_names(given), expected);
            if missing.len() > 0 {
                Err("constructor '"@ + n + "' missing fields "@ + debug_list(missing))
            } else if extra.len() > 0 {
                Err("constructor '"@ + n + "' has unknown fields "@ + debug_list(extra))
            } else {
                Ok(SValue::Variant { name: n, fields: given })
            }
        },
    }
}

proof fn lemma_missing_fields(expected: Seq<Seq<char>>, given: Seq<Seq<char>>)
    ensures
        missing_fields(expected, given).len() == 0 <==> forall|i: int|
            0 <= i < expected.len() ==> given.contains(#[trigger] expected[i]),
    decreases expected.len(),
{
    if expected.len() > 0 {
        let front = expected.drop_last();
        lemma_missing_fields(front, given);
        assert forall|i: int| 0 <= i < front.len() implies #[trigger] front[i] == expected[i] by {}
        if missing_fields(expected, given).len() == 0 {
            assert forall|i: int| 0 <= i < expected.len() implies given.contains(#[trigger] expected[i]) by {
                if i < front.len() {
                    assert(front[i] == expected[i]);
                }
            }
        }
    }
}

proof fn lemma_extra_fields(given: Seq<Seq<char>>, expected: Seq<Seq<char>>)
    ensures
        extra_fields(given, expected).len() == 0 <==> forall|i: int|
            0 <= i < given.len() ==> expected.contains(#[trigger] given[i]),
    decreases given.len(),
{
    if given.len() > 0 {
        let front = given.drop_last();
        lemma_extra_fields(front, expected);
        assert forall|i: int| 0 <= i < front.len() implies #[trigger] front[i] == given[i] by {}
        if extra_fields(given, expected).len() == 0 {
            assert forall|i: int| 0 <= i < given.len() implies expected.contains(#[trigger] given[i]) by {
                if i < front.len() {
                    assert(front[i] == given[i]);
                }
            }
        }
    }
}

/// `||` and `&&` read their right operand only when the left one does not
/// decide the answer: `true || r` is `true` and `false && r` is `false`,
/// without evaluating `r` (no host call is made for it); `false || r` and
/// `true && r` are the value of `r` where that is a boolean. A left operand
/// that is no boolean is an error.
pub proof fn law_logical_operators(
    op: BinaryOp,
    l: CExpr,
    r: CExpr,
    env: SEnv,
    locals: SLocals,
    depth: nat,
    ans: Answers,
    pos: int,
)
    requires
        op == BinaryOp::Or || op == BinaryOp::And,
    ensures
        ev(l, env, locals, depth, ans, pos).0 == Ok::<SValue, Seq<char>>(SValue::Bool(op == BinaryOp::Or))
            ==> ev(CExpr::Binary { op, left: Box::new(l), right: Box::new(r) }, env, locals, depth, ans, pos)
            == (Ok::<SValue, Seq<char>>(SValue::Bool(op == BinaryOp::Or)), ev(l, env, locals, depth, ans, pos).1),
        ev(l, env, locals, depth, ans, pos).0 == Ok::<SValue, Seq<char>>(SValue::Bool(op == BinaryOp::And))
            && ev(r, env, locals, depth, ans, ev(l, env, locals, depth, ans, pos).1).0 is Ok
            && ev(r, env, locals, depth, ans, ev(l, env, locals, depth, ans, pos).1).0->Ok_0 is Bool
            ==> ev(CExpr::Binary { op, left: Box::new(l), right: Box::new(r) }, env, locals, depth, ans, pos)
            == ev(r, env, locals, depth, ans, ev(l, env, locals, depth, ans, pos).1),
        ev(l, env, locals, depth, ans, pos).0 is Ok && !(ev(l, env, locals, depth, ans, pos).0->Ok_0 is Bool)
            ==> ev(CExpr::Binary { op, left: Box::new(l), right: Box::new(r) }, env, locals, depth, ans, pos).0
            == Err::<SValue, Seq<char>>("expected Bool"@),
{
}

/// The arithmetic and comparison operators on integers mean what they
/// spell: `+`, `-` and `*` give the exact result where it fits in 64 bits
/// and an overflow error otherwise; `<`, `<=`, `>`, `>=`, `==` and `!=`
/// compare the two numbers.
pub proof fn law_integer_operators(a: i64, b: i64)
    ensures
        eval_binary_spec(BinaryOp::Add, SValue::Int(a), SValue::Int(b)) == if i64::MIN <= a + b
            <= i64::MAX {
            Ok::<SValue, Seq<char>>(SValue::Int((a + b) as i64))
        } else {
            Err("integer overflow"@)
        },
        eval_binary_spec(BinaryOp::Sub, SValue::Int(a), SValue::Int(b)) == if i64::MIN <= a - b
            <= i64::MAX {
            Ok::<SValue, Seq<char>>(SValue::Int((a - b) as i64))
        } else {
            Err("integer overflow"@)
        },
        eval_binary_spec(BinaryOp::Mul, SValue::Int(a), SValue::Int(b)) == if i64::MIN <= a * b
            <= i64::MAX {
            Ok::<SValue, Seq<char>>(SValue::Int((a * b) as i64))
        } else {
            Err("integer overflow"@)
        },
        eval_binary_spec(BinaryOp::Lt, SValue::Int(a), SValue::Int(b)) == Ok::<SValue, Seq<char>>(
            SValue::Bool(a < b),
        ),
        eval_binary_spec(BinaryOp::Lte, SValue::Int(a), SValue::Int(b)) == Ok::<SValue, Seq<char>>(
            SValue::Bool(a <= b),
        ),
        eval_binary_spec(BinaryOp::Gt, SValue::Int(a), SValue::Int(b)) == Ok::<SValue, Seq<char>>(
            SValue::Bool(a > b),
        ),
        eval_binary_spec(BinaryOp::Gte, SValue::Int(a), SValue::Int(b)) == Ok::<SValue, Seq<char>>(
            SValue::Bool(a >= b),
        ),
        eval_binary_spec(BinaryOp::Eq, SValue::Int(a), SValue::Int(b)) == Ok::<SValue, Seq<char>>(
            SValue::Bool(a == b),
        ),
        eval_binary_spec(BinaryOp::Neq, SValue::Int(a), SValue::Int(b)) == Ok::<SValue, Seq<char>>(
            SValue::Bool(a != b),
        ),
{
}

/// `if` evaluates its condition, then only the branch it selects: the
/// `then` branch when the condition is `true`, the `else` branch when it is
/// `false`; a condition that is no boolean is an error.
pub proof fn law_if_selects_branch(
    c: CExpr,
    t: CExpr,
    f: CExpr,
    env: SEnv,
    locals: SLocals,
    depth: nat,
    ans: Answers,
    pos: int,
)
    ensures
        ev(c, env, locals, depth, ans, pos).0 == Ok::<SValue, Seq<char>>(SValue::Bool(true)) ==> ev(
            CExpr::If { cond: Box::new(c), then_branch: Box::new(t), else_branch: Box::new(f) },
            env,
            locals,
            depth,
            ans,
            pos,
        ) == ev(t, env, locals, depth, ans, ev(c, env, locals, depth, ans, pos).1),
        ev(c, env, locals, depth, ans, pos).0 == Ok::<SValue, Seq<char>>(SValue::Bool(false)) ==> ev(
            CExpr::If { cond: Box::new(c), then_branch: Box::new(t), else_branch: Box::new(f) },
            env,
            locals,
            depth,
            ans,
            pos,
        ) == ev(f, env, locals, depth, ans, ev(c, env, locals, depth, ans, pos).1),
        ev(c, env, locals, depth, ans, pos).0 is Ok && !(ev(c, env, locals, depth, ans, pos).0->Ok_0 is Bool)
            ==> ev(
            CExpr::If { cond: Box::new(c), then_branch: Box::new(t), else_branch: Box::new(f) },
            env,
            locals,
            depth,
            ans,
            pos,
        ).0 == Err::<SValue, Seq<char>>("expected Bool"@),
{
}

/// `-` negates an integer (an overflow error for the one integer whose
/// negation does not fit) and `!` negates a boolean.
pub proof fn law_unary_operators(a: i64, b: bool)
    ensures
        eval_unary_spec(UnaryOp::Neg, SValue::Int(a)) == if a == i64::MIN {
            Err::<SValue, Seq<char>>("integer overflow"@)
        } else {
            Ok(SValue::Int(-a as i64))
        },
        eval_unary_spec(UnaryOp::Not, SValue::Bool(b)) == Ok::<SValue, Seq<char>>(SValue::Bool(!b)),
{
}

/// Division and remainder go together as the quotient rounded toward zero
/// and the remainder with the sign of the dividend: `a == q * b + m` with
/// `|m| < |b|`, and `m` is zero or has the sign of `a`. Dividing by zero is
/// an error, and so is the one quotient that does not fit (`i64::MIN / -1`).
pub proof fn law_division_and_remainder(a: i64, b: i64)
    ensures
        b == 0 ==> eval_binary_spec(BinaryOp::Div, SValue::Int(a), SValue::Int(b)) == Err::<
            SValue,
            Seq<char>,
        >("division by zero"@),
        b == 0 ==> eval_binary_spec(BinaryOp::Mod, SValue::Int(a), SValue::Int(b)) == Err::<
            SValue,
            Seq<char>,
        >("mod by zero"@),
        a == i64::MIN && b == -1 ==> eval_binary_spec(BinaryOp::Div, SValue::Int(a), SValue::Int(b))
            == Err::<SValue, Seq<char>>("integer overflow"@),
        b != 0 && !(a == i64::MIN && b == -1) ==> {
            &&& eval_binary_spec(BinaryOp::Div, SValue::Int(a), SValue::Int(b)) is Ok
            &&& eval_binary_spec(BinaryOp::Mod, SValue::Int(a), SValue::Int(b)) is Ok
            &&& eval_binary_spec(BinaryOp::Div, SValue::Int(a), SValue::Int(b))->Ok_0 is Int
            &&& eval_binary_spec(BinaryOp::Mod, SValue::Int(a), SValue::Int(b))->Ok_0 is Int
            &&& {
                let q = eval_binary_spec(BinaryOp::Div, SValue::Int(a), SValue::Int(b))->Ok_0->Int_0;
                let m = eval_binary_spec(BinaryOp::Mod, SValue::Int(a), SValue::Int(b))->Ok_0->Int_0;
                &&& a == q * b + m
                &&& abs(m as int) < abs(b as int)
                &&& (m == 0 || (m < 0) == (a < 0))
            }
        },
{
    if b != 0 && !(a == i64::MIN && b == -1) {
        let x = abs(a as int);
        let y = abs(b as int);
        let qq = x / y;
        let rr = x % y;
        assert(x == qq * y + rr && 0 <= rr < y) by (nonlinear_arith)
            requires
                y > 0,
                x >= 0,
                qq == x / y,
                rr == x % y,
        ;
        assert(0 <= qq <= x) by (nonlinear_arith)
            requires
                y >= 1,
                x >= 0,
                qq == x / y,
        ;
        let q = trunc_div(a as int, b as int);
        let m = trunc_rem(a as int, b as int);
        assert(i64::MIN <= q <= i64::MAX) by {
            if y == 1 {
                assert(qq == x) by (nonlinear_arith)
                    requires
                        y == 1,
                        qq == x / y,
                ;
            } else {
                assert(qq * 2 <= x) by (nonlinear_arith)
                    requires
                        y >= 2,
                        x >= 0,
                        x == qq * y + rr,
                        rr >= 0,
                        qq >= 0,
                ;
            }
        }
        assert(a == q * b + m) by (nonlinear_arith)
            requires
                x == qq * y + rr,
                x == abs(a as int),
                y == abs(b as int),
                q == (if (a < 0) != (b < 0) { -qq } else { qq }),
                m == (if a < 0 { -rr } else { rr }),
        ;
    }
}

/// `[a..b]` is the list of the integers from `a` to `b`, both included, in
/// increasing order (empty when `a > b`).
pub proof fn law_range_lists_the_integers_between(a: i64, b: i64)
    ensures
        range_result(SValue::Int(a), SValue::Int(b)) is Ok,
        range_result(SValue::Int(a), SValue::Int(b))->Ok_0 is List,
        range_result(SValue::Int(a), SValue::Int(b))->Ok_0->List_0.len() == if a <= b {
            b - a + 1
        } else {
            0
        },
        forall|i: int|
            0 <= i < range_result(SValue::Int(a), SValue::Int(b))->Ok_0->List_0.len() ==> #[trigger] range_result(
                SValue::Int(a),
                SValue::Int(b),
            )->Ok_0->List_0[i] == SValue::Int((a + i) as i64) && a <= a + i <= b,
{
}

/// A comparison pattern `op x` matches an integer `v` when `v op x` holds,
/// with the scrutinee on the left: `>= 10` matches the integers from 10 up.
pub proof fn law_compare_pattern_puts_the_value_first(
    op: BinaryOp,
    x: CExpr,
    v: i64,
    env: SEnv,
    locals: SLocals,
    depth: nat,
    ans: Answers,
    pos: int,
)
    requires
        ev(x, env, locals, depth, ans, pos).0 matches Ok(SValue::Int(_)),
    ensures
        ev_pattern(CPattern::Compare { op, expr: x }, SValue::Int(v), env, locals, depth, ans, pos).1
            == ev(x, env, locals, depth, ans, pos).1,
        ({
            let n = ev(x, env, locals, depth, ans, pos).0->Ok_0->Int_0;
            let r = ev_pattern(CPattern::Compare { op, expr: x }, SValue::Int(v), env, locals, depth, ans, pos).0;
            &&& op == BinaryOp::Lt ==> r == Ok::<Option<SLocals>, Seq<char>>(no_binds(v < n))
            &&& op == BinaryOp::Lte ==> r == Ok::<Option<SLocals>, Seq<char>>(no_binds(v <= n))
            &&& op == BinaryOp::Gt ==> r == Ok::<Option<SLocals>, Seq<char>>(no_binds(v > n))
            &&& op == BinaryOp::Gte ==> r == Ok::<Option<SLocals>, Seq<char>>(no_binds(v >= n))
            &&& no_binds(true) == Some(Seq::<(Seq<char>, SValue)>::empty())
            &&& no_binds(false) is None
        }),
{
}

/// A `match` takes the first arm whose pattern matches: a wildcard arm
/// first means its body, evaluated with no new bindings; an arm whose
/// pattern does not match is passed over for the ones after it; and with
/// no arm left nothing matched.
pub proof fn law_match_takes_first_matching_arm(
    arms: Seq<CArm>,
    v: SValue,
    env: SEnv,
    locals: SLocals,
    depth: nat,
    ans: Answers,
    pos: int,
)
    ensures
        arms.len() == 0 ==> ev_arms(arms, v, env, locals, depth, ans, pos) == (
            Err::<SValue, Seq<char>>("no match arm matched"@),
            pos,
        ),
        arms.len() > 0 && arms[0].pattern is Wildcard ==> ev_arms(arms, v, env, locals, depth, ans, pos)
            == ev(arms[0].body, env, locals, depth, ans, pos),
        arms.len() > 0 && ev_pattern(arms[0].pattern, v, env, locals, depth, ans, pos).0 == Ok::<
            Option<SLocals>,
            Seq<char>,
        >(None) ==> ev_arms(arms, v, env, locals, depth, ans, pos) == ev_arms(
            arms.drop_first(),
            v,
            env,
            locals,
            depth,
            ans,
            ev_pattern(arms[0].pattern, v, env, locals, depth, ans, pos).1,
        ),
{
    if arms.len() > 0 {
        assert(arms.drop_first() =~= arms.subrange(1, arms.len() as int));
        assert(locals + Seq::<(Seq<char>, SValue)>::empty() =~= locals);
    }
}

/// The innermost binding of a name is the one it reads: binding a name
/// hides its earlier bindings, and leaves every other name as it was.
pub proof fn law_innermost_binding_is_read(
    bs: SLocals,
    n: Seq<char>,
    m: Seq<char>,
    v: SValue,
    env: SEnv,
)
    ensures
        find_binding(bs.push((n, v)), n) == Some(v),
        lookup_var_spec(n, env, bs.push((n, v))) == Ok::<SValue, Seq<char>>(v),
        m != n ==> find_binding(bs.push((n, v)), m) == find_binding(bs, m),
{
    assert(bs.push((n, v)).drop_last() =~= bs);
}

/// Constructing a variant from evaluated fields succeeds exactly when the
/// variant is declared and the fields given are the fields it declares,
/// and then gives the variant with those fields. An undeclared variant is
/// an unknown constructor; otherwise a declared field not given is
/// reported first, then a given field not declared.
pub proof fn law_constructor_fields(n: Seq<char>, given: Seq<(Seq<char>, SValue)>, env: SEnv)
    ensures
        construct_result(n, given, env) is Ok <==> (find_ctor(env.ctors, n) matches Some(expected) && (
        forall|f: Seq<char>| expected.contains(f) <==> field_names(given).contains(f))),
        construct_result(n, given, env) is Ok ==> construct_result(n, given, env) == Ok::<
            SValue,
            Seq<char>,
        >(SValue::Variant { name: n, fields: given }),
        find_ctor(env.ctors, n) is None ==> construct_result(n, given, env) == Err::<SValue, Seq<char>>(
            "unknown constructor '"@ + n + "'"@,
        ),
        match find_ctor(env.ctors, n) {
            Some(expected) => {
                &&& (exists|f: Seq<char>| expected.contains(f) && !field_names(given).contains(f))
                    ==> construct_result(n, given, env) == Err::<SValue, Seq<char>>(
                    "constructor '"@ + n + "' missing fields "@ + debug_list(
                        missing_fields(expected, field_names(given)),
                    ),
                )
                &&& (forall|f: Seq<char>| expected.contains(f) ==> field_names(given).contains(f))
                    && (exists|f: Seq<char>| field_names(given).contains(f) && !expected.contains(f))
                    ==> construct_result(n, given, env) == Err::<SValue, Seq<char>>(
                    "constructor '"@ + n + "' has unknown fields "@ + debug_list(
                        extra_fields(field_names(given), expected),
                    ),
                )
            },
            None => true,
        },
{
    match find_ctor(env.ctors, n) {
        Some(expected) => {
            let names = field_names(given);
            lemma_missing_fields(expected, names);
            lemma_extra_fields(names, expected);
            assert((forall|f: Seq<char>| expected.contains(f) ==> names.contains(f)) <==> (forall|i: int|
                0 <= i < expected.len() ==> names.contains(#[trigger] expected[i])));
            assert((forall|f: Seq<char>| names.contains(f) ==> expected.contains(f)) <==> (forall|i: int|
                0 <= i < names.len() ==> expected.contains(#[trigger] names[i])));
        },
        None => {},
    }
}

// ---------------------------------------------------------------------------
// Patterns.
/// The bindings of a variant pattern's fields, or `None` where the value
/// lacks one of the fields.
pub open spec fn bind_fields(ps: Seq<(Seq<char>, Option<Seq<char>>)>, fs: Seq<(Seq<char>, SValue)>) -> Option<
    SLocals,
>
    decreases ps.len(),
{
    if ps.len() == 0 {
        Some(Seq::empty())
    } else {
        match find_field(fs, ps[0].0) {
            None => None,
            Some(v) => match bind_fields(ps.drop_first(), fs) {
                None => None,
                Some(bs) => Some(
                    match ps[0].1 {
                        Some(b) => seq![(b, v)] + bs,
                        None => bs,
                    },
                ),
            },
        }
    }
}

pub open spec fn variant_match(n: Seq<char>, ps: Seq<(Seq<char>, Option<Seq<char>>)>, v: SValue) -> Option<
    SLocals,
> {
    match v {
        SValue::Variant { name, fields } => if name == n {
            bind_fields(ps, fields)
        } else {
            None
        },
        _ => None,
    }
}

/// The parameters of a function bound to the arguments of a call.
pub open spec fn bind_params(ps: Seq<Seq<char>>, vs: Seq<SValue>) -> SLocals {
    Seq::new(ps.len(), |i: int| (ps[i], vs[i]))
}

// ---------------------------------------------------------------------------
// Evaluation. Each function returns its result and the number of host
// answers used so far.
/// The value of an expression.
pub open spec fn ev(e: CExpr, env: SEnv, locals: SLocals, depth: nat, ans: Answers, pos: int) -> (
    SRes,
    int,
)
    decreases depth, e, 2nat, 0nat, 0nat,
{
    match e {
        CExpr::Int(v) => (Ok(SValue::Int(v)), pos),
        CExpr::Bool(b) => (Ok(SValue::Bool(b)), pos),
        CExpr::Str(s) => (Ok(SValue::Str(s)), pos),
        CExpr::Bytes(b) => (Ok(SValue::Bytes(b)), pos),
        CExpr::List(items) => match ev_list(items, env, locals, depth, ans, pos) {
            (Err(m), p) => (Err(m), p),
            (Ok(vs), p) => (Ok(SValue::List(vs)), p),
        },
        CExpr::RangeList { .. } => ev_range(e, env, locals, depth, ans, pos),
        CExpr::Dict(entries) => match ev_entries(entries, Seq::empty(), env, locals, depth, ans, pos) {
            (Err(m), p) => (Err(m), p),
            (Ok(d), p) => (Ok(SValue::Dict(d)), p),
        },
        CExpr::Var(n) => (lookup_var_spec(n, env, locals), pos),
        CExpr::Construct { .. } => ev_construct(e, env, locals, depth, ans, pos),
        CExpr::For { .. } => ev_for_expr(e, env, locals, depth, ans, pos),
        CExpr::Unary { .. } => ev_unary(e, env, locals, depth, ans, pos),
        CExpr::Binary { .. } => ev_binary(e, env, locals, depth, ans, pos),
        CExpr::If { .. } => ev_if(e, env, locals, depth, ans, pos),
        CExpr::Call { .. } => ev_call_expr(e, env, locals, depth, ans, pos),
        CExpr::Match { .. } => ev_match(e, env, locals, depth, ans, pos),
    }
}

/// `[start..end]`: both ends, then the list between them.
pub open spec fn ev_range(e: CExpr, env: SEnv, locals: SLocals, depth: nat, ans: Answers, pos: int) -> (
    SRes,
    int,
)
    decreases depth, e, 1nat, 0nat, 0nat,
{
    match e {
        CExpr::RangeList { start, end } => match ev(*start, env, locals, depth, ans, pos) {
            (Err(m), p) => (Err(m), p),
            (Ok(a), p1) => match ev(*end, env, locals, depth, ans, p1) {
                (Err(m), p) => (Err(m), p),
                (Ok(b), p2) => (range_result(a, b), p2),
            },
        },
        _ => (Err(Seq::empty()), pos),
    }
}

/// A constructor: its fields, then the check against its definition.
pub open spec fn ev_construct(e: CExpr, env: SEnv, locals: SLocals, depth: nat, ans: Answers, pos: int) -> (
    SRes,
    int,
)
    decreases depth, e, 1nat, 0nat, 0nat,
{
    match e {
        CExpr::Construct { name, fields } => match ev_fields(
            fields,
            Seq::empty(),
            env,
            locals,
            depth,
            ans,
            pos,
        ) {
            (Err(m), p) => (Err(m), p),
            (Ok(given), p) => (construct_result(name, given, env), p),
        },
        _ => (Err(Seq::empty()), pos),
    }
}

/// A `for` expression: its list, then its body for each item.
pub open spec fn ev_for_expr(e: CExpr, env: SEnv, locals: SLocals, depth: nat, ans: Answers, pos: int) -> (
    SRes,
    int,
)
    decreases depth, e, 1nat, 0nat, 0nat,
{
    match e {
        CExpr::For { iter, .. } => match ev(*iter, env, locals, depth, ans, pos) {
            (Err(m), p) => (Err(m), p),
            (Ok(SValue::List(items)), p) => match ev_for(e, items, env, locals, depth, ans, p) {
                (Err(m), p2) => (Err(m), p2),
                (Ok(vs), p2) => (Ok(SValue::List(vs)), p2),
            },
            (Ok(_), p) => (Err("for expects a List"@), p),
        },
        _ => (Err(Seq::empty()), pos),
    }
}

pub open spec fn ev_unary(e: CExpr, env: SEnv, locals: SLocals, depth: nat, ans: Answers, pos: int) -> (
    SRes,
    int,
)
    decreases depth, e, 1nat, 0nat, 0nat,
{
    match e {
        CExpr::Unary { op, expr } => match ev(*expr, env, locals, depth, ans, pos) {
            (Err(m), p) => (Err(m), p),
            (Ok(v), p) => (eval_unary_spec(op, v), p),
        },
        _ => (Err(Seq::empty()), pos),
    }
}

/// A binary expression; `&&` and `||` look at their right operand only
/// where the left one does not decide.
pub open spec fn ev_binary(e: CExpr, env: SEnv, locals: SLocals, depth: nat, ans: Answers, pos: int) -> (
    SRes,
    int,
)
    decreases depth, e, 1nat, 0nat, 0nat,
{
    match e {
        CExpr::Binary { op, left, right } => match ev(*left, env, locals, depth, ans, pos) {
            (Err(m), p) => (Err(m), p),
            (Ok(a), p1) => if op == BinaryOp::And || op == BinaryOp::Or {
                match expect_bool_spec(a) {
                    Err(m) => (Err(m), p1),
                    Ok(x) => if (op == BinaryOp::And && !x) || (op == BinaryOp::Or && x) {
                        (Ok(SValue::Bool(x)), p1)
                    } else {
                        match ev(*right, env, locals, depth, ans, p1) {
                            (Err(m), p) => (Err(m), p),
                            (Ok(b), p2) => match expect_bool_spec(b) {
                                Err(m) => (Err(m), p2),
                                Ok(y) => (Ok(SValue::Bool(y)), p2),
                            },
                        }
                    },
                }
            } else {
                match ev(*right, env, locals, depth, ans, p1) {
                    (Err(m), p) => (Err(m), p),
                    (Ok(b), p2) => (eval_binary_spec(op, a, b), p2),
                }
            },
        },
        _ => (Err(Seq::empty()), pos),
    }
}

pub open spec fn ev_if(e: CExpr, env: SEnv, locals: SLocals, depth: nat, ans: Answers, pos: int) -> (
    SRes,
    int,
)
    decreases depth, e, 1nat, 0nat, 0nat,
{
    match e {
        CExpr::If { cond, then_branch, else_branch } => match ev(*cond, env, locals, depth, ans, pos) {
            (Err(m), p) => (Err(m), p),
            (Ok(c), p1) => match expect_bool_spec(c) {
                Err(m) => (Err(m), p1),
                Ok(true) => ev(*then_branch, env, locals, depth, ans, p1),
                Ok(false) => ev(*else_branch, env, locals, depth, ans, p1),
            },
        },
        _ => (Err(Seq::empty()), pos),
    }
}

/// A call expression: its arguments, then the call.
pub open spec fn ev_call_expr(e: CExpr, env: SEnv, locals: SLocals, depth: nat, ans: Answers, pos: int) -> (
    SRes,
    int,
)
    decreases depth, e, 1nat, 0nat, 0nat,
{
    match e {
        CExpr::Call { args, .. } => match ev_list(args, env, locals, depth, ans, pos) {
            (Err(m), p) => (Err(m), p),
            (Ok(vs), p) => ev_call(e, vs, env, depth, ans, p),
        },
        _ => (Err(Seq::empty()), pos),
    }
}

/// A match expression: its scrutinee, then its arms.
pub open spec fn ev_match(e: CExpr, env: SEnv, locals: SLocals, depth: nat, ans: Answers, pos: int) -> (
    SRes,
    int,
)
    decreases depth, e, 1nat, 0nat, 0nat,
{
    match e {
        CExpr::Match { scrutinee, arms } => match ev(*scrutinee, env, locals, depth, ans, pos) {
            (Err(m), p) => (Err(m), p),
            (Ok(v), p) => ev_arms(arms, v, env, locals, depth, ans, p),
        },
        _ => (Err(Seq::empty()), pos),
    }
}

/// The values of a list of expressions, left to right.
pub open spec fn ev_list(items: Seq<CExpr>, env: SEnv, locals: SLocals, depth: nat, ans: Answers, pos: int) -> (
    Result<Seq<SValue>, Seq<char>>,
    int,
)
    decreases depth, items, 2nat, 0nat, 0nat,
{
    if items.len() == 0 {
        (Ok(Seq::empty()), pos)
    } else {
        match ev(items[0], env, locals, depth, ans, pos) {
            (Err(m), p) => (Err(m), p),
            (Ok(v), p1) => match ev_list(
                items.subrange(1, items.len() as int),
                env,
                locals,
                depth,
                ans,
                p1,
            ) {
                (Err(m), p) => (Err(m), p),
                (Ok(vs), p2) => (Ok(seq![v] + vs), p2),
            },
        }
    }
}

/// A map literal's entries added to `acc`, left to right.
pub open spec fn ev_entries(
    entries: Seq<(CExpr, CExpr)>,
    acc: Seq<(SKey, SValue)>,
    env: SEnv,
    locals: SLocals,
    depth: nat,
    ans: Answers,
    pos: int,
) -> (Result<Seq<(SKey, SValue)>, Seq<char>>, int)
    decreases depth, entries, 2nat, 0nat, 0nat,
{
    if entries.len() == 0 {
        (Ok(acc), pos)
    } else {
        match ev(entries[0].0, env, locals, depth, ans, pos) {
            (Err(m), p) => (Err(m), p),
            (Ok(k), p1) => match ev(entries[0].1, env, locals, depth, ans, p1) {
                (Err(m), p) => (Err(m), p),
                (Ok(v), p2) => match value_to_key_spec(k) {
                    Err(m) => (Err(m), p2),
                    Ok(key) => ev_entries(
                        entries.subrange(1, entries.len() as int),
                        dict_insert(acc, key, v),
                        env,
                        locals,
                        depth,
                        ans,
                        p2,
                    ),
                },
            },
        }
    }
}

/// A constructor's fields added to `acc`, left to right.
pub open spec fn ev_fields(
    fields: Seq<(Seq<char>, CExpr)>,
    acc: Seq<(Seq<char>, SValue)>,
    env: SEnv,
    locals: SLocals,
    depth: nat,
    ans: Answers,
    pos: int,
) -> (Result<Seq<(Seq<char>, SValue)>, Seq<char>>, int)
    decreases depth, fields, 2nat, 0nat, 0nat,
{
    if fields.len() == 0 {
        (Ok(acc), pos)
    } else {
        match ev(fields[0].1, env, locals, depth, ans, pos) {
            (Err(m), p) => (Err(m), p),
            (Ok(v), p1) => ev_fields(
                fields.subrange(1, fields.len() as int),
                field_insert(acc, fields[0].0, v),
                env,
                locals,
                depth,
                ans,
                p1,
            ),
        }
    }
}

/// The body of a `for` expression `e` for each of the items, left to right;
/// an item whose guard is false gives nothing.
pub open spec fn ev_for(
    e: CExpr,
    items: Seq<SValue>,
    env: SEnv,
    locals: SLocals,
    depth: nat,
    ans: Answers,
    pos: int,
) -> (Result<Seq<SValue>, Seq<char>>, int)
    decreases depth, e, 0nat, items.len(), 0nat,
{
    match e {
        CExpr::For { name, iter, guard, body } => if items.len() == 0 {
            (Ok(Seq::empty()), pos)
        } else {
            let inner = locals.push((name, items[0]));
            let rest = items.subrange(1, items.len() as int);
            let g: (Result<bool, Seq<char>>, int) = match guard {
                None => (Ok(true), pos),
                Some(g) => match ev(*g, env, inner, depth, ans, pos) {
                    (Err(m), p) => (Err(m), p),
                    (Ok(gv), p) => (expect_bool_spec(gv), p),
                },
            };
            match g {
                (Err(m), p) => (Err(m), p),
                (Ok(false), p) => ev_for(e, rest, env, locals, depth, ans, p),
                (Ok(true), p) => match ev(*body, env, inner, depth, ans, p) {
                    (Err(m), p1) => (Err(m), p1),
                    (Ok(v), p1) => match ev_for(e, rest, env, locals, depth, ans, p1) {
                        (Err(m), p2) => (Err(m), p2),
                        (Ok(vs), p2) => (Ok(seq![v] + vs), p2),
                    },
                },
            }
        },
        _ => (Ok(Seq::empty()), pos),
    }
}

/// A call `e` with its arguments evaluated: a function of the program, a
/// host function, or an error.
pub open spec fn ev_call(e: CExpr, args: Seq<SValue>, env: SEnv, depth: nat, ans: Answers, pos: int) -> (
    SRes,
    int,
)
    decreases depth, e, 0nat, 0nat, 0nat,
{
    match e {
        CExpr::Call { callee, .. } => match find_fn(env.funcs, callee) {
            Some((params, body)) => if params.len() != args.len() {
                (Err(arity_message(callee, params.len(), args.len())), pos)
            } else if depth == 0 {
                (Err("call depth limit exceeded"@), pos)
            } else {
                ev(body, env, bind_params(params, args), (depth - 1) as nat, ans, pos)
            },
            None => if env.builtins.contains(callee) {
                if !env.externs.contains(callee) {
                    (Err("builtin '"@ + callee + "' must be declared extern"@), pos)
                } else {
                    match ans(pos, callee, args) {
                        Some(r) => (r, pos + 1),
                        None => (Err("the host gave no answer"@), pos + 1),
                    }
                }
            } else if env.externs.contains(callee) {
                (Err("extern function '"@ + callee + "' not registered"@), pos)
            } else {
                (Err("unknown function '"@ + callee + "'"@), pos)
            },
        },
        _ => (Err("unknown function"@), pos),
    }
}

/// The first arm whose pattern matches, evaluated with its bindings.
pub open spec fn ev_arms(
    arms: Seq<CArm>,
    v: SValue,
    env: SEnv,
    locals: SLocals,
    depth: nat,
    ans: Answers,
    pos: int,
) -> (SRes, int)
    decreases depth, arms, 2nat, 0nat, 0nat,
{
    if arms.len() == 0 {
        (Err("no match arm matched"@), pos)
    } else {
        match ev_pattern(arms[0].pattern, v, env, locals, depth, ans, pos) {
            (Err(m), p) => (Err(m), p),
            (Ok(None), p) => ev_arms(arms.subrange(1, arms.len() as int), v, env, locals, depth, ans, p),
            (Ok(Some(bs)), p) => ev(arms[0].body, env, locals + bs, depth, ans, p),
        }
    }
}

/// Whether a pattern matches a value, and what it binds.
pub open spec fn ev_pattern(
    pat: CPattern,
    v: SValue,
    env: SEnv,
    locals: SLocals,
    depth: nat,
    ans: Answers,
    pos: int,
) -> (Result<Option<SLocals>, Seq<char>>, int)
    decreases depth, pat, 2nat, 0nat, 0nat,
{
    match pat {
        CPattern::Wildcard => (Ok(Some(Seq::empty())), pos),
        CPattern::Expr(_) => ev_value_pattern(pat, v, env, locals, depth, ans, pos),
        CPattern::Compare { .. } => ev_compare_pattern(pat, v, env, locals, depth, ans, pos),
        CPattern::Variant { name, fields } => (Ok(variant_match(name, fields, v)), pos),
    }
}

/// A match or no match, with no bindings.
pub open spec fn no_binds(b: bool) -> Option<SLocals> {
    if b {
        Some(Seq::empty())
    } else {
        None
    }
}

/// A value pattern matches a value `==` to it.
pub open spec fn ev_value_pattern(
    pat: CPattern,
    v: SValue,
    env: SEnv,
    locals: SLocals,
    depth: nat,
    ans: Answers,
    pos: int,
) -> (Result<Option<SLocals>, Seq<char>>, int)
    decreases depth, pat, 1nat, 0nat, 0nat,
{
    match pat {
        CPattern::Expr(x) => match ev(x, env, locals, depth, ans, pos) {
            (Err(m), p) => (Err(m), p),
            (Ok(expected), p) => match equal_values_spec(v, expected) {
                Err(m) => (Err(m), p),
                Ok(b) => (Ok(no_binds(b)), p),
            },
        },
        _ => (Err(Seq::empty()), pos),
    }
}

/// A comparison pattern matches an integer for which the comparison holds.
pub open spec fn ev_compare_pattern(
    pat: CPattern,
    v: SValue,
    env: SEnv,
    locals: SLocals,
    depth: nat,
    ans: Answers,
    pos: int,
) -> (Result<Option<SLocals>, Seq<char>>, int)
    decreases depth, pat, 1nat, 0nat, 0nat,
{
    match pat {
        CPattern::Compare { op, expr } => match ev(expr, env, locals, depth, ans, pos) {
            (Err(m), p) => (Err(m), p),
            (Ok(rhs), p) => match v {
                SValue::Int(left) => match expect_int_spec(rhs) {
                    Err(m) => (Err(m), p),
                    Ok(right) => match compare_spec(op, left, right) {
                        Some(b) => (Ok(no_binds(b)), p),
                        None => (Err("invalid compare operator"@), p),
                    },
                },
                _ => (Err("compare pattern expects Int"@), p),
            },
        },
        _ => (Err(Seq::empty()), pos),
    }
}

// ---------------------------------------------------------------------------
// Programs.
/// The definitions of a program before any `let` runs.
pub open spec fn program_env(items: Seq<CItem>, builtins: Seq<Seq<char>>) -> SEnv
    decreases items.len(),
{
    if items.len() == 0 {
        SEnv {
            funcs: Seq::empty(),
            externs: Seq::empty(),
            builtins,
            ctors: Seq::empty(),
            globals: Seq::empty(),
        }
    } else {
        let env = program_env(items.drop_last(), builtins);
        match items.last() {
            CItem::Fn { name, params, body } => SEnv { funcs: env.funcs.push((name, params, body)), ..env },
            CItem::ExternFn { name, .. } => SEnv { externs: env.externs.push(name), ..env },
            CItem::Data { variants, .. } => SEnv { ctors: env.ctors + variants, ..env },
            _ => env,
        }
    }
}

/// The `let` items run in order, each adding a global.
pub open spec fn run_lets(items: Seq<CItem>, env: SEnv, ans: Answers, pos: int) -> (
    Result<SEnv, Seq<char>>,
    int,
)
    decreases items.len(),
{
    if items.len() == 0 {
        (Ok(env), pos)
    } else {
        let rest = items.subrange(1, items.len() as int);
        match items[0] {
            CItem::Let { name, expr } => match ev(
                expr,
                env,
                Seq::empty(),
                MAX_CALL_DEPTH as nat,
                ans,
                pos,
            ) {
                (Err(m), p) => (Err(m), p),
                (Ok(v), p) => run_lets(rest, SEnv { globals: env.globals.push((name, v)), ..env }, ans, p),
            },
            _ => run_lets(rest, env, ans, pos),
        }
    }
}

/// The result of a program: the value of its final expression, if it has
/// one, after its `let` items.
pub open spec fn run_program(p: CProgram, builtins: Seq<Seq<char>>, ans: Answers) -> Result<
    Option<SValue>,
    Seq<char>,
> {
    match run_lets(p.items, program_env(p.items, builtins), ans, 0) {
        (Err(m), _) => Err(m),
        (Ok(env), pos) => match p.expr {
            None => Ok(None),
            Some(e) => match ev(e, env, Seq::empty(), MAX_CALL_DEPTH as nat, ans, pos).0 {
                Ok(v) => Ok(Some(v)),
                Err(m) => Err(m),
            },
        },
    }
}

// ---------------------------------------------------------------------------
// The evaluator.
/// A host that provides functions to programs (`extern fn`). What a host
/// function answers is up to the host.
pub trait Builtins {
    /// Whether the host states the names it provides (`spec_names`); a host
    /// that does not promises nothing about them.
    open spec fn states_names(&self) -> bool {
        false
    }

    /// The names of the functions the host provides, where it states them.
    open spec fn spec_names(&self) -> Seq<Seq<char>> {
        Seq::empty()
    }

    /// Whether `r` is an answer the host gives to a call of its function
    /// `name` with the arguments `args`; a host that does not state this
    /// allows any answer.
    open spec fn answers(&self, name: Seq<char>, args: Seq<SValue>, r: SRes) -> bool {
        true
    }

    /// The names of the functions the host provides.
    fn names(&self) -> (r: Vec<String>)
        ensures
            self.states_names() ==> names_view(r@) == self.spec_names(),
    ;

    /// Calls the host function `name` with evaluated arguments.
    fn call(&self, name: &String, args: &Vec<Value>) -> (r: Result<Value, EvalError>)
        ensures
            self.answers(name@, values_view(args@), res_view(r)),
    ;
}

/// The host of a program run without host functions.
struct NoHost;

impl Builtins for NoHost {
    open spec fn states_names(&self) -> bool {
        true
    }

    open spec fn spec_names(&self) -> Seq<Seq<char>> {
        Seq::empty()
    }

    open spec fn answers(&self, name: Seq<char>, args: Seq<SValue>, r: SRes) -> bool {
        r == Err::<SValue, Seq<char>>("no host functions"@)
    }

    fn names(&self) -> (r: Vec<String>)
        ensures
            r@.len() == 0,
    {
        let r = Vec::new();
        proof {
            assert(names_view(r@) =~= Seq::<Seq<char>>::empty());
        }
        r
    }

    fn call(&self, name: &String, args: &Vec<Value>) -> (r: Result<Value, EvalError>)
        ensures
            r matches Err(e) && e.message@ == "no host functions"@,
    {
        Err(EvalError::new("no host functions"))
    }
}

pub open spec fn res_view(r: Result<Value, EvalError>) -> SRes {
    match r {
        Ok(v) => Ok(v@),
        Err(e) => Err(e.message@),
    }
}

pub open spec fn program_res_view(r: Result<Option<Value>, EvalError>) -> Result<
    Option<SValue>,
    Seq<char>,
> {
    match r {
        Ok(Some(v)) => Ok(Some(v@)),
        Ok(None) => Ok(None),
        Err(e) => Err(e.message@),
    }
}

/// An answer sequence that gives the answers of `log` from index `from` on.
pub open spec fn agrees(ans: Answers, log: Seq<HostCall>, from: int) -> bool {
    forall|i: int| from <= i < log.len() ==> ans(i, (#[trigger] log[i]).0, log[i].1) == Some(log[i].2)
}

/// `log2` continues `log1`.
pub open spec fn extends<B: Builtins>(host: &B, log2: Seq<HostCall>, log1: Seq<HostCall>) -> bool {
    &&& log1.len() <= log2.len()
    &&& forall|i: int| #![trigger log2[i]] #![trigger log1[i]] 0 <= i < log1.len() ==> log2[i] == log1[i]
    &&& forall|i: int|
        log1.len() <= i < log2.len() ==> host.answers((#[trigger] log2[i]).0, log2[i].1, log2[i].2)
}

/// The definitions of a running program.
struct EvalContext<'a> {
    globals: Vec<(String, Value)>,
    funcs: Vec<&'a FnDef>,
    externs: Vec<&'a String>,
    builtins: &'a Vec<String>,
    constructors: Vec<&'a DataVariant>,
}

impl<'a> EvalContext<'a> {
    spec fn env(&self) -> SEnv {
        SEnv {
            funcs: Seq::new(
                self.funcs@.len(),
                |i: int| (self.funcs@[i].name@, names_view(self.funcs@[i].params@), self.funcs@[i].body@),
            ),
            externs: Seq::new(self.externs@.len(), |i: int| self.externs@[i]@),
            builtins: names_view(self.builtins@),
            ctors: Seq::new(self.constructors@.len(), |i: int| self.constructors@[i]@),
            globals: value_fields_view(self.globals@),
        }
    }

    /// The last function definition with the given name.
    fn find_fn_def(&self, name: &String) -> (r: Option<&'a FnDef>)
        ensures
            match r {
                Some(d) => find_fn(self.env().funcs, name@) == Some((names_view(d.params@), d.body@)),
                None => find_fn(self.env().funcs, name@) is None,
            },
    {
        let ghost fs = self.env().funcs;
        let mut i: usize = self.funcs.len();
        proof {
            assert(fs.subrange(0, fs.len() as int) =~= fs);
        }
        while i > 0
            invariant
                i <= self.funcs.len(),
                fs == self.env().funcs,
                find_fn(fs, name@) == find_fn(fs.subrange(0, i as int), name@),
            decreases i,
        {
            let ghost sub = fs.subrange(0, i as int);
            if self.funcs[i - 1].name == *name {
                return Some(self.funcs[i - 1]);
            }
            proof {
                assert(sub.drop_last() =~= fs.subrange(0, i - 1));
            }
            i = i - 1;
        }
        None
    }

    /// The fields of the last variant with the given name.
    fn find_ctor_fields(&self, name: &String) -> (r: Option<&'a Vec<String>>)
        ensures
            match r {
                Some(fs) => find_ctor(self.env().ctors, name@) == Some(names_view(fs@)),
                None => find_ctor(self.env().ctors, name@) is None,
            },
    {
        let ghost cs = self.env().ctors;
        let mut i: usize = self.constructors.len();
        proof {
            assert(cs.subrange(0, cs.len() as int) =~= cs);
        }
        while i > 0
            invariant
                i <= self.constructors.len(),
                cs == self.env().ctors,
                find_ctor(cs, name@) == find_ctor(cs.subrange(0, i as int), name@),
            decreases i,
        {
            let ghost sub = cs.subrange(0, i as int);
            if self.constructors[i - 1].name == *name {
                return Some(&self.constructors[i - 1].fields);
            }
            proof {
                assert(sub.drop_last() =~= cs.subrange(0, i - 1));
            }
            i = i - 1;
        }
        None
    }

    /// Whether the program declares `extern fn name`.
    fn has_extern(&self, name: &String) -> (b: bool)
        ensures
            b == self.env().externs.contains(name@),
    {
        let ghost es = self.env().externs;
        let mut i: usize = 0;
        while i < self.externs.len()
            invariant
                i <= self.externs.len(),
                es == self.env().externs,
                forall|j: int| 0 <= j < i ==> es[j] != name@,
            decreases self.externs.len() - i,
        {
            if *self.externs[i] == *name {
                proof {
                    assert(es[i as int] == name@);
                }
                return true;
            }
            i = i + 1;
        }
        false
    }

    /// Whether the host provides a function of the given name.
    fn has_builtin(&self, name: &String) -> (b: bool)
        ensures
            b == self.env().builtins.contains(name@),
    {
        let ghost bs = self.env().builtins;
        let mut i: usize = 0;
        while i < self.builtins.len()
            invariant
                i <= self.builtins.len(),
                bs == self.env().builtins,
                forall|j: int| 0 <= j < i ==> bs[j] != name@,
            decreases self.builtins.len() - i,
        {
            if self.builtins[i] == *name {
                proof {
                    assert(bs[i as int] == name@);
                }
                return true;
            }
            i = i + 1;
        }
        false
    }
}

/// The last binding of a name.
fn find_local<'b>(bs: &'b Vec<(String, Value)>, name: &String) -> (r: Option<&'b Value>)
    ensures
        match r {
            Some(v) => find_binding(value_fields_view(bs@), name@) == Some(v@),
            None => find_binding(value_fields_view(bs@), name@) is None,
        },
{
    let ghost all = value_fields_view(bs@);
    let mut i: usize = bs.len();
    proof {
        assert(all.subrange(0, all.len() as int) =~= all);
    }
    while i > 0
        invariant
            i <= bs.len(),
            all == value_fields_view(bs@),
            find_binding(all, name@) == find_binding(all.subrange(0, i as int), name@),
        decreases i,
    {
        let ghost sub = all.subrange(0, i as int);
        if bs[i - 1].0 == *name {
            return Some(&bs[i - 1].1);
        }
        proof {
            assert(sub.drop_last() =~= all.subrange(0, i - 1));
        }
        i = i - 1;
    }
    None
}

/// `prefix + name + suffix` as an error.
fn named_error(prefix: &str, name: &str, suffix: &str) -> (e: EvalError)
    ensures
        e.message@ == prefix@ + name@ + suffix@,
{
    let mut m = String::from_str(prefix);
    m.append(name);
    m.append(suffix);
    EvalError { message: m }
}

/// The value of a variable.
fn lookup_var(name: &String, ctx: &EvalContext, locals: &Vec<(String, Value)>) -> (r: Result<
    Value,
    EvalError,
>)
    ensures
        res_view(r) == lookup_var_spec(name@, ctx.env(), value_fields_view(locals@)),
{
    match find_local(locals, name) {
        Some(v) => return Ok(v.duplicate()),
        None => {},
    }
    match find_local(&ctx.globals, name) {
        Some(v) => return Ok(v.duplicate()),
        None => {},
    }
    match ctx.find_ctor_fields(name) {
        Some(fields) => {
            if fields.len() == 0 {
                let r = Value::Variant { name: name.clone(), fields: Vec::new() };
                proof {
                    lemma_value_views(r);
                    assert(value_fields_view(Seq::<(String, Value)>::empty()) =~= Seq::<(Seq<char>, SValue)>::empty());
                }
                return Ok(r);
            }
        },
        None => {},
    }
    Err(named_error("unknown variable '", name.as_str(), "'"))
}

fn expect_int(v: &Value) -> (r: Result<i64, EvalError>)
    ensures
        match r {
            Ok(x) => expect_int_spec(v@) == Ok::<i64, Seq<char>>(x),
            Err(e) => expect_int_spec(v@) == Err::<i64, Seq<char>>(e.message@),
        },
{
    match v {
        Value::Int(x) => Ok(*x),
        _ => Err(EvalError::new("expected Int")),
    }
}

fn expect_bool(v: &Value) -> (r: Result<bool, EvalError>)
    ensures
        match r {
            Ok(x) => expect_bool_spec(v@) == Ok::<bool, Seq<char>>(x),
            Err(e) => expect_bool_spec(v@) == Err::<bool, Seq<char>>(e.message@),
        },
{
    match v {
        Value::Bool(x) => Ok(*x),
        _ => Err(EvalError::new("expected Bool")),
    }
}

fn overflow_or(r: Option<i64>) -> (out: Result<Value, EvalError>)
    ensures
        match r {
            Some(x) => out matches Ok(v) && v@ == SValue::Int(x),
            None => out matches Err(e) && e.message@ == "integer overflow"@,
        },
{
    match r {
        Some(x) => Ok(Value::Int(x)),
        None => Err(EvalError::new("integer overflow")),
    }
}

fn eval_unary(op: UnaryOp, v: &Value) -> (r: Result<Value, EvalError>)
    ensures
        res_view(r) == eval_unary_spec(op, v@),
{
    match op {
        UnaryOp::Neg => {
            let x = match expect_int(v) {
                Ok(x) => x,
                Err(e) => return Err(e),
            };
            overflow_or(0i64.checked_sub(x))
        },
        UnaryOp::Not => {
            let b = match expect_bool(v) {
                Ok(b) => b,
                Err(e) => return Err(e),
            };
            Ok(Value::Bool(!b))
        },
    }
}

fn eval_binary(op: BinaryOp, l: &Value, r: &Value) -> (out: Result<Value, EvalError>)
    ensures
        res_view(out) == eval_binary_spec(op, l@, r@),
{
    match op {
        BinaryOp::Div | BinaryOp::Mod => {
            let b = match expect_int(r) {
                Ok(b) => b,
                Err(e) => return Err(e),
            };
            if b == 0 {
                return Err(
                    EvalError::new(
                        if op == BinaryOp::Div {
                            "division by zero"
                        } else {
                            "mod by zero"
                        },
                    ),
                );
            }
            let a = match expect_int(l) {
                Ok(a) => a,
                Err(e) => return Err(e),
            };
            if op == BinaryOp::Div {
                overflow_or(a.checked_div(b))
            } else {
                overflow_or(a.checked_rem(b))
            }
        },
        BinaryOp::Eq | BinaryOp::Neq => {
            let same = match equal_values(l, r) {
                Ok(x) => x,
                Err(e) => return Err(e),
            };
            Ok(Value::Bool(if op == BinaryOp::Eq { same } else { !same }))
        },
        BinaryOp::And | BinaryOp::Or => Err(EvalError::new("internal: short-circuit handled")),
        _ => {
            let a = match expect_int(l) {
                Ok(a) => a,
                Err(e) => return Err(e),
            };
            let b = match expect_int(r) {
                Ok(b) => b,
                Err(e) => return Err(e),
            };
            match op {
                BinaryOp::Add => overflow_or(a.checked_add(b)),
                BinaryOp::Sub => overflow_or(a.checked_sub(b)),
                BinaryOp::Mul => overflow_or(a.checked_mul(b)),
                BinaryOp::Lt => Ok(Value::Bool(a < b)),
                BinaryOp::Lte => Ok(Value::Bool(a <= b)),
                BinaryOp::Gt => Ok(Value::Bool(a > b)),
                _ => Ok(Value::Bool(a >= b)),
            }
        },
    }
}

/// The list of integers from `a` to `b`, both included.
fn range_list(l: &Value, r: &Value) -> (out: Result<Value, EvalError>)
    ensures
        res_view(out) == range_result(l@, r@),
{
    let a = match expect_int(l) {
        Ok(a) => a,
        Err(e) => return Err(e),
    };
    let b = match expect_int(r) {
        Ok(b) => b,
        Err(e) => return Err(e),
    };
    let mut items: Vec<Value> = Vec::new();
    let mut cur: i128 = a as i128;
    while cur <= b as i128
        invariant
            a <= cur,
            a <= b ==> cur <= b + 1,
            a > b ==> cur == a,
            items@.len() == cur - a,
            forall|j: int| 0 <= j < items@.len() ==> #[trigger] items@[j]@ == SValue::Int((a + j) as i64),
        decreases b + 1 - cur,
    {
        items.push(Value::Int(cur as i64));
        cur = cur + 1;
    }
    let out = Value::List(items);
    proof {
        lemma_value_views(out);
        assert(values_view(items@) =~= range_values(a, b));
    }
    Ok(out)
}

/// `{:?}` of a list of names.
fn debug_names(xs: &Vec<String>) -> (s: String)
    ensures
        s@ == debug_list(names_view(xs@)),
{
    let ghost ns = names_view(xs@);
    let mut s = String::from_str("[");
    let mut i: usize = 0;
    while i < xs.len()
        invariant
            i <= xs.len(),
            ns == names_view(xs@),
            s@ == "["@ + debug_join(ns.subrange(0, i as int)),
        decreases xs.len() - i,
    {
        let ghost before = s@;
        if i > 0 {
            s.append(", ");
        }
        let d = debug_string(xs[i].as_str());
        s.append(d.as_str());
        proof {
            let sub = ns.subrange(0, i + 1);
            assert(sub.drop_last() =~= ns.subrange(0, i as int));
            assert(sub.last() == xs@[i as int]@);
            if i == 0 {
                assert(ns.subrange(0, 0).len() == 0);
                assert(debug_join(ns.subrange(0, 0)) =~= Seq::<char>::empty());
            }
            assert(s@ =~= "["@ + debug_join(sub));
        }
        i = i + 1;
    }
    s.append("]");
    proof {
        assert(ns.subrange(0, ns.len() as int) =~= ns);
    }
    s
}

fn arity_error(f: &String, expected: usize, got: usize) -> (e: EvalError)
    ensures
        e.message@ == arity_message(f@, expected as nat, got as nat),
{
    let mut m = String::from_str("function '");
    m.append(f.as_str());
    m.append("' expects ");
    push_decimal(&mut m, expected as u64);
    m.append(" args, got ");
    push_decimal(&mut m, got as u64);
    proof {
        assert(m@ =~= arity_message(f@, expected as nat, got as nat));
    }
    EvalError { message: m }
}

/// A value list, or an error, in front of another evaluation's result.
pub open spec fn prepend(vs: Seq<SValue>, r: (Result<Seq<SValue>, Seq<char>>, int)) -> (
    Result<Seq<SValue>, Seq<char>>,
    int,
) {
    match r {
        (Ok(ws), p) => (Ok(vs + ws), p),
        (Err(m), p) => (Err(m), p),
    }
}

pub open spec fn values_res_view(r: Result<Vec<Value>, EvalError>) -> Result<Seq<SValue>, Seq<char>> {
    match r {
        Ok(vs) => Ok(values_view(vs@)),
        Err(e) => Err(e.message@),
    }
}

/// Evaluates an expression.
fn eval_expr<B: Builtins>(
    expr: &Expr,
    ctx: &EvalContext,
    host: &B,
    locals: &Vec<(String, Value)>,
    depth: u64,
    log: &mut Ghost<Seq<HostCall>>,
) -> (r: Result<Value, EvalError>)
    ensures
        extends(host, final(log)@, old(log)@),
        ctx.builtins@.len() == 0 ==> final(log)@ == old(log)@,
        forall|ans: Answers|
            agrees(ans, final(log)@, old(log)@.len() as int) ==> #[trigger] ev(
                expr@,
                ctx.env(),
                value_fields_view(locals@),
                depth as nat,
                ans,
                old(log)@.len() as int,
            ) == (res_view(r), final(log)@.len() as int),
    decreases depth, expr, 2nat, 0nat, 0nat,
{
    let ghost env = ctx.env();
    let ghost ls = value_fields_view(locals@);
    let ghost d = depth as nat;
    let ghost p0 = log@.len() as int;
    proof {
        lemma_core_views(*expr);
    }
    let r = match expr {
        Expr::Int(v) => Ok(Value::Int(*v)),
        Expr::Bool(b) => Ok(Value::Bool(*b)),
        Expr::Str(s) => Ok(Value::Str(s.clone())),
        Expr::Bytes(bs) => {
            let c = bs.clone();
            proof {
                assert(c@ =~= bs@);
            }
            Ok(Value::Bytes(c))
        },
        Expr::List(items) => match eval_list(items, ctx, host, locals, depth, log) {
            Ok(vs) => {
                let r = Value::List(vs);
                proof {
                    lemma_value_views(r);
                }
                Ok(r)
            },
            Err(e) => Err(e),
        },
        Expr::Dict(entries) => match eval_entries(entries, ctx, host, locals, depth, log) {
            Ok(dv) => {
                let r = Value::Dict(dv);
                proof {
                    lemma_value_views(r);
                }
                Ok(r)
            },
            Err(e) => Err(e),
        },
        Expr::Var(n) => lookup_var(n, ctx, locals),
        Expr::RangeList { .. } => eval_range(expr, ctx, host, locals, depth, log),
        Expr::Construct { .. } => eval_construct(expr, ctx, host, locals, depth, log),
        Expr::For { .. } => eval_for_expr(expr, ctx, host, locals, depth, log),
        Expr::Unary { .. } => eval_unary_expr(expr, ctx, host, locals, depth, log),
        Expr::Binary { .. } => eval_binary_expr(expr, ctx, host, locals, depth, log),
        Expr::If { .. } => eval_if(expr, ctx, host, locals, depth, log),
        Expr::Call { .. } => eval_call_expr(expr, ctx, host, locals, depth, log),
        Expr::Match { .. } => eval_match(expr, ctx, host, locals, depth, log),
    };
    proof {
        assert forall|ans: Answers| agrees(ans, log@, p0) implies #[trigger] ev(
            expr@,
            env,
            ls,
            d,
            ans,
            p0,
        ) == (res_view(r), log@.len() as int) by {
            match expr {
                Expr::List(items) => {
                    let ghost _unfolded = ev_list(cexprs_view(items@), env, ls, d, ans, p0);
                },
                Expr::Dict(entries) => {
                    let ghost _unfolded = ev_entries(centries_view(entries@), Seq::empty(), env, ls, d, ans, p0);
                },
                Expr::RangeList { .. } => {
                    let ghost _unfolded = ev_range(expr@, env, ls, d, ans, p0);
                },
                Expr::Construct { .. } => {
                    let ghost _unfolded = ev_construct(expr@, env, ls, d, ans, p0);
                },
                Expr::For { .. } => {
                    let ghost _unfolded = ev_for_expr(expr@, env, ls, d, ans, p0);
                },
                Expr::Unary { .. } => {
                    let ghost _unfolded = ev_unary(expr@, env, ls, d, ans, p0);
                },
                Expr::Binary { .. } => {
                    let ghost _unfolded = ev_binary(expr@, env, ls, d, ans, p0);
                },
                Expr::If { .. } => {
                    let ghost _unfolded = ev_if(expr@, env, ls, d, ans, p0);
                },
                Expr::Call { .. } => {
                    let ghost _unfolded = ev_call_expr(expr@, env, ls, d, ans, p0);
                },
                Expr::Match { .. } => {
                    let ghost _unfolded = ev_match(expr@, env, ls, d, ans, p0);
                },
                _ => {},
            }
        }
    }
    r
}

/// Evaluates `[start..end]`.
fn eval_range<B: Builtins>(
    e: &Expr,
    ctx: &EvalContext,
    host: &B,
    locals: &Vec<(String, Value)>,
    depth: u64,
    log: &mut Ghost<Seq<HostCall>>,
) -> (r: Result<Value, EvalError>)
    requires
        e is RangeList,
    ensures
        extends(host, final(log)@, old(log)@),
        ctx.builtins@.len() == 0 ==> final(log)@ == old(log)@,
        forall|ans: Answers|
            agrees(ans, final(log)@, old(log)@.len() as int) ==> #[trigger] ev_range(
                e@,
                ctx.env(),
                value_fields_view(locals@),
                depth as nat,
                ans,
                old(log)@.len() as int,
            ) == (res_view(r), final(log)@.len() as int),
    decreases depth, e, 1nat, 0nat, 0nat,
{
    let ghost env = ctx.env();
    let ghost ls = value_fields_view(locals@);
    let ghost d = depth as nat;
    let ghost p0 = log@.len() as int;
    let (start, end) = match e {
        Expr::RangeList { start, end } => (start, end),
        _ => return Err(EvalError::new("")),
    };
    let ra = eval_expr(start, ctx, host, locals, depth, log);
    let ghost p1 = log@.len() as int;
    let r = match ra {
        Err(err) => Err(err),
        Ok(a) => match eval_expr(end, ctx, host, locals, depth, log) {
            Err(err) => Err(err),
            Ok(b) => range_list(&a, &b),
        },
    };
    proof {
        assert forall|ans: Answers| agrees(ans, log@, p0) implies #[trigger] ev_range(
            e@,
            env,
            ls,
            d,
            ans,
            p0,
        ) == (res_view(r), log@.len() as int) by {
            let ghost _unfolded = ev((**start)@, env, ls, d, ans, p0);
            let ghost _unfolded = ev((**end)@, env, ls, d, ans, p1);
        }
    }
    r
}

/// Evaluates a constructor.
fn eval_construct<B: Builtins>(
    e: &Expr,
    ctx: &EvalContext,
    host: &B,
    locals: &Vec<(String, Value)>,
    depth: u64,
    log: &mut Ghost<Seq<HostCall>>,
) -> (r: Result<Value, EvalError>)
    requires
        e is Construct,
    ensures
        extends(host, final(log)@, old(log)@),
        ctx.builtins@.len() == 0 ==> final(log)@ == old(log)@,
        forall|ans: Answers|
            agrees(ans, final(log)@, old(log)@.len() as int) ==> #[trigger] ev_construct(
                e@,
                ctx.env(),
                value_fields_view(locals@),
                depth as nat,
                ans,
                old(log)@.len() as int,
            ) == (res_view(r), final(log)@.len() as int),
    decreases depth, e, 1nat, 0nat, 0nat,
{
    let ghost env = ctx.env();
    let ghost ls = value_fields_view(locals@);
    let ghost d = depth as nat;
    let ghost p0 = log@.len() as int;
    proof {
        lemma_core_views(*e);
    }
    let (name, fields) = match e {
        Expr::Construct { name, fields } => (name, fields),
        _ => return Err(EvalError::new("")),
    };
    let r = match eval_fields(fields, ctx, host, locals, depth, log) {
        Ok(given) => construct(name, given, ctx),
        Err(err) => Err(err),
    };
    proof {
        assert forall|ans: Answers| agrees(ans, log@, p0) implies #[trigger] ev_construct(
            e@,
            env,
            ls,
            d,
            ans,
            p0,
        ) == (res_view(r), log@.len() as int) by {
            let ghost _unfolded = ev_fields(cfields_view(fields@), Seq::empty(), env, ls, d, ans, p0);
        }
    }
    r
}

/// Evaluates a `for` expression.
fn eval_for_expr<B: Builtins>(
    e: &Expr,
    ctx: &EvalContext,
    host: &B,
    locals: &Vec<(String, Value)>,
    depth: u64,
    log: &mut Ghost<Seq<HostCall>>,
) -> (r: Result<Value, EvalError>)
    requires
        e is For,
    ensures
        extends(host, final(log)@, old(log)@),
        ctx.builtins@.len() == 0 ==> final(log)@ == old(log)@,
        forall|ans: Answers|
            agrees(ans, final(log)@, old(log)@.len() as int) ==> #[trigger] ev_for_expr(
                e@,
                ctx.env(),
                value_fields_view(locals@),
                depth as nat,
                ans,
                old(log)@.len() as int,
            ) == (res_view(r), final(log)@.len() as int),
    decreases depth, e, 1nat, 0nat, 0nat,
{
    let ghost env = ctx.env();
    let ghost ls = value_fields_view(locals@);
    let ghost d = depth as nat;
    let ghost p0 = log@.len() as int;
    let iter = match e {
        Expr::For { iter, .. } => iter,
        _ => return Err(EvalError::new("")),
    };
    let ri = eval_expr(iter, ctx, host, locals, depth, log);
    let ghost p1 = log@.len() as int;
    let r = match ri {
        Err(err) => Err(err),
        Ok(iv) => {
            proof {
                lemma_value_views(iv);
            }
            match iv {
                Value::List(items) => match eval_for(e, &items, ctx, host, locals, depth, log) {
                    Ok(vs) => {
                        let out = Value::List(vs);
                        proof {
                            lemma_value_views(out);
                        }
                        Ok(out)
                    },
                    Err(err) => Err(err),
                },
                _ => Err(EvalError::new("for expects a List")),
            }
        },
    };
    proof {
        assert forall|ans: Answers| agrees(ans, log@, p0) implies #[trigger] ev_for_expr(
            e@,
            env,
            ls,
            d,
            ans,
            p0,
        ) == (res_view(r), log@.len() as int) by {
            let ghost _unfolded = ev((**iter)@, env, ls, d, ans, p0);
            match ri { Ok(Value::List(items)) => { let ghost _unfolded = ev_for(e@, values_view(items@), env, ls, d, ans, p1); }, _ => {} }
        }
    }
    r
}

/// Evaluates a prefix operation.
fn eval_unary_expr<B: Builtins>(
    e: &Expr,
    ctx: &EvalContext,
    host: &B,
    locals: &Vec<(String, Value)>,
    depth: u64,
    log: &mut Ghost<Seq<HostCall>>,
) -> (r: Result<Value, EvalError>)
    requires
        e is Unary,
    ensures
        extends(host, final(log)@, old(log)@),
        ctx.builtins@.len() == 0 ==> final(log)@ == old(log)@,
        forall|ans: Answers|
            agrees(ans, final(log)@, old(log)@.len() as int) ==> #[trigger] ev_unary(
                e@,
                ctx.env(),
                value_fields_view(locals@),
                depth as nat,
                ans,
                old(log)@.len() as int,
            ) == (res_view(r), final(log)@.len() as int),
    decreases depth, e, 1nat, 0nat, 0nat,
{
    let ghost env = ctx.env();
    let ghost ls = value_fields_view(locals@);
    let ghost d = depth as nat;
    let ghost p0 = log@.len() as int;
    let (op, inner) = match e {
        Expr::Unary { op, expr } => (op, expr),
        _ => return Err(EvalError::new("")),
    };
    let r = match eval_expr(inner, ctx, host, locals, depth, log) {
        Ok(v) => eval_unary(*op, &v),
        Err(err) => Err(err),
    };
    proof {
        assert forall|ans: Answers| agrees(ans, log@, p0) implies #[trigger] ev_unary(
            e@,
            env,
            ls,
            d,
            ans,
            p0,
        ) == (res_view(r), log@.len() as int) by {
            let ghost _unfolded = ev((**inner)@, env, ls, d, ans, p0);
        }
    }
    r
}

/// Evaluates an infix operation; `&&` and `||` short-circuit.
fn eval_binary_expr<B: Builtins>(
    e: &Expr,
    ctx: &EvalContext,
    host: &B,
    locals: &Vec<(String, Value)>,
    depth: u64,
    log: &mut Ghost<Seq<HostCall>>,
) -> (r: Result<Value, EvalError>)
    requires
        e is Binary,
    ensures
        extends(host, final(log)@, old(log)@),
        ctx.builtins@.len() == 0 ==> final(log)@ == old(log)@,
        forall|ans: Answers|
            agrees(ans, final(log)@, old(log)@.len() as int) ==> #[trigger] ev_binary(
                e@,
                ctx.env(),
                value_fields_view(locals@),
                depth as nat,
                ans,
                old(log)@.len() as int,
            ) == (res_view(r), final(log)@.len() as int),
    decreases depth, e, 1nat, 0nat, 0nat,
{
    let ghost env = ctx.env();
    let ghost ls = value_fields_view(locals@);
    let ghost d = depth as nat;
    let ghost p0 = log@.len() as int;
    let (op, left, right) = match e {
        Expr::Binary { op, left, right } => (op, left, right),
        _ => return Err(EvalError::new("")),
    };
    let ra = eval_expr(left, ctx, host, locals, depth, log);
    let ghost p1 = log@.len() as int;
    let r = match ra {
        Err(err) => Err(err),
        Ok(a) => if *op == BinaryOp::And || *op == BinaryOp::Or {
            match expect_bool(&a) {
                Err(err) => Err(err),
                Ok(x) => if (*op == BinaryOp::And && !x) || (*op == BinaryOp::Or && x) {
                    Ok(Value::Bool(x))
                } else {
                    match eval_expr(right, ctx, host, locals, depth, log) {
                        Err(err) => Err(err),
                        Ok(bv) => match expect_bool(&bv) {
                            Err(err) => Err(err),
                            Ok(y) => Ok(Value::Bool(y)),
                        },
                    }
                },
            }
        } else {
            match eval_expr(right, ctx, host, locals, depth, log) {
                Err(err) => Err(err),
                Ok(bv) => eval_binary(*op, &a, &bv),
            }
        },
    };
    proof {
        assert forall|ans: Answers| agrees(ans, log@, p0) implies #[trigger] ev_binary(
            e@,
            env,
            ls,
            d,
            ans,
            p0,
        ) == (res_view(r), log@.len() as int) by {
            let ghost _unfolded = ev((**left)@, env, ls, d, ans, p0);
            let ghost _unfolded = ev((**right)@, env, ls, d, ans, p1);
        }
    }
    r
}

/// Evaluates a conditional.
fn eval_if<B: Builtins>(
    e: &Expr,
    ctx: &EvalContext,
    host: &B,
    locals: &Vec<(String, Value)>,
    depth: u64,
    log: &mut Ghost<Seq<HostCall>>,
) -> (r: Result<Value, EvalError>)
    requires
        e is If,
    ensures
        extends(host, final(log)@, old(log)@),
        ctx.builtins@.len() == 0 ==> final(log)@ == old(log)@,
        forall|ans: Answers|
            agrees(ans, final(log)@, old(log)@.len() as int) ==> #[trigger] ev_if(
                e@,
                ctx.env(),
                value_fields_view(locals@),
                depth as nat,
                ans,
                old(log)@.len() as int,
            ) == (res_view(r), final(log)@.len() as int),
    decreases depth, e, 1nat, 0nat, 0nat,
{
    let ghost env = ctx.env();
    let ghost ls = value_fields_view(locals@);
    let ghost d = depth as nat;
    let ghost p0 = log@.len() as int;
    let (cond, then_branch, else_branch) = match e {
        Expr::If { cond, then_branch, else_branch } => (cond, then_branch, else_branch),
        _ => return Err(EvalError::new("")),
    };
    let rc = eval_expr(cond, ctx, host, locals, depth, log);
    let ghost p1 = log@.len() as int;
    let r = match rc {
        Err(err) => Err(err),
        Ok(c) => match expect_bool(&c) {
            Err(err) => Err(err),
            Ok(x) => if x {
                eval_expr(then_branch, ctx, host, locals, depth, log)
            } else {
                eval_expr(else_branch, ctx, host, locals, depth, log)
            },
        },
    };
    proof {
        assert forall|ans: Answers| agrees(ans, log@, p0) implies #[trigger] ev_if(
            e@,
            env,
            ls,
            d,
            ans,
            p0,
        ) == (res_view(r), log@.len() as int) by {
            let ghost _unfolded = ev((**cond)@, env, ls, d, ans, p0);
            let ghost _unfolded = ev((**then_branch)@, env, ls, d, ans, p1);
            let ghost _unfolded = ev((**else_branch)@, env, ls, d, ans, p1);
        }
    }
    r
}

/// Evaluates a call: the arguments, then the call.
fn eval_call_expr<B: Builtins>(
    e: &Expr,
    ctx: &EvalContext,
    host: &B,
    locals: &Vec<(String, Value)>,
    depth: u64,
    log: &mut Ghost<Seq<HostCall>>,
) -> (r: Result<Value, EvalError>)
    requires
        e is Call,
    ensures
        extends(host, final(log)@, old(log)@),
        ctx.builtins@.len() == 0 ==> final(log)@ == old(log)@,
        forall|ans: Answers|
            agrees(ans, final(log)@, old(log)@.len() as int) ==> #[trigger] ev_call_expr(
                e@,
                ctx.env(),
                value_fields_view(locals@),
                depth as nat,
                ans,
                old(log)@.len() as int,
            ) == (res_view(r), final(log)@.len() as int),
    decreases depth, e, 1nat, 0nat, 0nat,
{
    let ghost env = ctx.env();
    let ghost ls = value_fields_view(locals@);
    let ghost d = depth as nat;
    let ghost p0 = log@.len() as int;
    proof {
        lemma_core_views(*e);
    }
    let args = match e {
        Expr::Call { args, .. } => args,
        _ => return Err(EvalError::new("")),
    };
    let ra = eval_list(args, ctx, host, locals, depth, log);
    let ghost p1 = log@.len() as int;
    let r = match ra {
        Err(err) => Err(err),
        Ok(vs) => eval_call(e, vs, ctx, host, depth, log),
    };
    proof {
        assert forall|ans: Answers| agrees(ans, log@, p0) implies #[trigger] ev_call_expr(
            e@,
            env,
            ls,
            d,
            ans,
            p0,
        ) == (res_view(r), log@.len() as int) by {
            let ghost _unfolded = ev_list(cexprs_view(args@), env, ls, d, ans, p0);
            match ra { Ok(vs) => { let ghost _unfolded = ev_call(e@, values_view(vs@), env, d, ans, p1); }, _ => {} }
        }
    }
    r
}

/// Evaluates a match: the scrutinee, then the first matching arm.
fn eval_match<B: Builtins>(
    e: &Expr,
    ctx: &EvalContext,
    host: &B,
    locals: &Vec<(String, Value)>,
    depth: u64,
    log: &mut Ghost<Seq<HostCall>>,
) -> (r: Result<Value, EvalError>)
    requires
        e is Match,
    ensures
        extends(host, final(log)@, old(log)@),
        ctx.builtins@.len() == 0 ==> final(log)@ == old(log)@,
        forall|ans: Answers|
            agrees(ans, final(log)@, old(log)@.len() as int) ==> #[trigger] ev_match(
                e@,
                ctx.env(),
                value_fields_view(locals@),
                depth as nat,
                ans,
                old(log)@.len() as int,
            ) == (res_view(r), final(log)@.len() as int),
    decreases depth, e, 1nat, 0nat, 0nat,
{
    let ghost env = ctx.env();
    let ghost ls = value_fields_view(locals@);
    let ghost d = depth as nat;
    let ghost p0 = log@.len() as int;
    proof {
        lemma_core_views(*e);
    }
    let (scrutinee, arms) = match e {
        Expr::Match { scrutinee, arms } => (scrutinee, arms),
        _ => return Err(EvalError::new("")),
    };
    let rs = eval_expr(scrutinee, ctx, host, locals, depth, log);
    let ghost p1 = log@.len() as int;
    let r = match rs {
        Err(err) => Err(err),
        Ok(v) => eval_arms(arms, &v, ctx, host, locals, depth, log),
    };
    proof {
        assert forall|ans: Answers| agrees(ans, log@, p0) implies #[trigger] ev_match(
            e@,
            env,
            ls,
            d,
            ans,
            p0,
        ) == (res_view(r), log@.len() as int) by {
            let ghost _unfolded = ev((**scrutinee)@, env, ls, d, ans, p0);
            match rs { Ok(v) => { let ghost _unfolded = ev_arms(carms_view(arms@), v@, env, ls, d, ans, p1); }, _ => {} }
        }
    }
    r
}

/// Evaluates a list of expressions, left to right.
fn eval_list<B: Builtins>(
    items: &Vec<Expr>,
    ctx: &EvalContext,
    host: &B,
    locals: &Vec<(String, Value)>,
    depth: u64,
    log: &mut Ghost<Seq<HostCall>>,
) -> (r: Result<Vec<Value>, EvalError>)
    ensures
        extends(host, final(log)@, old(log)@),
        ctx.builtins@.len() == 0 ==> final(log)@ == old(log)@,
        forall|ans: Answers|
            agrees(ans, final(log)@, old(log)@.len() as int) ==> #[trigger] ev_list(
                cexprs_view(items@),
                ctx.env(),
                value_fields_view(locals@),
                depth as nat,
                ans,
                old(log)@.len() as int,
            ) == (values_res_view(r), final(log)@.len() as int),
    decreases depth, items, 2nat, 0nat, 0nat,
{
    let ghost all = cexprs_view(items@);
    let ghost env = ctx.env();
    let ghost ls = value_fields_view(locals@);
    let ghost p0 = log@.len() as int;
    let mut out: Vec<Value> = Vec::new();
    let mut i: usize = 0;
    proof {
        assert(all.subrange(0, all.len() as int) =~= all);
        assert(values_view(out@) =~= Seq::<SValue>::empty());
    }
    while i < items.len()
        invariant
            i <= items.len(),
            all == cexprs_view(items@),
            env == ctx.env(),
            ls == value_fields_view(locals@),
            p0 == old(log)@.len(),
            extends(host, log@, old(log)@),
            ctx.builtins@.len() == 0 ==> log@ == old(log)@,
            forall|ans: Answers|
                agrees(ans, log@, p0) ==> #[trigger] ev_list(all, env, ls, depth as nat, ans, p0)
                    == prepend(
                    values_view(out@),
                    ev_list(all.subrange(i as int, all.len() as int), env, ls, depth as nat, ans, log@.len() as int),
                ),
        decreases items.len() - i,
    {
        let ghost rest = all.subrange(i as int, all.len() as int);
        let ghost before = values_view(out@);
        let ghost pi = log@.len() as int;
        let ghost logi = log@;
        proof {
            assert(rest.subrange(1, rest.len() as int) =~= all.subrange(i + 1, all.len() as int));
            assert(decreases_to!(items => items[i as int]));
            assert(rest[0] == items@[i as int]@);
        }
        let rv = eval_expr(&items[i], ctx, host, locals, depth, log);
        let v = match rv {
            Ok(v) => v,
            Err(e) => {
                proof {
                    assert forall|ans: Answers| agrees(ans, log@, p0) implies #[trigger] ev_list(
                        all,
                        env,
                        ls,
                        depth as nat,
                        ans,
                        p0,
                    ) == (Err::<Seq<SValue>, Seq<char>>(e.message@), log@.len() as int) by {
                        assert(agrees(ans, logi, p0));
                        let ghost _unfolded = ev(rest[0], env, ls, depth as nat, ans, pi);
                    }
                }
                return Err(e);
            },
        };
        out.push(v);
        proof {
            assert(values_view(out@) =~= before.push(v@));
            assert forall|s: Seq<SValue>| before + (seq![v@] + s) == values_view(out@) + s by {
                assert(before + (seq![v@] + s) =~= values_view(out@) + s);
            }
            assert forall|ans: Answers| agrees(ans, log@, p0) implies #[trigger] ev_list(
                all,
                env,
                ls,
                depth as nat,
                ans,
                p0,
            ) == prepend(
                values_view(out@),
                ev_list(all.subrange(i + 1, all.len() as int), env, ls, depth as nat, ans, log@.len() as int),
            ) by {
                assert(agrees(ans, logi, p0));
                let ghost _unfolded = ev(rest[0], env, ls, depth as nat, ans, pi);
            }
        }
        i = i + 1;
    }
    proof {
        assert(values_view(out@) + Seq::<SValue>::empty() =~= values_view(out@));
    }
    Ok(out)
}

pub open spec fn dict_res_view(r: Result<Vec<(ValueKey, Value)>, EvalError>) -> Result<
    Seq<(SKey, SValue)>,
    Seq<char>,
> {
    match r {
        Ok(d) => Ok(dict_view(d@)),
        Err(e) => Err(e.message@),
    }
}

pub open spec fn fields_res_view(r: Result<Vec<(String, Value)>, EvalError>) -> Result<
    Seq<(Seq<char>, SValue)>,
    Seq<char>,
> {
    match r {
        Ok(d) => Ok(value_fields_view(d@)),
        Err(e) => Err(e.message@),
    }
}

/// Evaluates the entries of a map literal into a map, left to right.
fn eval_entries<B: Builtins>(
    entries: &Vec<(Expr, Expr)>,
    ctx: &EvalContext,
    host: &B,
    locals: &Vec<(String, Value)>,
    depth: u64,
    log: &mut Ghost<Seq<HostCall>>,
) -> (r: Result<Vec<(ValueKey, Value)>, EvalError>)
    ensures
        extends(host, final(log)@, old(log)@),
        ctx.builtins@.len() == 0 ==> final(log)@ == old(log)@,
        forall|ans: Answers|
            agrees(ans, final(log)@, old(log)@.len() as int) ==> #[trigger] ev_entries(
                centries_view(entries@),
                Seq::empty(),
                ctx.env(),
                value_fields_view(locals@),
                depth as nat,
                ans,
                old(log)@.len() as int,
            ) == (dict_res_view(r), final(log)@.len() as int),
    decreases depth, entries, 2nat, 0nat, 0nat,
{
    let ghost all = centries_view(entries@);
    let ghost env = ctx.env();
    let ghost ls = value_fields_view(locals@);
    let ghost p0 = log@.len() as int;
    let mut acc: Vec<(ValueKey, Value)> = Vec::new();
    let mut i: usize = 0;
    proof {
        assert(all.subrange(0, all.len() as int) =~= all);
        assert(dict_view(acc@) =~= Seq::<(SKey, SValue)>::empty());
    }
    while i < entries.len()
        invariant
            i <= entries.len(),
            all == centries_view(entries@),
            env == ctx.env(),
            ls == value_fields_view(locals@),
            p0 == old(log)@.len(),
            extends(host, log@, old(log)@),
            ctx.builtins@.len() == 0 ==> log@ == old(log)@,
            forall|ans: Answers|
                agrees(ans, log@, p0) ==> #[trigger] ev_entries(all, Seq::empty(), env, ls, depth as nat, ans, p0)
                    == ev_entries(
                    all.subrange(i as int, all.len() as int),
                    dict_view(acc@),
                    env,
                    ls,
                    depth as nat,
                    ans,
                    log@.len() as int,
                ),
        decreases entries.len() - i,
    {
        let ghost rest = all.subrange(i as int, all.len() as int);
        let ghost pi = log@.len() as int;
        let ghost logi = log@;
        let ghost acc0 = dict_view(acc@);
        proof {
            assert(rest.subrange(1, rest.len() as int) =~= all.subrange(i + 1, all.len() as int));
            assert(decreases_to!(entries => entries[i as int]));
            assert(rest[0] == (entries@[i as int].0@, entries@[i as int].1@));
        }
        let rk = eval_expr(&entries[i].0, ctx, host, locals, depth, log);
        let ghost pk = log@.len() as int;
        let ghost logk = log@;
        let r2: Result<(ValueKey, Value), EvalError> = match rk {
            Err(e) => Err(e),
            Ok(k) => match eval_expr(&entries[i].1, ctx, host, locals, depth, log) {
                Err(e) => Err(e),
                Ok(v) => match value_to_key(&k) {
                    Err(e) => Err(e),
                    Ok(key) => {
                        proof {
                            assert(value_to_key_spec(k@) == Ok::<SKey, Seq<char>>(key@));
                        }
                        Ok((key, v))
                    },
                },
            },
        };
        proof {
            assert forall|ans: Answers| agrees(ans, log@, p0) implies #[trigger] ev_entries(
                all,
                Seq::empty(),
                env,
                ls,
                depth as nat,
                ans,
                p0,
            ) == match r2 {
                Err(e) => (Err::<Seq<(SKey, SValue)>, Seq<char>>(e.message@), log@.len() as int),
                Ok((key, v)) => ev_entries(
                    all.subrange(i + 1, all.len() as int),
                    dict_insert(acc0, key@, v@),
                    env,
                    ls,
                    depth as nat,
                    ans,
                    log@.len() as int,
                ),
            } by {
                assert(agrees(ans, logi, p0));
                let ghost _unfolded = ev(rest[0].0, env, ls, depth as nat, ans, pi);
                let ghost _unfolded = ev(rest[0].1, env, ls, depth as nat, ans, pk);
            }
        }
        match r2 {
            Err(e) => return Err(e),
            Ok((key, v)) => {
                dict_put(&mut acc, key, v);
            },
        }
        i = i + 1;
    }
    Ok(acc)
}

/// Evaluates the fields of a constructor, left to right; a field given
/// twice keeps its last value.
fn eval_fields<B: Builtins>(
    fields: &Vec<(String, Expr)>,
    ctx: &EvalContext,
    host: &B,
    locals: &Vec<(String, Value)>,
    depth: u64,
    log: &mut Ghost<Seq<HostCall>>,
) -> (r: Result<Vec<(String, Value)>, EvalError>)
    ensures
        extends(host, final(log)@, old(log)@),
        ctx.builtins@.len() == 0 ==> final(log)@ == old(log)@,
        forall|ans: Answers|
            agrees(ans, final(log)@, old(log)@.len() as int) ==> #[trigger] ev_fields(
                cfields_view(fields@),
                Seq::empty(),
                ctx.env(),
                value_fields_view(locals@),
                depth as nat,
                ans,
                old(log)@.len() as int,
            ) == (fields_res_view(r), final(log)@.len() as int),
    decreases depth, fields, 2nat, 0nat, 0nat,
{
    let ghost all = cfields_view(fields@);
    let ghost env = ctx.env();
    let ghost ls = value_fields_view(locals@);
    let ghost p0 = log@.len() as int;
    let mut acc: Vec<(String, Value)> = Vec::new();
    let mut i: usize = 0;
    proof {
        assert(all.subrange(0, all.len() as int) =~= all);
        assert(value_fields_view(acc@) =~= Seq::<(Seq<char>, SValue)>::empty());
    }
    while i < fields.len()
        invariant
            i <= fields.len(),
            all == cfields_view(fields@),
            env == ctx.env(),
            ls == value_fields_view(locals@),
            p0 == old(log)@.len(),
            extends(host, log@, old(log)@),
            ctx.builtins@.len() == 0 ==> log@ == old(log)@,
            forall|ans: Answers|
                agrees(ans, log@, p0) ==> #[trigger] ev_fields(all, Seq::empty(), env, ls, depth as nat, ans, p0)
                    == ev_fields(
                    all.subrange(i as int, all.len() as int),
                    value_fields_view(acc@),
                    env,
                    ls,
                    depth as nat,
                    ans,
                    log@.len() as int,
                ),
        decreases fields.len() - i,
    {
        let ghost rest = all.subrange(i as int, all.len() as int);
        let ghost pi = log@.len() as int;
        let ghost logi = log@;
        let ghost acc0 = value_fields_view(acc@);
        proof {
            assert(rest.subrange(1, rest.len() as int) =~= all.subrange(i + 1, all.len() as int));
            assert(decreases_to!(fields => fields[i as int]));
            assert(rest[0] == (fields@[i as int].0@, fields@[i as int].1@));
        }
        let rv = eval_expr(&fields[i].1, ctx, host, locals, depth, log);
        proof {
            assert forall|ans: Answers| agrees(ans, log@, p0) implies #[trigger] ev_fields(
                all,
                Seq::empty(),
                env,
                ls,
                depth as nat,
                ans,
                p0,
            ) == match rv {
                Err(e) => (Err::<Seq<(Seq<char>, SValue)>, Seq<char>>(e.message@), log@.len() as int),
                Ok(v) => ev_fields(
                    all.subrange(i + 1, all.len() as int),
                    field_insert(acc0, rest[0].0, v@),
                    env,
                    ls,
                    depth as nat,
                    ans,
                    log@.len() as int,
                ),
            } by {
                assert(agrees(ans, logi, p0));
                let ghost _unfolded = ev(rest[0].1, env, ls, depth as nat, ans, pi);
            }
        }
        match rv {
            Err(e) => return Err(e),
            Ok(v) => {
                field_put(&mut acc, fields[i].0.clone(), v);
            },
        }
        i = i + 1;
    }
    Ok(acc)
}

/// Whether a variant's fields include the given name.
fn has_field(given: &Vec<(String, Value)>, n: &String) -> (b: bool)
    ensures
        b == field_names(value_fields_view(given@)).contains(n@),
{
    let ghost fs = field_names(value_fields_view(given@));
    let mut i: usize = 0;
    while i < given.len()
        invariant
            i <= given.len(),
            fs == field_names(value_fields_view(given@)),
            forall|j: int| 0 <= j < i ==> fs[j] != n@,
        decreases given.len() - i,
    {
        if given[i].0 == *n {
            proof {
                assert(fs[i as int] == n@);
            }
            return true;
        }
        i = i + 1;
    }
    false
}

/// Whether a list of names holds the given name.
fn has_name(v: &Vec<String>, n: &String) -> (b: bool)
    ensures
        b == names_view(v@).contains(n@),
{
    let ghost ns = names_view(v@);
    let mut i: usize = 0;
    while i < v.len()
        invariant
            i <= v.len(),
            ns == names_view(v@),
            forall|j: int| 0 <= j < i ==> ns[j] != n@,
        decreases v.len() - i,
    {
        if v[i] == *n {
            proof {
                assert(ns[i as int] == n@);
            }
            return true;
        }
        i = i + 1;
    }
    false
}

/// A variant built from evaluated fields, checked against its definition.
fn construct(name: &String, given: Vec<(String, Value)>, ctx: &EvalContext) -> (r: Result<
    Value,
    EvalError,
>)
    ensures
        res_view(r) == construct_result(name@, value_fields_view(given@), ctx.env()),
{
    let ghost gn = field_names(value_fields_view(given@));
    let expected = match ctx.find_ctor_fields(name) {
        Some(fs) => fs,
        None => return Err(named_error("unknown constructor '", name.as_str(), "'")),
    };
    let ghost en = names_view(expected@);
    let mut missing: Vec<String> = Vec::new();
    let mut i: usize = 0;
    proof {
        assert(names_view(missing@) =~= Seq::<Seq<char>>::empty());
    }
    while i < expected.len()
        invariant
            i <= expected.len(),
            en == names_view(expected@),
            gn == field_names(value_fields_view(given@)),
            names_view(missing@) == missing_fields(en.subrange(0, i as int), gn),
        decreases expected.len() - i,
    {
        let ghost before = names_view(missing@);
        if !has_field(&given, &expected[i]) {
            missing.push(expected[i].clone());
        }
        proof {
            let sub = en.subrange(0, i + 1);
            assert(sub.drop_last() =~= en.subrange(0, i as int));
            assert(sub.last() == expected@[i as int]@);
            assert(names_view(missing@) =~= missing_fields(sub, gn));
        }
        i = i + 1;
    }
    proof {
        assert(en.subrange(0, en.len() as int) =~= en);
    }
    if missing.len() > 0 {
        let mut m = String::from_str("constructor '");
        m.append(name.as_str());
        m.append("' missing fields ");
        let d = debug_names(&missing);
        m.append(d.as_str());
        return Err(EvalError { message: m });
    }
    let mut extra: Vec<String> = Vec::new();
    let mut j: usize = 0;
    proof {
        assert(names_view(extra@) =~= Seq::<Seq<char>>::empty());
    }
    while j < given.len()
        invariant
            j <= given.len(),
            en == names_view(expected@),
            gn == field_names(value_fields_view(given@)),
            names_view(extra@) == extra_fields(gn.subrange(0, j as int), en),
        decreases given.len() - j,
    {
        if !has_name(expected, &given[j].0) {
            extra.push(given[j].0.clone());
        }
        proof {
            let sub = gn.subrange(0, j + 1);
            assert(sub.drop_last() =~= gn.subrange(0, j as int));
            assert(sub.last() == given@[j as int].0@);
            assert(names_view(extra@) =~= extra_fields(sub, en));
        }
        j = j + 1;
    }
    proof {
        assert(gn.subrange(0, gn.len() as int) =~= gn);
    }
    if extra.len() > 0 {
        let mut m = String::from_str("constructor '");
        m.append(name.as_str());
        m.append("' has unknown fields ");
        let d = debug_names(&extra);
        m.append(d.as_str());
        return Err(EvalError { message: m });
    }
    let r = Value::Variant { name: name.clone(), fields: given };
    proof {
        lemma_value_views(r);
    }
    Ok(r)
}

/// Runs the body of the `for` expression `e` for each item.
fn eval_for<B: Builtins>(
    e: &Expr,
    items: &Vec<Value>,
    ctx: &EvalContext,
    host: &B,
    locals: &Vec<(String, Value)>,
    depth: u64,
    log: &mut Ghost<Seq<HostCall>>,
) -> (r: Result<Vec<Value>, EvalError>)
    requires
        e is For,
    ensures
        extends(host, final(log)@, old(log)@),
        ctx.builtins@.len() == 0 ==> final(log)@ == old(log)@,
        forall|ans: Answers|
            agrees(ans, final(log)@, old(log)@.len() as int) ==> #[trigger] ev_for(
                e@,
                values_view(items@),
                ctx.env(),
                value_fields_view(locals@),
                depth as nat,
                ans,
                old(log)@.len() as int,
            ) == (values_res_view(r), final(log)@.len() as int),
    decreases depth, e, 0nat, 0nat, 1nat,
{
    proof {
        assert(e@ is For);
    }
    let ghost all = values_view(items@);
    let ghost env = ctx.env();
    let ghost ls = value_fields_view(locals@);
    let ghost p0 = log@.len() as int;
    let mut out: Vec<Value> = Vec::new();
    proof {
        assert(values_view(out@) =~= Seq::<SValue>::empty());
        assert(all.subrange(0, all.len() as int) =~= all);
    }
    let (name, guard, body) = match e {
        Expr::For { name, iter, guard, body } => (name, guard, body),
        _ => return Ok(out),
    };
    let mut i: usize = 0;
    while i < items.len()
        invariant
            i <= items.len(),
            all == values_view(items@),
            env == ctx.env(),
            ls == value_fields_view(locals@),
            p0 == old(log)@.len(),
            e matches Expr::For { name: n, guard: g, body: bd, .. } && n == name && g == guard && bd
                == body,
            extends(host, log@, old(log)@),
            ctx.builtins@.len() == 0 ==> log@ == old(log)@,
            forall|ans: Answers|
                agrees(ans, log@, p0) ==> #[trigger] ev_for(e@, all, env, ls, depth as nat, ans, p0)
                    == prepend(
                    values_view(out@),
                    ev_for(e@, all.subrange(i as int, all.len() as int), env, ls, depth as nat, ans, log@.len() as int),
                ),
        decreases items.len() - i,
    {
        let ghost rest = all.subrange(i as int, all.len() as int);
        let ghost before = values_view(out@);
        let ghost pi = log@.len() as int;
        let ghost logi = log@;
        proof {
            assert(rest.subrange(1, rest.len() as int) =~= all.subrange(i + 1, all.len() as int));
            assert(rest[0] == items@[i as int]@);
        }
        let mut inner = duplicate_fields(locals);
        inner.push((name.clone(), items[i].duplicate()));
        let ghost ils = value_fields_view(inner@);
        proof {
            assert(ils =~= ls.push((name@, all[i as int])));
        }
        let rg: Result<bool, EvalError> = match guard {
            Some(g) => match eval_expr(g, ctx, host, &inner, depth, log) {
                Ok(gv) => expect_bool(&gv),
                Err(err) => Err(err),
            },
            None => Ok(true),
        };
        let ghost pg = log@.len() as int;
        let rb: Result<Option<Value>, EvalError> = match rg {
            Err(err) => Err(err),
            Ok(false) => Ok(None),
            Ok(true) => match eval_expr(body, ctx, host, &inner, depth, log) {
                Ok(v) => Ok(Some(v)),
                Err(err) => Err(err),
            },
        };
        proof {
            assert forall|ans: Answers| agrees(ans, log@, p0) implies #[trigger] ev_for(
                e@,
                all,
                env,
                ls,
                depth as nat,
                ans,
                p0,
            ) == match rb {
                Err(err) => (Err::<Seq<SValue>, Seq<char>>(err.message@), log@.len() as int),
                Ok(None) => prepend(
                    before,
                    ev_for(e@, all.subrange(i + 1, all.len() as int), env, ls, depth as nat, ans, log@.len() as int),
                ),
                Ok(Some(v)) => prepend(
                    before.push(v@),
                    ev_for(e@, all.subrange(i + 1, all.len() as int), env, ls, depth as nat, ans, log@.len() as int),
                ),
            } by {
                assert(agrees(ans, logi, p0));
                let ghost _unfolded = ev_for(e@, rest, env, ls, depth as nat, ans, pi);
                match guard {
                    Some(g) => {
                        let ghost _unfolded = ev((**g)@, env, ils, depth as nat, ans, pi);
                    },
                    None => {},
                }
                let ghost _unfolded = ev((**body)@, env, ils, depth as nat, ans, pg);
                match rb {
                    Ok(Some(v)) => {
                        assert forall|s: Seq<SValue>| before + (seq![v@] + s) == before.push(v@) + s by {
                            assert(before + (seq![v@] + s) =~= before.push(v@) + s);
                        }
                    },
                    _ => {},
                }
            }
        }
        match rb {
            Err(err) => return Err(err),
            Ok(None) => {},
            Ok(Some(v)) => {
                out.push(v);
                proof {
                    assert(values_view(out@) =~= before.push(v@));
                }
            },
        }
        i = i + 1;
    }
    proof {
        assert(values_view(out@) + Seq::<SValue>::empty() =~= values_view(out@));
    }
    Ok(out)
}

/// Calls the function named by the call expression `e` with evaluated
/// arguments.
fn eval_call<B: Builtins>(
    e: &Expr,
    args: Vec<Value>,
    ctx: &EvalContext,
    host: &B,
    depth: u64,
    log: &mut Ghost<Seq<HostCall>>,
) -> (r: Result<Value, EvalError>)
    ensures
        extends(host, final(log)@, old(log)@),
        ctx.builtins@.len() == 0 ==> final(log)@ == old(log)@,
        forall|ans: Answers|
            agrees(ans, final(log)@, old(log)@.len() as int) ==> #[trigger] ev_call(
                e@,
                values_view(args@),
                ctx.env(),
                depth as nat,
                ans,
                old(log)@.len() as int,
            ) == (res_view(r), final(log)@.len() as int),
    decreases depth, e, 0nat, 0nat, 1nat,
{
    let callee = match e {
        Expr::Call { callee, args } => callee,
        _ => return Err(EvalError::new("unknown function")),
    };
    match ctx.find_fn_def(callee) {
        Some(def) => return eval_user_fn(e, def, args, ctx, host, depth, log),
        None => {},
    }
    if ctx.has_builtin(callee) {
        if !ctx.has_extern(callee) {
            return Err(named_error("builtin '", callee.as_str(), "' must be declared extern"));
        }
        let r = host.call(callee, &args);
        let ghost p0 = log@.len() as int;
        *log = Ghost(log@.push((callee@, values_view(args@), res_view(r))));
        proof {
            assert(log@[p0] == (callee@, values_view(args@), res_view(r)));
            assert forall|ans: Answers| agrees(ans, log@, p0) implies #[trigger] ev_call(
                e@,
                values_view(args@),
                ctx.env(),
                depth as nat,
                ans,
                p0,
            ) == (res_view(r), log@.len() as int) by {
                assert(ans(p0, log@[p0].0, log@[p0].1) == Some(log@[p0].2));
            }
        }
        return r;
    }
    if ctx.has_extern(callee) {
        return Err(named_error("extern function '", callee.as_str(), "' not registered"));
    }
    Err(named_error("unknown function '", callee.as_str(), "'"))
}

/// Runs a function of the program on evaluated arguments.
fn eval_user_fn<B: Builtins>(
    e: &Expr,
    def: &FnDef,
    args: Vec<Value>,
    ctx: &EvalContext,
    host: &B,
    depth: u64,
    log: &mut Ghost<Seq<HostCall>>,
) -> (r: Result<Value, EvalError>)
    requires
        e is Call,
        find_fn(ctx.env().funcs, e@->Call_callee) == Some((names_view(def.params@), def.body@)),
    ensures
        extends(host, final(log)@, old(log)@),
        ctx.builtins@.len() == 0 ==> final(log)@ == old(log)@,
        forall|ans: Answers|
            agrees(ans, final(log)@, old(log)@.len() as int) ==> #[trigger] ev_call(
                e@,
                values_view(args@),
                ctx.env(),
                depth as nat,
                ans,
                old(log)@.len() as int,
            ) == (res_view(r), final(log)@.len() as int),
    decreases depth, e, 0nat, 0nat, 0nat,
{
    let callee = match e {
        Expr::Call { callee, args } => callee,
        _ => return Err(EvalError::new("unknown function")),
    };
    if def.params.len() != args.len() {
        return Err(arity_error(callee, def.params.len(), args.len()));
    }
    if depth == 0 {
        return Err(EvalError::new("call depth limit exceeded"));
    }
    let ghost ps = names_view(def.params@);
    let ghost vs = values_view(args@);
    let mut locals: Vec<(String, Value)> = Vec::new();
    let mut i: usize = 0;
    while i < args.len()
        invariant
            i <= args.len(),
            args.len() == def.params.len(),
            ps == names_view(def.params@),
            vs == values_view(args@),
            locals@.len() == i,
            forall|j: int|
                #![trigger locals@[j]]
                0 <= j < i ==> locals@[j].0@ == ps[j] && locals@[j].1@ == vs[j],
        decreases args.len() - i,
    {
        locals.push((def.params[i].clone(), args[i].duplicate()));
        i = i + 1;
    }
    proof {
        assert(value_fields_view(locals@) =~= bind_params(ps, vs));
    }
    let ghost env = ctx.env();
    let ghost p0 = log@.len() as int;
    let r = eval_expr(&def.body, ctx, host, &locals, depth - 1, log);
    proof {
        assert forall|ans: Answers| agrees(ans, log@, p0) implies #[trigger] ev_call(
            e@,
            vs,
            env,
            depth as nat,
            ans,
            p0,
        ) == (res_view(r), log@.len() as int) by {
            let ghost _unfolded = ev(def.body@, env, bind_params(ps, vs), (depth - 1) as nat, ans, p0);
        }
    }
    r
}

/// The local bindings with more bindings after them.
fn extend_locals(locals: &Vec<(String, Value)>, binds: &Vec<(String, Value)>) -> (r: Vec<(String, Value)>)
    ensures
        value_fields_view(r@) == value_fields_view(locals@) + value_fields_view(binds@),
{
    let ghost ls = value_fields_view(locals@);
    let ghost bs = value_fields_view(binds@);
    let mut inner = duplicate_fields(locals);
    let mut j: usize = 0;
    proof {
        assert(ls + bs.subrange(0, 0) =~= ls);
    }
    while j < binds.len()
        invariant
            j <= binds.len(),
            ls == value_fields_view(locals@),
            bs == value_fields_view(binds@),
            value_fields_view(inner@) == ls + bs.subrange(0, j as int),
        decreases binds.len() - j,
    {
        let ghost before = value_fields_view(inner@);
        inner.push((binds[j].0.clone(), binds[j].1.duplicate()));
        proof {
            assert(value_fields_view(inner@) =~= before.push(bs[j as int]));
            assert(ls + bs.subrange(0, j + 1) =~= (ls + bs.subrange(0, j as int)).push(bs[j as int]));
        }
        j = j + 1;
    }
    proof {
        assert(bs.subrange(0, bs.len() as int) =~= bs);
    }
    inner
}

/// Finds the first arm whose pattern matches the value and evaluates it.
fn eval_arms<B: Builtins>(
    arms: &Vec<MatchArm>,
    v: &Value,
    ctx: &EvalContext,
    host: &B,
    locals: &Vec<(String, Value)>,
    depth: u64,
    log: &mut Ghost<Seq<HostCall>>,
) -> (r: Result<Value, EvalError>)
    ensures
        extends(host, final(log)@, old(log)@),
        ctx.builtins@.len() == 0 ==> final(log)@ == old(log)@,
        forall|ans: Answers|
            agrees(ans, final(log)@, old(log)@.len() as int) ==> #[trigger] ev_arms(
                carms_view(arms@),
                v@,
                ctx.env(),
                value_fields_view(locals@),
                depth as nat,
                ans,
                old(log)@.len() as int,
            ) == (res_view(r), final(log)@.len() as int),
    decreases depth, arms, 2nat, 0nat, 0nat,
{
    let ghost all = carms_view(arms@);
    let ghost env = ctx.env();
    let ghost ls = value_fields_view(locals@);
    let ghost p0 = log@.len() as int;
    let mut i: usize = 0;
    proof {
        assert(all.subrange(0, all.len() as int) =~= all);
    }
    while i < arms.len()
        invariant
            i <= arms.len(),
            all == carms_view(arms@),
            env == ctx.env(),
            ls == value_fields_view(locals@),
            p0 == old(log)@.len(),
            extends(host, log@, old(log)@),
            ctx.builtins@.len() == 0 ==> log@ == old(log)@,
            forall|ans: Answers|
                agrees(ans, log@, p0) ==> #[trigger] ev_arms(all, v@, env, ls, depth as nat, ans, p0)
                    == ev_arms(
                    all.subrange(i as int, all.len() as int),
                    v@,
                    env,
                    ls,
                    depth as nat,
                    ans,
                    log@.len() as int,
                ),
        decreases arms.len() - i,
    {
        let ghost rest = all.subrange(i as int, all.len() as int);
        let ghost pi = log@.len() as int;
        let ghost logi = log@;
        proof {
            assert(rest.subrange(1, rest.len() as int) =~= all.subrange(i + 1, all.len() as int));
            assert(decreases_to!(arms => arms[i as int]));
            assert(rest[0] == arms@[i as int]@);
        }
        let arm = &arms[i];
        let rm = match_pattern(&arm.pattern, v, ctx, host, locals, depth, log);
        let ghost pm = log@.len() as int;
        match rm {
            Err(e) => {
                proof {
                    assert forall|ans: Answers| agrees(ans, log@, p0) implies #[trigger] ev_arms(
                        all,
                        v@,
                        env,
                        ls,
                        depth as nat,
                        ans,
                        p0,
                    ) == (Err::<SValue, Seq<char>>(e.message@), log@.len() as int) by {
                        assert(agrees(ans, logi, p0));
                        let ghost _unfolded = ev_arms(rest, v@, env, ls, depth as nat, ans, pi);
                        let ghost _unfolded = ev_pattern(arm.pattern@, v@, env, ls, depth as nat, ans, pi);
                    }
                }
                return Err(e);
            },
            Ok(Some(binds)) => {
                let inner = extend_locals(locals, &binds);
                let ghost ils = value_fields_view(inner@);
                let r = eval_expr(&arm.body, ctx, host, &inner, depth, log);
                proof {
                    assert forall|ans: Answers| agrees(ans, log@, p0) implies #[trigger] ev_arms(
                        all,
                        v@,
                        env,
                        ls,
                        depth as nat,
                        ans,
                        p0,
                    ) == (res_view(r), log@.len() as int) by {
                        assert(agrees(ans, logi, p0));
                        let ghost _unfolded = ev_arms(rest, v@, env, ls, depth as nat, ans, pi);
                        let ghost _unfolded = ev_pattern(arm.pattern@, v@, env, ls, depth as nat, ans, pi);
                        let ghost _unfolded = ev(arm.body@, env, ils, depth as nat, ans, pm);
                    }
                }
                return r;
            },
            Ok(None) => {
                proof {
                    assert forall|ans: Answers| agrees(ans, log@, p0) implies #[trigger] ev_arms(
                        all,
                        v@,
                        env,
                        ls,
                        depth as nat,
                        ans,
                        p0,
                    ) == ev_arms(all.subrange(i + 1, all.len() as int), v@, env, ls, depth as nat, ans, log@.len() as int) by {
                        assert(agrees(ans, logi, p0));
                        let ghost _unfolded = ev_arms(rest, v@, env, ls, depth as nat, ans, pi);
                        let ghost _unfolded = ev_pattern(arm.pattern@, v@, env, ls, depth as nat, ans, pi);
                    }
                }
            },
        }
        i = i + 1;
    }
    Err(EvalError::new("no match arm matched"))
}

pub open spec fn binds_res_view(r: Result<Option<Vec<(String, Value)>>, EvalError>) -> Result<
    Option<SLocals>,
    Seq<char>,
> {
    match r {
        Ok(Some(bs)) => Ok(Some(value_fields_view(bs@))),
        Ok(None) => Ok(None),
        Err(e) => Err(e.message@),
    }
}

/// Whether a pattern matches a value, and the bindings it makes.
fn match_pattern<B: Builtins>(
    pat: &MatchPattern,
    v: &Value,
    ctx: &EvalContext,
    host: &B,
    locals: &Vec<(String, Value)>,
    depth: u64,
    log: &mut Ghost<Seq<HostCall>>,
) -> (r: Result<Option<Vec<(String, Value)>>, EvalError>)
    ensures
        extends(host, final(log)@, old(log)@),
        ctx.builtins@.len() == 0 ==> final(log)@ == old(log)@,
        forall|ans: Answers|
            agrees(ans, final(log)@, old(log)@.len() as int) ==> #[trigger] ev_pattern(
                pat@,
                v@,
                ctx.env(),
                value_fields_view(locals@),
                depth as nat,
                ans,
                old(log)@.len() as int,
            ) == (binds_res_view(r), final(log)@.len() as int),
    decreases depth, pat, 2nat, 0nat, 0nat,
{
    match pat {
        MatchPattern::Wildcard => {
            let empty: Vec<(String, Value)> = Vec::new();
            proof {
                assert(value_fields_view(empty@) =~= Seq::<(Seq<char>, SValue)>::empty());
            }
            Ok(Some(empty))
        },
        MatchPattern::Expr(_) => {
            let ghost p0 = log@.len() as int;
            let r = match_value_pattern(pat, v, ctx, host, locals, depth, log);
            proof {
                assert forall|ans: Answers| agrees(ans, log@, p0) implies #[trigger] ev_pattern(
                    pat@,
                    v@,
                    ctx.env(),
                    value_fields_view(locals@),
                    depth as nat,
                    ans,
                    p0,
                ) == (binds_res_view(r), log@.len() as int) by {
                    let ghost _unfolded = ev_value_pattern(pat@, v@, ctx.env(), value_fields_view(locals@), depth as nat, ans, p0);
                }
            }
            r
        },
        MatchPattern::Compare { .. } => {
            let ghost p0 = log@.len() as int;
            let r = match_compare_pattern(pat, v, ctx, host, locals, depth, log);
            proof {
                assert forall|ans: Answers| agrees(ans, log@, p0) implies #[trigger] ev_pattern(
                    pat@,
                    v@,
                    ctx.env(),
                    value_fields_view(locals@),
                    depth as nat,
                    ans,
                    p0,
                ) == (binds_res_view(r), log@.len() as int) by {
                    let ghost _unfolded = ev_compare_pattern(pat@, v@, ctx.env(), value_fields_view(locals@), depth as nat, ans, p0);
                }
            }
            r
        },
        MatchPattern::Variant { name, fields } => {
            let r = bind_variant(name, fields, v);
            proof {
                assert(pat@->Variant_fields =~= field_patterns(fields@));
            }
            Ok(r)
        },
    }
}

/// No bindings if `b`, no match otherwise.
fn empty_binds(b: bool) -> (r: Option<Vec<(String, Value)>>)
    ensures
        opt_binds_view(r) == no_binds(b),
{
    if b {
        let empty: Vec<(String, Value)> = Vec::new();
        proof {
            assert(value_fields_view(empty@) =~= Seq::<(Seq<char>, SValue)>::empty());
        }
        Some(empty)
    } else {
        None
    }
}

/// Matches a value pattern: the value must be `==` to the pattern's.
fn match_value_pattern<B: Builtins>(
    pat: &MatchPattern,
    v: &Value,
    ctx: &EvalContext,
    host: &B,
    locals: &Vec<(String, Value)>,
    depth: u64,
    log: &mut Ghost<Seq<HostCall>>,
) -> (r: Result<Option<Vec<(String, Value)>>, EvalError>)
    requires
        pat is Expr,
    ensures
        extends(host, final(log)@, old(log)@),
        ctx.builtins@.len() == 0 ==> final(log)@ == old(log)@,
        forall|ans: Answers|
            agrees(ans, final(log)@, old(log)@.len() as int) ==> #[trigger] ev_value_pattern(
                pat@,
                v@,
                ctx.env(),
                value_fields_view(locals@),
                depth as nat,
                ans,
                old(log)@.len() as int,
            ) == (binds_res_view(r), final(log)@.len() as int),
    decreases depth, pat, 1nat, 0nat, 0nat,
{
    let ghost env = ctx.env();
    let ghost ls = value_fields_view(locals@);
    let ghost p0 = log@.len() as int;
    let x = match pat {
        MatchPattern::Expr(x) => x,
        _ => return Err(EvalError::new("")),
    };
    let r = match eval_expr(x, ctx, host, locals, depth, log) {
        Err(e) => Err(e),
        Ok(expected) => match equal_values(v, &expected) {
            Err(e) => Err(e),
            Ok(same) => Ok(empty_binds(same)),
        },
    };
    proof {
        assert forall|ans: Answers| agrees(ans, log@, p0) implies #[trigger] ev_value_pattern(
            pat@,
            v@,
            env,
            ls,
            depth as nat,
            ans,
            p0,
        ) == (binds_res_view(r), log@.len() as int) by {
            let ghost _unfolded = ev(x@, env, ls, depth as nat, ans, p0);
        }
    }
    r
}

/// Matches a comparison pattern against an integer.
fn match_compare_pattern<B: Builtins>(
    pat: &MatchPattern,
    v: &Value,
    ctx: &EvalContext,
    host: &B,
    locals: &Vec<(String, Value)>,
    depth: u64,
    log: &mut Ghost<Seq<HostCall>>,
) -> (r: Result<Option<Vec<(String, Value)>>, EvalError>)
    requires
        pat is Compare,
    ensures
        extends(host, final(log)@, old(log)@),
        ctx.builtins@.len() == 0 ==> final(log)@ == old(log)@,
        forall|ans: Answers|
            agrees(ans, final(log)@, old(log)@.len() as int) ==> #[trigger] ev_compare_pattern(
                pat@,
                v@,
                ctx.env(),
                value_fields_view(locals@),
                depth as nat,
                ans,
                old(log)@.len() as int,
            ) == (binds_res_view(r), final(log)@.len() as int),
    decreases depth, pat, 1nat, 0nat, 0nat,
{
    let ghost env = ctx.env();
    let ghost ls = value_fields_view(locals@);
    let ghost p0 = log@.len() as int;
    let (op, expr) = match pat {
        MatchPattern::Compare { op, expr } => (op, expr),
        _ => return Err(EvalError::new("")),
    };
    let r = match eval_expr(expr, ctx, host, locals, depth, log) {
        Err(e) => Err(e),
        Ok(rhs) => match v {
            Value::Int(left) => match expect_int(&rhs) {
                Err(e) => Err(e),
                Ok(right) => match op {
                    BinaryOp::Lt => Ok(empty_binds(*left < right)),
                    BinaryOp::Lte => Ok(empty_binds(*left <= right)),
                    BinaryOp::Gt => Ok(empty_binds(*left > right)),
                    BinaryOp::Gte => Ok(empty_binds(*left >= right)),
                    _ => Err(EvalError::new("invalid compare operator")),
                },
            },
            _ => Err(EvalError::new("compare pattern expects Int")),
        },
    };
    proof {
        assert forall|ans: Answers| agrees(ans, log@, p0) implies #[trigger] ev_compare_pattern(
            pat@,
            v@,
            env,
            ls,
            depth as nat,
            ans,
            p0,
        ) == (binds_res_view(r), log@.len() as int) by {
            let ghost _unfolded = ev(expr@, env, ls, depth as nat, ans, p0);
        }
    }
    r
}

/// The patterns of a variant pattern's fields.
pub open spec fn field_patterns(fs: Seq<FieldPattern>) -> Seq<(Seq<char>, Option<Seq<char>>)> {
    Seq::new(fs.len(), |j: int| fs[j]@)
}

pub open spec fn prepend_binds(bs: SLocals, o: Option<SLocals>) -> Option<SLocals> {
    match o {
        Some(x) => Some(bs + x),
        None => None,
    }
}

pub open spec fn opt_binds_view(r: Option<Vec<(String, Value)>>) -> Option<SLocals> {
    match r {
        Some(bs) => Some(value_fields_view(bs@)),
        None => None,
    }
}

/// The first field of the given name.
fn find_first_field<'b>(fs: &'b Vec<(String, Value)>, n: &String) -> (r: Option<&'b Value>)
    ensures
        match r {
            Some(v) => find_field(value_fields_view(fs@), n@) == Some(v@),
            None => find_field(value_fields_view(fs@), n@) is None,
        },
{
    let ghost all = value_fields_view(fs@);
    let mut i: usize = 0;
    proof {
        assert(all.subrange(0, all.len() as int) =~= all);
    }
    while i < fs.len()
        invariant
            i <= fs.len(),
            all == value_fields_view(fs@),
            find_field(all, n@) == find_field(all.subrange(i as int, all.len() as int), n@),
        decreases fs.len() - i,
    {
        let ghost rest = all.subrange(i as int, all.len() as int);
        if fs[i].0 == *n {
            return Some(&fs[i].1);
        }
        proof {
            assert(rest.drop_first() =~= all.subrange(i + 1, all.len() as int));
        }
        i = i + 1;
    }
    None
}

/// The bindings of a variant pattern, or `None` where it does not match.
fn bind_variant(name: &String, fields: &Vec<FieldPattern>, v: &Value) -> (r: Option<
    Vec<(String, Value)>,
>)
    ensures
        opt_binds_view(r) == variant_match(name@, field_patterns(fields@), v@),
{
    proof {
        lemma_value_views(*v);
    }
    match v {
        Value::Variant { name: vn, fields: vf } => {
            if *vn != *name {
                return None;
            }
            let ghost ps = field_patterns(fields@);
            let ghost fs = value_fields_view(vf@);
            let mut binds: Vec<(String, Value)> = Vec::new();
            let mut i: usize = 0;
            proof {
                assert(ps.subrange(0, ps.len() as int) =~= ps);
                assert(value_fields_view(binds@) =~= Seq::<(Seq<char>, SValue)>::empty());
                assert(Seq::<(Seq<char>, SValue)>::empty() + bind_fields(ps, fs).unwrap_or(Seq::empty()) =~= bind_fields(ps, fs).unwrap_or(Seq::empty()));
            }
            while i < fields.len()
                invariant
                    i <= fields.len(),
                    ps == field_patterns(fields@),
                    fs == value_fields_view(vf@),
                    variant_match(name@, ps, v@) == bind_fields(ps, fs),
                    bind_fields(ps, fs) == prepend_binds(
                        value_fields_view(binds@),
                        bind_fields(ps.subrange(i as int, ps.len() as int), fs),
                    ),
                decreases fields.len() - i,
            {
                let ghost rest = ps.subrange(i as int, ps.len() as int);
                let ghost before = value_fields_view(binds@);
                proof {
                    assert(rest.drop_first() =~= ps.subrange(i + 1, ps.len() as int));
                    assert(rest[0] == fields@[i as int]@);
                }
                let fp = &fields[i];
                match find_first_field(vf, &fp.field) {
                    None => return None,
                    Some(val) => match &fp.bind {
                        Some(b) => {
                            binds.push((b.clone(), val.duplicate()));
                            proof {
                                assert(value_fields_view(binds@) =~= before.push((b@, val@)));
                                assert forall|x: SLocals| before + (seq![(b@, val@)] + x) == value_fields_view(binds@) + x by {
                                    assert(before + (seq![(b@, val@)] + x) =~= value_fields_view(binds@) + x);
                                }
                            }
                        },
                        None => {},
                    },
                }
                i = i + 1;
            }
            proof {
                assert(value_fields_view(binds@) + Seq::<(Seq<char>, SValue)>::empty() =~= value_fields_view(binds@));
            }
            Some(binds)
        },
        _ => None,
    }
}

/// Runs a program with the given host functions.
fn run<'a, B: Builtins>(program: &'a Program, host: &B, names: &'a Vec<String>, log: &mut Ghost<Seq<HostCall>>) -> (r: Result<
    Option<Value>,
    EvalError,
>)
    requires
        old(log)@.len() == 0,
    ensures
        names@.len() == 0 ==> final(log)@.len() == 0,
        extends(host, final(log)@, old(log)@),
        forall|ans: Answers|
            agrees(ans, final(log)@, 0) ==> #[trigger] run_program(program@, names_view(names@), ans)
                == program_res_view(r),
{
    let ghost nv = names_view(names@);
    let ghost n0 = names@.len();
    let ghost items = program@.items;
    let mut ctx = EvalContext {
        globals: Vec::new(),
        funcs: Vec::new(),
        externs: Vec::new(),
        builtins: names,
        constructors: Vec::new(),
    };
    proof {
        assert(ctx.env() =~= program_env(items.subrange(0, 0), nv));
    }
    let mut i: usize = 0;
    while i < program.items.len()
        invariant
            i <= program.items.len(),
            items == program@.items,
            items.len() == program.items.len(),
            nv == names_view(ctx.builtins@),
            ctx.env() == program_env(items.subrange(0, i as int), nv),
        decreases program.items.len() - i,
    {
        let ghost sub = items.subrange(0, i + 1);
        let ghost env = ctx.env();
        proof {
            assert(sub.drop_last() =~= items.subrange(0, i as int));
            assert(sub.last() == program.items@[i as int]@);
        }
        match &program.items[i] {
            Item::Fn(def) => {
                ctx.funcs.push(def);
                proof {
                    assert(ctx.env() =~= program_env(sub, nv));
                }
            },
            Item::ExternFn(def) => {
                ctx.externs.push(&def.name);
                proof {
                    assert(ctx.env() =~= program_env(sub, nv));
                }
            },
            Item::Data(def) => {
                let ghost vs = Seq::new(def.variants@.len(), |k: int| def.variants@[k]@);
                let mut j: usize = 0;
                while j < def.variants.len()
                    invariant
                        j <= def.variants.len(),
                        vs == Seq::new(def.variants@.len(), |k: int| def.variants@[k]@),
                        nv == names_view(ctx.builtins@),
                        ctx.env() == (SEnv { ctors: env.ctors + vs.subrange(0, j as int), ..env }),
                    decreases def.variants.len() - j,
                {
                    let ghost before = ctx.env().ctors;
                    ctx.constructors.push(&def.variants[j]);
                    proof {
                        assert(ctx.env().ctors =~= before.push(def.variants@[j as int]@));
                        assert(env.ctors + vs.subrange(0, j + 1) =~= (env.ctors + vs.subrange(0, j as int)).push(vs[j as int]));
                        assert(ctx.env() =~= (SEnv { ctors: env.ctors + vs.subrange(0, j + 1), ..env }));
                    }
                    j = j + 1;
                }
                proof {
                    assert(vs.subrange(0, vs.len() as int) =~= vs);
                    assert(ctx.env() =~= program_env(sub, nv));
                }
            },
            Item::Let(_) => {
                proof {
                    assert(ctx.env() =~= program_env(sub, nv));
                }
            },
        }
        i = i + 1;
    }
    proof {
        assert(items.subrange(0, items.len() as int) =~= items);
        assert(items.subrange(0, items.len() as int) =~= items.subrange(0, 0) + items);
    }
    let ghost env0 = ctx.env();
    let mut i: usize = 0;
    while i < program.items.len()
        invariant
            i <= program.items.len(),
            items == program@.items,
            items.len() == program.items.len(),
            nv == names_view(ctx.builtins@),
            n0 == ctx.builtins@.len(),
            env0 == program_env(items, nv),
            nv == names_view(names@),
            n0 == names@.len(),
            n0 == 0 ==> log@.len() == 0,
            extends(host, log@, old(log)@),
            forall|ans: Answers|
                agrees(ans, log@, 0) ==> #[trigger] run_lets(items, env0, ans, 0) == run_lets(
                    items.subrange(i as int, items.len() as int),
                    ctx.env(),
                    ans,
                    log@.len() as int,
                ),
        decreases program.items.len() - i,
    {
        let ghost rest = items.subrange(i as int, items.len() as int);
        proof {
            assert(rest.subrange(1, rest.len() as int) =~= items.subrange(i + 1, items.len() as int));
            assert(rest[0] == program.items@[i as int]@);
        }
        let ghost pi = log@.len() as int;
        let ghost logi = log@;
        let ghost envi = ctx.env();
        match &program.items[i] {
            Item::Let(def) => {
                let locals: Vec<(String, Value)> = Vec::new();
                proof {
                    assert(value_fields_view(locals@) =~= Seq::<(Seq<char>, SValue)>::empty());
                }
                let rv = eval_expr(&def.expr, &ctx, host, &locals, MAX_CALL_DEPTH, log);
                proof {
                    assert forall|ans: Answers| agrees(ans, log@, 0) implies #[trigger] run_lets(
                        items,
                        env0,
                        ans,
                        0,
                    ) == match rv {
                        Err(e) => (Err::<SEnv, Seq<char>>(e.message@), log@.len() as int),
                        Ok(v) => run_lets(
                            items.subrange(i + 1, items.len() as int),
                            SEnv { globals: envi.globals.push((def.name@, v@)), ..envi },
                            ans,
                            log@.len() as int,
                        ),
                    } by {
                        assert(agrees(ans, logi, 0));
                        let ghost _unfolded = run_lets(rest, envi, ans, pi);
                        let ghost _unfolded = ev(def.expr@, envi, Seq::empty(), MAX_CALL_DEPTH as nat, ans, pi);
                    }
                }
                let v = match rv {
                    Ok(v) => v,
                    Err(e) => return Err(e),
                };
                let ghost env1 = ctx.env();
                ctx.globals.push((def.name.clone(), v));
                proof {
                    assert(ctx.env() =~= (SEnv { globals: env1.globals.push((def.name@, v@)), ..env1 }));
                }
            },
            _ => {},
        }
        i = i + 1;
    }
    let ghost pl = log@.len() as int;
    let ghost logl = log@;
    let ghost envl = ctx.env();
    let r = match &program.expr {
        None => Ok(None),
        Some(e) => {
            let locals: Vec<(String, Value)> = Vec::new();
            proof {
                assert(value_fields_view(locals@) =~= Seq::<(Seq<char>, SValue)>::empty());
            }
            match eval_expr(e, &ctx, host, &locals, MAX_CALL_DEPTH, log) {
                Ok(v) => Ok(Some(v)),
                Err(err) => Err(err),
            }
        },
    };
    proof {
        assert(items.subrange(items.len() as int, items.len() as int).len() == 0);
        assert forall|ans: Answers| agrees(ans, log@, 0) implies #[trigger] run_program(
            program@,
            nv,
            ans,
        ) == program_res_view(r) by {
            assert(agrees(ans, logl, 0));
            let ghost _unfolded = run_lets(items, env0, ans, 0);
            match &program.expr {
                Some(e) => {
                    let ghost _unfolded = ev(e@, envl, Seq::empty(), MAX_CALL_DEPTH as nat, ans, pl);
                },
                None => {},
            }
        }
    }
    r
}

/// Host functions must be declared: a call of a name that is no function of
/// the program takes an answer from the host exactly when the name is both
/// declared `extern` and provided by the host; otherwise it reads none.
pub proof fn law_host_called_only_for_declared_externs(
    callee: Seq<char>,
    args: Seq<CExpr>,
    vals: Seq<SValue>,
    env: SEnv,
    depth: nat,
    ans: Answers,
    pos: int,
)
    requires
        find_fn(env.funcs, callee) is None,
    ensures
        ev_call(CExpr::Call { callee, args }, vals, env, depth, ans, pos).1 == if env.externs.contains(
            callee,
        ) && env.builtins.contains(callee) {
            pos + 1
        } else {
            pos
        },
        env.externs.contains(callee) && env.builtins.contains(callee) ==> ev_call(
            CExpr::Call { callee, args },
            vals,
            env,
            depth,
            ans,
            pos,
        ).0 == match ans(pos, callee, vals) {
            Some(r) => r,
            None => Err("the host gave no answer"@),
        },
{
}

/// Runs a program that uses no host functions. Its result is the value of
/// its final expression (`None` without one), or the first error.
pub fn eval_program(program: &Program) -> (r: Result<Option<Value>, EvalError>)
    ensures
        forall|ans: Answers| run_program(program@, Seq::empty(), ans) == program_res_view(r),
{
    let mut log: Ghost<Seq<HostCall>> = Ghost(Seq::empty());
    let names: Vec<String> = Vec::new();
    proof {
        assert(names_view(names@) =~= Seq::<Seq<char>>::empty());
    }
    let r = run(program, &NoHost, &names, &mut log);
    proof {
        assert forall|ans: Answers| #[trigger] run_program(program@, Seq::empty(), ans) == program_res_view(r) by {
            assert(agrees(ans, log@, 0));
        }
    }
    r
}

/// Whether the host gives each answer of the log to its call: the function
/// of that name with those arguments.
pub open spec fn host_gave<B: Builtins>(host: &B, log: Seq<HostCall>) -> bool {
    forall|i: int| 0 <= i < log.len() ==> host.answers((#[trigger] log[i]).0, log[i].1, log[i].2)
}

/// Whether the run of `program` is fixed by the calls of `log`: every
/// answer sequence that gives the `i`-th call of the log its answer, for
/// each `i`, makes the program's meaning `r`. The run then makes exactly
/// those calls, in that order, and asks nothing more of the host.
pub open spec fn run_fixed_by(
    program: CProgram,
    names: Seq<Seq<char>>,
    log: Seq<HostCall>,
    r: Result<Option<SValue>, Seq<char>>,
) -> bool {
    forall|ans: Answers| agrees(ans, log, 0) ==> #[trigger] run_program(program, names, ans) == r
}

/// Runs a program with a host that provides the functions named `names`.
/// The run makes a sequence of host calls, each of a function with the
/// arguments the program evaluated, in the order the program makes them;
/// the host gives each its answer, and the result is what the program
/// gives with those answers. With no names the host is never called and
/// the result depends on nothing else.
pub fn eval_program_with_host<B: Builtins>(program: &Program, names: &Vec<String>, host: &B) -> (r: Result<
    Option<Value>,
    EvalError,
>)
    ensures
        exists|log: Seq<HostCall>|
            host_gave(host, log) && run_fixed_by(program@, names_view(names@), log, program_res_view(r)),
        names@.len() == 0 ==> forall|ans: Answers|
            run_program(program@, names_view(names@), ans) == program_res_view(r),
{
    let mut log: Ghost<Seq<HostCall>> = Ghost(Seq::empty());
    let r = run(program, host, names, &mut log);
    proof {
        let l = log@;
        assert(host_gave(host, l));
        assert(run_fixed_by(program@, names_view(names@), l, program_res_view(r)));
        if names@.len() == 0 {
            assert forall|a: Answers| #[trigger] run_program(program@, names_view(names@), a) == program_res_view(r) by {
                assert(agrees(a, l, 0));
            }
        }
    }
    r
}

/// Runs a program with the functions of a host, which it asks for their
/// names once. As with `eval_program_with_host`, for the names the host
/// gave (those it states, where it states them): the run makes a sequence
/// of host calls, the host answers each, and the result is what the
/// program gives with those answers.
pub fn eval_program_with_builtins<B: Builtins>(program: &Program, builtins: &B) -> (r: Result<
    Option<Value>,
    EvalError,
>)
    ensures
        exists|names: Seq<Seq<char>>, log: Seq<HostCall>|
            host_gave(builtins, log) && run_fixed_by(program@, names, log, program_res_view(r)) && (
            builtins.states_names() ==> names == builtins.spec_names()),
{
    let names = builtins.names();
    let r = eval_program_with_host(program, &names, builtins);
    proof {
        let log = choose|log: Seq<HostCall>|
            host_gave(builtins, log) && run_fixed_by(program@, names_view(names@), log, program_res_view(r));
        assert(host_gave(builtins, log));
    }
    r
}

} // verus!
