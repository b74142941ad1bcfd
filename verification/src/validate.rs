//! Checks on the surface tree that the grammar does not make: the arms of
//! every match, and the order in which a function first uses its
//! parameters.
use vstd::prelude::*;

use vstd::string::StringExecFns;

use crate::ast::{names_view, BinaryOp};
use crate::ast::surface::{
    arms_view, entries_view, exprs_view, fields_view, lemma_expr_views, Expr, FnDef, Item,
    MatchArm, MatchPattern, PipeTarget, Program, SArm, SExpr, SItem, SPattern, SPipeTarget, SProgram,
};
use crate::error::Error;

verus! {

// ---------------------------------------------------------------------------
// The variables of an expression, in reading order.
/// The names of the variables that an expression mentions, left to right,
/// repetitions included. Patterns bind names but mention none.
pub open spec fn expr_vars(e: SExpr) -> Seq<Seq<char>>
    decreases e,
{
    match e {
        SExpr::Var(n) => seq![n],
        SExpr::List(items) => list_vars(items),
        SExpr::RangeList { start, end } => expr_vars(*start) + expr_vars(*end),
        SExpr::Dict(entries) => entry_vars(entries),
        SExpr::Construct { name, fields } => field_vars(fields),
        SExpr::For { name, iter, guard, body } => expr_vars(*iter) + match guard {
            Some(g) => expr_vars(*g),
            None => Seq::empty(),
        } + expr_vars(*body),
        SExpr::Unary { op, expr } => expr_vars(*expr),
        SExpr::Binary { op, left, right } => expr_vars(*left) + expr_vars(*right),
        SExpr::If { cond, then_branch, else_branch } => expr_vars(*cond) + expr_vars(*then_branch)
            + expr_vars(*else_branch),
        SExpr::Call { callee, args } => list_vars(args),
        SExpr::Pipe { input, target } => expr_vars(*input) + match target {
            SPipeTarget::Ident(_) => Seq::empty(),
            SPipeTarget::Call { name, args } => list_vars(args),
        },
        SExpr::Match { scrutinee, arms } => expr_vars(*scrutinee) + arm_vars(arms),
        _ => Seq::empty(),
    }
}

pub open spec fn list_vars(items: Seq<SExpr>) -> Seq<Seq<char>>
    decreases items,
{
    if items.len() == 0 {
        Seq::empty()
    } else {
        expr_vars(items[0]) + list_vars(items.subrange(1, items.len() as int))
    }
}

pub open spec fn entry_vars(entries: Seq<(SExpr, SExpr)>) -> Seq<Seq<char>>
    decreases entries,
{
    if entries.len() == 0 {
        Seq::empty()
    } else {
        expr_vars(entries[0].0) + expr_vars(entries[0].1) + entry_vars(
            entries.subrange(1, entries.len() as int),
        )
    }
}

pub open spec fn field_vars(fields: Seq<(Seq<char>, SExpr)>) -> Seq<Seq<char>>
    decreases fields,
{
    if fields.len() == 0 {
        Seq::empty()
    } else {
        expr_vars(fields[0].1) + field_vars(fields.subrange(1, fields.len() as int))
    }
}

/// The expression inside a value or comparison pattern.
pub open spec fn pattern_vars(p: SPattern) -> Seq<Seq<char>> {
    match p {
        SPattern::Expr(x) => expr_vars(x),
        SPattern::Compare { op, expr } => expr_vars(expr),
        _ => Seq::empty(),
    }
}

pub open spec fn arm_vars(arms: Seq<SArm>) -> Seq<Seq<char>>
    decreases arms,
{
    if arms.len() == 0 {
        Seq::empty()
    } else {
        (match arms[0].pattern {
            SPattern::Expr(x) => expr_vars(x),
            SPattern::Compare { op, expr } => expr_vars(expr),
            _ => Seq::empty(),
        }) + expr_vars(arms[0].body) + arm_vars(arms.subrange(1, arms.len() as int))
    }
}

/// One name read: a parameter not yet seen joins the list.
pub open spec fn first_step(ps: Seq<Seq<char>>, fs: Seq<Seq<char>>, n: Seq<char>) -> Seq<Seq<char>> {
    if ps.contains(n) && !fs.contains(n) {
        fs.push(n)
    } else {
        fs
    }
}

/// The parameters among `names`, in the order of their first use, after
/// those already in `fs`.
pub open spec fn firsts_from(ps: Seq<Seq<char>>, fs: Seq<Seq<char>>, names: Seq<Seq<char>>) -> Seq<
    Seq<char>,
>
    decreases names.len(),
{
    if names.len() == 0 {
        fs
    } else {
        firsts_from(ps, first_step(ps, fs, names[0]), names.subrange(1, names.len() as int))
    }
}

/// The index a parameter name maps to: its last position in the list, or -1.
pub open spec fn param_index(ps: Seq<Seq<char>>, n: Seq<char>) -> int
    decreases ps.len(),
{
    if ps.len() == 0 {
        -1
    } else if ps.last() == n {
        ps.len() - 1
    } else {
        param_index(ps.drop_last(), n)
    }
}

pub open spec fn order_message(f: Seq<char>, later: Seq<char>, earlier: Seq<char>) -> Seq<char> {
    "function '"@ + f + "' uses parameter '"@ + later + "' before earlier parameter '"@ + earlier
        + "'"@
}

/// The first place, from `i` on, where a parameter is first used before one
/// that precedes it.
pub open spec fn order_check_from(f: Seq<char>, ps: Seq<Seq<char>>, fs: Seq<Seq<char>>, i: int) -> Option<
    Seq<char>,
>
    decreases fs.len() - i,
{
    if i < 1 || i >= fs.len() {
        None
    } else if param_index(ps, fs[i]) < param_index(ps, fs[i - 1]) {
        Some(order_message(f, fs[i], fs[i - 1]))
    } else {
        order_check_from(f, ps, fs, i + 1)
    }
}

/// The parameters of a function in the order in which its body first uses
/// them.
pub open spec fn first_uses(ps: Seq<Seq<char>>, body: SExpr) -> Seq<Seq<char>> {
    firsts_from(ps, Seq::empty(), expr_vars(body))
}

pub open spec fn param_order_check(f: Seq<char>, ps: Seq<Seq<char>>, body: SExpr) -> Option<Seq<char>> {
    order_check_from(f, ps, first_uses(ps, body), 1)
}

// ---------------------------------------------------------------------------
// The match checks, in the order the validator makes them.
pub open spec fn first_err(a: Option<Seq<char>>, b: Option<Seq<char>>) -> Option<Seq<char>> {
    if a is Some {
        a
    } else {
        b
    }
}

/// The first error in an expression, if any.
pub open spec fn expr_check(e: SExpr) -> Option<Seq<char>>
    decreases e,
{
    match e {
        SExpr::List(items) => list_check(items),
        SExpr::RangeList { start, end } => first_err(expr_check(*start), expr_check(*end)),
        SExpr::Dict(entries) => entry_check(entries),
        SExpr::Construct { name, fields } => field_check(fields),
        SExpr::For { name, iter, guard, body } => first_err(
            expr_check(*iter),
            first_err(
                match guard {
                    Some(g) => expr_check(*g),
                    None => None,
                },
                expr_check(*body),
            ),
        ),
        SExpr::Unary { op, expr } => expr_check(*expr),
        SExpr::Binary { op, left, right } => first_err(expr_check(*left), expr_check(*right)),
        SExpr::If { cond, then_branch, else_branch } => first_err(
            expr_check(*cond),
            first_err(expr_check(*then_branch), expr_check(*else_branch)),
        ),
        SExpr::Call { callee, args } => list_check(args),
        SExpr::Pipe { input, target } => first_err(
            expr_check(*input),
            match target {
                SPipeTarget::Ident(_) => None,
                SPipeTarget::Call { name, args } => list_check(args),
            },
        ),
        SExpr::Match { scrutinee, arms } => first_err(
            expr_check(*scrutinee),
            if arms.len() == 0 {
                Some("match requires at least one arm"@)
            } else {
                arm_check(arms, None)
            },
        ),
        _ => None,
    }
}

pub open spec fn list_check(items: Seq<SExpr>) -> Option<Seq<char>>
    decreases items,
{
    if items.len() == 0 {
        None
    } else {
        first_err(expr_check(items[0]), list_check(items.subrange(1, items.len() as int)))
    }
}

pub open spec fn entry_check(entries: Seq<(SExpr, SExpr)>) -> Option<Seq<char>>
    decreases entries,
{
    if entries.len() == 0 {
        None
    } else {
        first_err(
            expr_check(entries[0].0),
            first_err(
                expr_check(entries[0].1),
                entry_check(entries.subrange(1, entries.len() as int)),
            ),
        )
    }
}

pub open spec fn field_check(fields: Seq<(Seq<char>, SExpr)>) -> Option<Seq<char>>
    decreases fields,
{
    if fields.len() == 0 {
        None
    } else {
        first_err(expr_check(fields[0].1), field_check(fields.subrange(1, fields.len() as int)))
    }
}

/// The arms from some point on; `wc` says whether a wildcard arm was seen
/// before and, if so, whether it was the last arm.
pub open spec fn arm_check(arms: Seq<SArm>, wc: Option<bool>) -> Option<Seq<char>>
    decreases arms,
{
    if arms.len() == 0 {
        if wc == Some(false) {
            Some("match wildcard '_' arm must be last"@)
        } else {
            None
        }
    } else {
        let rest = arms.subrange(1, arms.len() as int);
        match arms[0].pattern {
            SPattern::Wildcard => if wc is Some {
                Some("match may contain only one wildcard arm"@)
            } else {
                first_err(expr_check(arms[0].body), arm_check(rest, Some(arms.len() == 1)))
            },
            SPattern::Expr(x) => first_err(
                expr_check(x),
                first_err(expr_check(arms[0].body), arm_check(rest, wc)),
            ),
            SPattern::Compare { op, expr } => first_err(
                expr_check(expr),
                first_err(expr_check(arms[0].body), arm_check(rest, wc)),
            ),
            SPattern::Variant { name, fields } => first_err(
                expr_check(arms[0].body),
                arm_check(rest, wc),
            ),
        }
    }
}

pub open spec fn item_check(item: SItem) -> Option<Seq<char>> {
    match item {
        SItem::Fn { name, params, body } => first_err(
            expr_check(body),
            param_order_check(name, params, body),
        ),
        SItem::Let { name, expr } => expr_check(expr),
        _ => None,
    }
}

pub open spec fn items_check(items: Seq<SItem>) -> Option<Seq<char>>
    decreases items.len(),
{
    if items.len() == 0 {
        None
    } else {
        first_err(item_check(items[0]), items_check(items.subrange(1, items.len() as int)))
    }
}

/// The first error of a program: its items in order, then its expression.
pub open spec fn program_check(p: SProgram) -> Option<Seq<char>> {
    first_err(
        items_check(p.items),
        match p.expr {
            Some(e) => expr_check(e),
            None => None,
        },
    )
}

/// The result of a check as the validator reports it: errors point at
/// offset 0.
pub open spec fn reported(r: Result<(), Error>, c: Option<Seq<char>>) -> bool {
    match r {
        Ok(()) => c is None,
        Err(e) => c == Some(e.message@) && e.position == 0,
    }
}

// ---------------------------------------------------------------------------
// Lemmas.
/// Reading two name lists one after the other is reading their
/// concatenation.
pub proof fn lemma_firsts_concat(
    ps: Seq<Seq<char>>,
    fs: Seq<Seq<char>>,
    a: Seq<Seq<char>>,
    b: Seq<Seq<char>>,
)
    ensures
        firsts_from(ps, fs, a + b) == firsts_from(ps, firsts_from(ps, fs, a), b),
    decreases a.len(),
{
    if a.len() == 0 {
        assert(a + b =~= b);
    } else {
        assert((a + b).subrange(1, (a + b).len() as int) =~= a.subrange(1, a.len() as int) + b);
        assert((a + b)[0] == a[0]);
        lemma_firsts_concat(ps, first_step(ps, fs, a[0]), a.subrange(1, a.len() as int), b);
    }
}

/// Everything that joins the list is a parameter.
pub proof fn lemma_firsts_are_params(ps: Seq<Seq<char>>, fs: Seq<Seq<char>>, names: Seq<Seq<char>>)
    requires
        forall|i: int| 0 <= i < fs.len() ==> ps.contains(#[trigger] fs[i]),
    ensures
        forall|i: int|
            0 <= i < firsts_from(ps, fs, names).len() ==> ps.contains(
                #[trigger] firsts_from(ps, fs, names)[i],
            ),
    decreases names.len(),
{
    if names.len() > 0 {
        let fs2 = first_step(ps, fs, names[0]);
        assert forall|i: int| 0 <= i < fs2.len() implies ps.contains(#[trigger] fs2[i]) by {
            if i < fs.len() {
                assert(fs2[i] == fs[i]);
            }
        }
        lemma_firsts_are_params(ps, fs2, names.subrange(1, names.len() as int));
        assert(firsts_from(ps, fs, names) == firsts_from(ps, fs2, names.subrange(1, names.len() as int)));
    }
}

/// A name in the list has a non-negative index.
pub proof fn lemma_param_index_found(ps: Seq<Seq<char>>, n: Seq<char>)
    requires
        ps.contains(n),
    ensures
        0 <= param_index(ps, n) < ps.len(),
        ps[param_index(ps, n)] == n,
    decreases ps.len(),
{
    if ps.last() != n {
        let j = choose|j: int| 0 <= j < ps.len() && ps[j] == n;
        assert(ps.drop_last()[j] == n);
        lemma_param_index_found(ps.drop_last(), n);
    }
}

/// The list of first uses never holds a name twice.
pub proof fn lemma_firsts_distinct(ps: Seq<Seq<char>>, fs: Seq<Seq<char>>, names: Seq<Seq<char>>)
    requires
        fs.no_duplicates(),
    ensures
        firsts_from(ps, fs, names).no_duplicates(),
    decreases names.len(),
{
    if names.len() > 0 {
        let fs2 = first_step(ps, fs, names[0]);
        if ps.contains(names[0]) && !fs.contains(names[0]) {
            assert forall|i: int, j: int| 0 <= i < fs2.len() && 0 <= j < fs2.len() && i != j implies fs2[i]
                != fs2[j] by {
                if i == fs.len() {
                    assert(fs2[j] == fs[j]);
                } else if j == fs.len() {
                    assert(fs2[i] == fs[i]);
                }
            }
        }
        lemma_firsts_distinct(ps, fs2, names.subrange(1, names.len() as int));
    }
}

/// The order check from `i` on passes exactly when, from `i` on, no name
/// has a smaller index than the one before it.
pub proof fn lemma_order_check(f: Seq<char>, ps: Seq<Seq<char>>, fs: Seq<Seq<char>>, i: int)
    requires
        1 <= i,
    ensures
        (order_check_from(f, ps, fs, i) is None) <==> (forall|k: int|
            i <= k < fs.len() ==> param_index(ps, #[trigger] fs[k]) >= param_index(ps, fs[k - 1])),
    decreases fs.len() - i,
{
    if i < fs.len() {
        lemma_order_check(f, ps, fs, i + 1);
    }
}

proof fn lemma_chain(s: Seq<int>, i: int, j: int)
    requires
        forall|k: int| 1 <= k < s.len() ==> s[k - 1] < #[trigger] s[k],
        0 <= i < j < s.len(),
    ensures
        s[i] < s[j],
    decreases j - i,
{
    if j > i + 1 {
        lemma_chain(s, i, j - 1);
    }
}

/// The parameter-order rule: a function passes it exactly when its body
/// first uses its parameters in the order of its signature.
pub proof fn law_param_order(f: Seq<char>, ps: Seq<Seq<char>>, body: SExpr)
    ensures
        (param_order_check(f, ps, body) is None) <==> (forall|i: int, j: int|
            0 <= i < j < first_uses(ps, body).len() ==> param_index(ps, #[trigger] first_uses(ps, body)[i])
                < param_index(ps, #[trigger] first_uses(ps, body)[j])),
{
    let fu = first_uses(ps, body);
    lemma_firsts_distinct(ps, Seq::empty(), expr_vars(body));
    lemma_firsts_are_params(ps, Seq::empty(), expr_vars(body));
    lemma_order_check(f, ps, fu, 1);
    let idx = Seq::new(fu.len(), |k: int| param_index(ps, fu[k]));
    assert forall|a: int, b: int| 0 <= a < fu.len() && 0 <= b < fu.len() && a != b implies param_index(
        ps,
        fu[a],
    ) != param_index(ps, fu[b]) by {
        assert(ps.contains(fu[a]));
        assert(ps.contains(fu[b]));
        lemma_param_index_found(ps, fu[a]);
        lemma_param_index_found(ps, fu[b]);
    }
    if param_order_check(f, ps, body) is None {
        assert forall|k: int| 1 <= k < idx.len() implies idx[k - 1] < #[trigger] idx[k] by {
            assert(param_index(ps, fu[k]) >= param_index(ps, fu[k - 1]));
            assert(param_index(ps, fu[k]) != param_index(ps, fu[k - 1]));
        }
        assert forall|i: int, j: int| 0 <= i < j < fu.len() implies param_index(ps, #[trigger] fu[i])
            < param_index(ps, #[trigger] fu[j]) by {
            lemma_chain(idx, i, j);
        }
    } else {
        let k = choose|k: int|
            1 <= k < fu.len() && !(param_index(ps, #[trigger] fu[k]) >= param_index(ps, fu[k - 1]));
        assert(!(param_index(ps, fu[k - 1]) < param_index(ps, fu[k])));
    }
}

/// Each function of a program that passes validation reads its parameters,
/// in order of first use, in the order of its signature.
pub proof fn law_validated_param_order(p: SProgram, n: int)
    requires
        program_check(p) is None,
        0 <= n < p.items.len(),
        p.items[n] is Fn,
    ensures
        forall|i: int, j: int|
            0 <= i < j < first_uses(p.items[n]->Fn_params, p.items[n]->Fn_body).len() ==> param_index(
                p.items[n]->Fn_params,
                #[trigger] first_uses(p.items[n]->Fn_params, p.items[n]->Fn_body)[i],
            ) < param_index(
                p.items[n]->Fn_params,
                #[trigger] first_uses(p.items[n]->Fn_params, p.items[n]->Fn_body)[j],
            ),
{
    lemma_items_pass(p.items, n);
    let it = p.items[n];
    law_param_order(it->Fn_name, it->Fn_params, it->Fn_body);
}

/// Every item of a list that passes the checks passes them.
pub proof fn lemma_items_pass(items: Seq<SItem>, n: int)
    requires
        items_check(items) is None,
        0 <= n < items.len(),
    ensures
        item_check(items[n]) is None,
    decreases items.len(),
{
    if n > 0 {
        let rest = items.subrange(1, items.len() as int);
        assert(rest[n - 1] == items[n]);
        lemma_items_pass(rest, n - 1);
    }
}

/// After a wildcard arm that was not the last, the arms never pass.
proof fn lemma_after_misplaced_wildcard(arms: Seq<SArm>)
    ensures
        arm_check(arms, Some(false)) is Some,
    decreases arms.len(),
{
    if arms.len() > 0 {
        lemma_after_misplaced_wildcard(arms.subrange(1, arms.len() as int));
    }
}

/// Arms with a wildcard before their last arm never pass.
pub proof fn lemma_misplaced_wildcard(arms: Seq<SArm>, wc: Option<bool>, i: int)
    requires
        0 <= i < arms.len() - 1,
        arms[i].pattern is Wildcard,
    ensures
        arm_check(arms, wc) is Some,
    decreases arms.len(),
{
    let rest = arms.subrange(1, arms.len() as int);
    if i == 0 {
        if wc is None {
            lemma_after_misplaced_wildcard(rest);
        }
    } else {
        assert(rest[i - 1] == arms[i]);
        match arms[0].pattern {
            SPattern::Wildcard => {
                if wc is None {
                    lemma_after_misplaced_wildcard(rest);
                }
            },
            _ => {
                lemma_misplaced_wildcard(rest, wc, i - 1);
            },
        }
    }
}

/// The wildcard rule: a match that passes validation has at least one arm,
/// and no arm but its last is `_` (so `_` appears at most once).
pub proof fn law_wildcard_last(scrutinee: SExpr, arms: Seq<SArm>)
    requires
        expr_check(SExpr::Match { scrutinee: Box::new(scrutinee), arms }) is None,
    ensures
        arms.len() > 0,
        forall|i: int| 0 <= i < arms.len() - 1 ==> !(#[trigger] arms[i].pattern is Wildcard),
{
    assert forall|i: int| 0 <= i < arms.len() - 1 implies !(#[trigger] arms[i].pattern is Wildcard) by {
        if arms[i].pattern is Wildcard {
            lemma_misplaced_wildcard(arms, None, i);
        }
    }
}

/// Every `match` inside an expression has at least one arm and no `_` arm
/// but its last.
pub open spec fn matches_well_formed(e: SExpr) -> bool
    decreases e,
{
    match e {
        SExpr::List(items) => forall|i: int|
            0 <= i < items.len() ==> matches_well_formed(#[trigger] items[i]),
        SExpr::RangeList { start, end } => matches_well_formed(*start) && matches_well_formed(*end),
        SExpr::Dict(entries) => forall|i: int|
            0 <= i < entries.len() ==> matches_well_formed((#[trigger] entries[i]).0)
                && matches_well_formed(entries[i].1),
        SExpr::Construct { name, fields } => forall|i: int|
            0 <= i < fields.len() ==> matches_well_formed((#[trigger] fields[i]).1),
        SExpr::For { name, iter, guard, body } => matches_well_formed(*iter) && match guard {
            Some(g) => matches_well_formed(*g),
            None => true,
        } && matches_well_formed(*body),
        SExpr::Unary { op, expr } => matches_well_formed(*expr),
        SExpr::Binary { op, left, right } => matches_well_formed(*left) && matches_well_formed(
            *right,
        ),
        SExpr::If { cond, then_branch, else_branch } => matches_well_formed(*cond)
            && matches_well_formed(*then_branch) && matches_well_formed(*else_branch),
        SExpr::Call { callee, args } => forall|i: int|
            0 <= i < args.len() ==> matches_well_formed(#[trigger] args[i]),
        SExpr::Pipe { input, target } => matches_well_formed(*input) && match target {
            SPipeTarget::Ident(_) => true,
            SPipeTarget::Call { name, args } => forall|i: int|
                0 <= i < args.len() ==> matches_well_formed(#[trigger] args[i]),
        },
        SExpr::Match { scrutinee, arms } => {
            &&& matches_well_formed(*scrutinee)
            &&& arms.len() > 0
            &&& forall|i: int| 0 <= i < arms.len() - 1 ==> !((#[trigger] arms[i]).pattern is Wildcard)
            &&& forall|i: int|
                0 <= i < arms.len() ==> match (#[trigger] arms[i]).pattern {
                    SPattern::Expr(x) => matches_well_formed(x),
                    SPattern::Compare { op, expr } => matches_well_formed(expr),
                    _ => true,
                } && matches_well_formed(arms[i].body)
        },
        _ => true,
    }
}

/// Whether the pattern and the body of an arm pass the checks.
pub open spec fn arm_passes(a: SArm) -> bool {
    &&& match a.pattern {
        SPattern::Expr(x) => expr_check(x) is None,
        SPattern::Compare { op, expr } => expr_check(expr) is None,
        _ => true,
    }
    &&& expr_check(a.body) is None
}

proof fn lemma_list_check(items: Seq<SExpr>)
    ensures
        list_check(items) is None <==> forall|i: int|
            0 <= i < items.len() ==> expr_check(#[trigger] items[i]) is None,
    decreases items.len(),
{
    if items.len() > 0 {
        let rest = items.subrange(1, items.len() as int);
        lemma_list_check(rest);
        assert forall|i: int| 0 <= i < rest.len() implies #[trigger] rest[i] == items[i + 1] by {}
        if list_check(items) is None {
            assert forall|i: int| 0 <= i < items.len() implies expr_check(#[trigger] items[i]) is None by {
                if i > 0 {
                    assert(rest[i - 1] == items[i]);
                }
            }
        }
    }
}

proof fn lemma_entry_check(entries: Seq<(SExpr, SExpr)>)
    ensures
        entry_check(entries) is None <==> forall|i: int|
            0 <= i < entries.len() ==> expr_check((#[trigger] entries[i]).0) is None && expr_check(
                entries[i].1,
            ) is None,
    decreases entries.len(),
{
    if entries.len() > 0 {
        let rest = entries.subrange(1, entries.len() as int);
        lemma_entry_check(rest);
        assert forall|i: int| 0 <= i < rest.len() implies #[trigger] rest[i] == entries[i + 1] by {}
        if entry_check(entries) is None {
            assert forall|i: int| 0 <= i < entries.len() implies expr_check((#[trigger] entries[i]).0) is None
                && expr_check(entries[i].1) is None by {
                if i > 0 {
                    assert(rest[i - 1] == entries[i]);
                }
            }
        }
    }
}

proof fn lemma_field_check(fields: Seq<(Seq<char>, SExpr)>)
    ensures
        field_check(fields) is None <==> forall|i: int|
            0 <= i < fields.len() ==> expr_check((#[trigger] fields[i]).1) is None,
    decreases fields.len(),
{
    if fields.len() > 0 {
        let rest = fields.subrange(1, fields.len() as int);
        lemma_field_check(rest);
        assert forall|i: int| 0 <= i < rest.len() implies #[trigger] rest[i] == fields[i + 1] by {}
        if field_check(fields) is None {
            assert forall|i: int| 0 <= i < fields.len() implies expr_check((#[trigger] fields[i]).1) is None by {
                if i > 0 {
                    assert(rest[i - 1] == fields[i]);
                }
            }
        }
    }
}

proof fn lemma_arm_check(arms: Seq<SArm>)
    ensures
        arm_check(arms, None) is None <==> (forall|i: int|
            0 <= i < arms.len() - 1 ==> !((#[trigger] arms[i]).pattern is Wildcard)) && (forall|i: int|
            0 <= i < arms.len() ==> arm_passes(#[trigger] arms[i])),
    decreases arms.len(),
{
    if arms.len() > 0 {
        let rest = arms.subrange(1, arms.len() as int);
        lemma_arm_check(rest);
        assert forall|i: int| 0 <= i < rest.len() implies #[trigger] rest[i] == arms[i + 1] by {}
        match arms[0].pattern {
            SPattern::Wildcard => {
                if arms.len() > 1 {
                    lemma_after_misplaced_wildcard(rest);
                } else {
                    assert(arm_check(rest, Some(true)) is None);
                }
            },
            _ => {},
        }
        if arm_check(arms, None) is None {
            assert forall|i: int| 0 <= i < arms.len() implies arm_passes(#[trigger] arms[i]) by {
                if i > 0 {
                    assert(rest[i - 1] == arms[i]);
                }
            }
            assert forall|i: int| 0 <= i < arms.len() - 1 implies !((#[trigger] arms[i]).pattern is Wildcard) by {
                if i > 0 {
                    assert(rest[i - 1] == arms[i]);
                }
            }
        } else {
            if !(arms[0].pattern is Wildcard) {
                assert(arm_passes(arms[0]) ==> arm_check(rest, None) is Some);
            }
        }
    }
}

/// The match checks of an expression pass exactly when every `match` in it
/// is well formed.
pub proof fn lemma_expr_check(e: SExpr)
    ensures
        expr_check(e) is None <==> matches_well_formed(e),
    decreases e,
{
    match e {
        SExpr::List(items) => {
            lemma_list_check(items);
            assert forall|i: int| 0 <= i < items.len() implies (expr_check(#[trigger] items[i]) is None
                <==> matches_well_formed(items[i])) by {
                lemma_expr_check(items[i]);
            }
        },
        SExpr::RangeList { start, end } => {
            lemma_expr_check(*start);
            lemma_expr_check(*end);
        },
        SExpr::Dict(entries) => {
            lemma_entry_check(entries);
            assert forall|i: int| 0 <= i < entries.len() implies (expr_check((#[trigger] entries[i]).0) is None
                <==> matches_well_formed(entries[i].0)) && (expr_check(entries[i].1) is None
                <==> matches_well_formed(entries[i].1)) by {
                lemma_expr_check(entries[i].0);
                lemma_expr_check(entries[i].1);
            }
        },
        SExpr::Construct { name, fields } => {
            lemma_field_check(fields);
            assert forall|i: int| 0 <= i < fields.len() implies (expr_check((#[trigger] fields[i]).1) is None
                <==> matches_well_formed(fields[i].1)) by {
                lemma_expr_check(fields[i].1);
            }
        },
        SExpr::For { name, iter, guard, body } => {
            lemma_expr_check(*iter);
            lemma_expr_check(*body);
            match guard {
                Some(g) => {
                    lemma_expr_check(*g);
                },
                None => {},
            }
        },
        SExpr::Unary { op, expr } => {
            lemma_expr_check(*expr);
        },
        SExpr::Binary { op, left, right } => {
            lemma_expr_check(*left);
            lemma_expr_check(*right);
        },
        SExpr::If { cond, then_branch, else_branch } => {
            lemma_expr_check(*cond);
            lemma_expr_check(*then_branch);
            lemma_expr_check(*else_branch);
        },
        SExpr::Call { callee, args } => {
            lemma_list_check(args);
            assert forall|i: int| 0 <= i < args.len() implies (expr_check(#[trigger] args[i]) is None
                <==> matches_well_formed(args[i])) by {
                lemma_expr_check(args[i]);
            }
        },
        SExpr::Pipe { input, target } => {
            lemma_expr_check(*input);
            match target {
                SPipeTarget::Call { name, args } => {
                    lemma_list_check(args);
                    assert forall|i: int| 0 <= i < args.len() implies (expr_check(#[trigger] args[i]) is None
                        <==> matches_well_formed(args[i])) by {
                        lemma_expr_check(args[i]);
                    }
                },
                _ => {},
            }
        },
        SExpr::Match { scrutinee, arms } => {
            lemma_expr_check(*scrutinee);
            lemma_arm_check(arms);
            assert forall|i: int| 0 <= i < arms.len() implies (arm_passes(#[trigger] arms[i]) <==> (match arms[i].pattern {
                SPattern::Expr(x) => matches_well_formed(x),
                SPattern::Compare { op, expr } => matches_well_formed(expr),
                _ => true,
            } && matches_well_formed(arms[i].body))) by {
                lemma_expr_check(arms[i].body);
                match arms[i].pattern {
                    SPattern::Expr(x) => {
                        lemma_expr_check(x);
                    },
                    SPattern::Compare { op, expr } => {
                        lemma_expr_check(expr);
                    },
                    _ => {},
                }
            }
        },
        _ => {},
    }
}

/// What the validator asks of one item: a function first uses its
/// parameters in the order of its signature, and every `match` in a
/// function body or a `let` is well formed. Data and extern declarations
/// always pass.
pub open spec fn item_rules_hold(item: SItem) -> bool {
    match item {
        SItem::Fn { name, params, body } => {
            &&& matches_well_formed(body)
            &&& forall|i: int, j: int|
                0 <= i < j < first_uses(params, body).len() ==> param_index(
                    params,
                    #[trigger] first_uses(params, body)[i],
                ) < param_index(params, #[trigger] first_uses(params, body)[j])
        },
        SItem::Let { name, expr } => matches_well_formed(expr),
        _ => true,
    }
}

proof fn lemma_items_check(items: Seq<SItem>)
    ensures
        items_check(items) is None <==> forall|i: int|
            0 <= i < items.len() ==> item_check(#[trigger] items[i]) is None,
    decreases items.len(),
{
    if items.len() > 0 {
        let rest = items.subrange(1, items.len() as int);
        lemma_items_check(rest);
        assert forall|i: int| 0 <= i < rest.len() implies #[trigger] rest[i] == items[i + 1] by {}
        if items_check(items) is None {
            assert forall|i: int| 0 <= i < items.len() implies item_check(#[trigger] items[i]) is None by {
                if i > 0 {
                    assert(rest[i - 1] == items[i]);
                }
            }
        }
    }
}

/// A program passes validation exactly when each of its items keeps the
/// rules (`item_rules_hold`) and every `match` in its final expression is
/// well formed.
pub proof fn law_validation_rules(p: SProgram)
    ensures
        program_check(p) is None <==> (forall|n: int|
            0 <= n < p.items.len() ==> item_rules_hold(#[trigger] p.items[n])) && match p.expr {
            Some(e) => matches_well_formed(e),
            None => true,
        },
{
    lemma_items_check(p.items);
    assert forall|n: int| 0 <= n < p.items.len() implies (item_check(#[trigger] p.items[n]) is None
        <==> item_rules_hold(p.items[n])) by {
        match p.items[n] {
            SItem::Fn { name, params, body } => {
                lemma_expr_check(body);
                law_param_order(name, params, body);
            },
            SItem::Let { name, expr } => {
                lemma_expr_check(expr);
            },
            _ => {},
        }
    }
    match p.expr {
        Some(e) => {
            lemma_expr_check(e);
        },
        None => {},
    }
}

/// Variables are read in the order they are written, left to right: a
/// condition before its branches and the `then` branch before the `else`
/// branch; a left operand before a right one; a range's start before its
/// end; a loop's source, then its guard, then its body; a pipe's input
/// before the arguments of its target; a list's, a call's, a map's and a
/// constructor's first part before the rest; a match's scrutinee before its
/// arms, and in each arm the pattern before the body.
pub proof fn law_vars_in_reading_order(
    a: SExpr,
    b: SExpr,
    c: SExpr,
    g: Option<Box<SExpr>>,
    op: BinaryOp,
    name: Seq<char>,
    items: Seq<SExpr>,
    entries: Seq<(SExpr, SExpr)>,
    fields: Seq<(Seq<char>, SExpr)>,
    arms: Seq<SArm>,
)
    ensures
        expr_vars(SExpr::Var(name)) == seq![name],
        expr_vars(SExpr::If { cond: Box::new(a), then_branch: Box::new(b), else_branch: Box::new(c) })
            == expr_vars(a) + expr_vars(b) + expr_vars(c),
        expr_vars(SExpr::Binary { op, left: Box::new(a), right: Box::new(b) }) == expr_vars(a)
            + expr_vars(b),
        expr_vars(SExpr::RangeList { start: Box::new(a), end: Box::new(b) }) == expr_vars(a)
            + expr_vars(b),
        expr_vars(SExpr::For { name, iter: Box::new(a), guard: g, body: Box::new(c) }) == expr_vars(a)
            + match g {
            Some(x) => expr_vars(*x),
            None => Seq::empty(),
        } + expr_vars(c),
        expr_vars(
            SExpr::Pipe { input: Box::new(a), target: SPipeTarget::Call { name, args: items } },
        ) == expr_vars(a) + expr_vars(SExpr::List(items)),
        expr_vars(SExpr::Pipe { input: Box::new(a), target: SPipeTarget::Ident(name) }) == expr_vars(a),
        expr_vars(SExpr::Call { callee: name, args: items }) == expr_vars(SExpr::List(items)),
        items.len() > 0 ==> expr_vars(SExpr::List(items)) == expr_vars(items[0]) + expr_vars(
            SExpr::List(items.drop_first()),
        ),
        items.len() == 0 ==> expr_vars(SExpr::List(items)) == Seq::<Seq<char>>::empty(),
        entries.len() > 0 ==> expr_vars(SExpr::Dict(entries)) == expr_vars(entries[0].0) + expr_vars(
            entries[0].1,
        ) + expr_vars(SExpr::Dict(entries.drop_first())),
        fields.len() > 0 ==> expr_vars(SExpr::Construct { name, fields }) == expr_vars(fields[0].1)
            + expr_vars(SExpr::Construct { name, fields: fields.drop_first() }),
        expr_vars(SExpr::Match { scrutinee: Box::new(a), arms }) == expr_vars(a) + arm_vars(arms),
        arms.len() > 0 ==> arm_vars(arms) == pattern_vars(arms[0].pattern) + expr_vars(arms[0].body)
            + arm_vars(arms.drop_first()),
{
    assert(expr_vars(SExpr::List(items)) == list_vars(items));
    if items.len() > 0 {
        assert(items.drop_first() =~= items.subrange(1, items.len() as int));
        assert(expr_vars(SExpr::List(items.drop_first())) == list_vars(items.drop_first()));
    }
    assert(expr_vars(SExpr::Dict(entries)) == entry_vars(entries));
    if entries.len() > 0 {
        assert(entries.drop_first() =~= entries.subrange(1, entries.len() as int));
        assert(expr_vars(SExpr::Dict(entries.drop_first())) == entry_vars(entries.drop_first()));
    }
    assert(expr_vars(SExpr::Construct { name, fields }) == field_vars(fields));
    if fields.len() > 0 {
        assert(fields.drop_first() =~= fields.subrange(1, fields.len() as int));
        assert(expr_vars(SExpr::Construct { name, fields: fields.drop_first() }) == field_vars(
            fields.drop_first(),
        ));
    }
    if arms.len() > 0 {
        assert(arms.drop_first() =~= arms.subrange(1, arms.len() as int));
    }
}

// ---------------------------------------------------------------------------
// Executable checks.
/// Whether a list of names holds the given name.
fn contains_name(v: &Vec<String>, n: &String) -> (b: bool)
    ensures
        b == names_view(v@).contains(n@),
{
    let mut i: usize = 0;
    while i < v.len()
        invariant
            i <= v.len(),
            forall|j: int| 0 <= j < i ==> v@[j]@ != n@,
        decreases v.len() - i,
    {
        if v[i] == *n {
            proof {
                assert(names_view(v@)[i as int] == n@);
            }
            return true;
        }
        i = i + 1;
    }
    proof {
        assert forall|j: int| 0 <= j < names_view(v@).len() implies names_view(v@)[j] != n@ by {
            assert(names_view(v@)[j] == v@[j]@);
        }
    }
    false
}

/// The index a parameter maps to: its last position in the list.
fn param_position(params: &Vec<String>, n: &String) -> (r: Option<usize>)
    ensures
        match r {
            Some(i) => i == param_index(names_view(params@), n@),
            None => param_index(names_view(params@), n@) == -1,
        },
{
    let ghost ps = names_view(params@);
    let mut i: usize = params.len();
    proof {
        assert(ps.subrange(0, ps.len() as int) =~= ps);
    }
    while i > 0
        invariant
            i <= params.len(),
            ps == names_view(params@),
            param_index(ps, n@) == param_index(ps.subrange(0, i as int), n@),
        decreases i,
    {
        let ghost sub = ps.subrange(0, i as int);
        if params[i - 1] == *n {
            return Some(i - 1);
        }
        proof {
            assert(sub.drop_last() =~= ps.subrange(0, i - 1));
        }
        i = i - 1;
    }
    proof {
        assert(ps.subrange(0, 0).len() == 0);
    }
    None
}

/// Adds to `first_seen`, in reading order, the parameters that the
/// expression uses and that it does not hold yet.
fn collect_first_seen_params(expr: &Expr, params: &Vec<String>, first_seen: &mut Vec<String>)
    ensures
        names_view(final(first_seen)@) == firsts_from(
            names_view(params@),
            names_view(old(first_seen)@),
            expr_vars(expr@),
        ),
    decreases expr,
{
    let ghost ps = names_view(params@);
    proof {
        lemma_expr_views(*expr);
    }
    match expr {
        Expr::Var(name) => {
            let ghost fs = names_view(first_seen@);
            if contains_name(params, name) && !contains_name(first_seen, name) {
                first_seen.push(name.clone());
                proof {
                    assert(names_view(first_seen@) =~= fs.push(name@));
                }
            }
            proof {
                reveal_with_fuel(firsts_from, 2);
                assert(seq![name@].subrange(1, 1) =~= Seq::<Seq<char>>::empty());
            }
        },
        Expr::List(items) => {
            collect_all(items, params, first_seen);
        },
        Expr::RangeList { start, end } => {
            let ghost fs = names_view(first_seen@);
            collect_first_seen_params(start, params, first_seen);
            collect_first_seen_params(end, params, first_seen);
            proof {
                lemma_firsts_concat(ps, fs, expr_vars((**start)@), expr_vars((**end)@));
            }
        },
        Expr::Dict(entries) => {
            collect_entries(entries, params, first_seen);
        },
        Expr::Construct { name, fields } => {
            collect_fields(fields, params, first_seen);
        },
        Expr::For { name, iter, guard, body } => {
            let ghost fs = names_view(first_seen@);
            let ghost gv = match guard {
                Some(g) => expr_vars((**g)@),
                None => Seq::<Seq<char>>::empty(),
            };
            collect_first_seen_params(iter, params, first_seen);
            let ghost fs1 = names_view(first_seen@);
            match guard {
                Some(g) => {
                    collect_first_seen_params(g, params, first_seen);
                },
                None => {
                    assert(firsts_from(ps, fs1, gv) == fs1);
                },
            }
            let ghost fs2 = names_view(first_seen@);
            collect_first_seen_params(body, params, first_seen);
            proof {
                lemma_firsts_concat(ps, fs, expr_vars((**iter)@), gv);
                lemma_firsts_concat(ps, fs, expr_vars((**iter)@) + gv, expr_vars((**body)@));
            }
        },
        Expr::Unary { op, expr } => {
            collect_first_seen_params(expr, params, first_seen);
        },
        Expr::Binary { op, left, right } => {
            let ghost fs = names_view(first_seen@);
            collect_first_seen_params(left, params, first_seen);
            collect_first_seen_params(right, params, first_seen);
            proof {
                lemma_firsts_concat(ps, fs, expr_vars((**left)@), expr_vars((**right)@));
            }
        },
        Expr::If { cond, then_branch, else_branch } => {
            let ghost fs = names_view(first_seen@);
            collect_first_seen_params(cond, params, first_seen);
            collect_first_seen_params(then_branch, params, first_seen);
            collect_first_seen_params(else_branch, params, first_seen);
            proof {
                lemma_firsts_concat(ps, fs, expr_vars((**cond)@), expr_vars((**then_branch)@));
                lemma_firsts_concat(
                    ps,
                    fs,
                    expr_vars((**cond)@) + expr_vars((**then_branch)@),
                    expr_vars((**else_branch)@),
                );
            }
        },
        Expr::Call { callee, args } => {
            collect_all(args, params, first_seen);
        },
        Expr::Pipe { input, target } => {
            let ghost fs = names_view(first_seen@);
            collect_first_seen_params(input, params, first_seen);
            let ghost fs1 = names_view(first_seen@);
            match target {
                PipeTarget::Ident(_) => {
                    assert(firsts_from(ps, fs1, Seq::empty()) == fs1);
                },
                PipeTarget::Call { name, args } => {
                    collect_all(args, params, first_seen);
                    assert(target@->Call_args =~= exprs_view(args@));
                },
            }
            proof {
                lemma_firsts_concat(
                    ps,
                    fs,
                    expr_vars((**input)@),
                    match target@ {
                        SPipeTarget::Ident(_) => Seq::empty(),
                        SPipeTarget::Call { name, args } => list_vars(args),
                    },
                );
            }
        },
        Expr::Match { scrutinee, arms } => {
            let ghost fs = names_view(first_seen@);
            collect_first_seen_params(scrutinee, params, first_seen);
            collect_arms(arms, params, first_seen);
            proof {
                lemma_firsts_concat(ps, fs, expr_vars((**scrutinee)@), arm_vars(arms_view(arms@)));
            }
        },
        _ => {
            proof {
                assert(expr_vars(expr@).len() == 0);
            }
        },
    }
}

/// `collect_first_seen_params` over a list of expressions, in order.
fn collect_all(items: &Vec<Expr>, params: &Vec<String>, first_seen: &mut Vec<String>)
    ensures
        names_view(final(first_seen)@) == firsts_from(
            names_view(params@),
            names_view(old(first_seen)@),
            list_vars(exprs_view(items@)),
        ),
    decreases items,
{
    let ghost ps = names_view(params@);
    let ghost fs0 = names_view(first_seen@);
    let ghost all = exprs_view(items@);
    let mut i: usize = 0;
    proof {
        assert(all =~= all.subrange(0, all.len() as int));
    }
    while i < items.len()
        invariant
            i <= items.len(),
            all == exprs_view(items@),
            ps == names_view(params@),
            firsts_from(ps, fs0, list_vars(all)) == firsts_from(
                ps,
                names_view(first_seen@),
                list_vars(all.subrange(i as int, all.len() as int)),
            ),
        decreases items.len() - i,
    {
        let ghost fs = names_view(first_seen@);
        let ghost rest = all.subrange(i as int, all.len() as int);
        collect_first_seen_params(&items[i], params, first_seen);
        proof {
            assert(rest.subrange(1, rest.len() as int) =~= all.subrange(i + 1, all.len() as int));
            lemma_firsts_concat(
                ps,
                fs,
                expr_vars(rest[0]),
                list_vars(all.subrange(i + 1, all.len() as int)),
            );
        }
        i = i + 1;
    }
}


/// `collect_first_seen_params` over the keys and values of a map literal.
fn collect_entries(entries: &Vec<(Expr, Expr)>, params: &Vec<String>, first_seen: &mut Vec<String>)
    ensures
        names_view(final(first_seen)@) == firsts_from(
            names_view(params@),
            names_view(old(first_seen)@),
            entry_vars(entries_view(entries@)),
        ),
    decreases entries,
{
    let ghost ps = names_view(params@);
    let ghost fs0 = names_view(first_seen@);
    let ghost all = entries_view(entries@);
    let mut i: usize = 0;
    proof {
        assert(all =~= all.subrange(0, all.len() as int));
    }
    while i < entries.len()
        invariant
            i <= entries.len(),
            all == entries_view(entries@),
            ps == names_view(params@),
            firsts_from(ps, fs0, entry_vars(all)) == firsts_from(
                ps,
                names_view(first_seen@),
                entry_vars(all.subrange(i as int, all.len() as int)),
            ),
        decreases entries.len() - i,
    {
        let ghost fs = names_view(first_seen@);
        let ghost rest = all.subrange(i as int, all.len() as int);
        proof {
            assert(decreases_to!(entries => entries[i as int]));
        }
        collect_first_seen_params(&entries[i].0, params, first_seen);
        collect_first_seen_params(&entries[i].1, params, first_seen);
        proof {
            assert(rest.subrange(1, rest.len() as int) =~= all.subrange(i + 1, all.len() as int));
            lemma_firsts_concat(ps, fs, expr_vars(rest[0].0), expr_vars(rest[0].1));
            lemma_firsts_concat(
                ps,
                fs,
                expr_vars(rest[0].0) + expr_vars(rest[0].1),
                entry_vars(all.subrange(i + 1, all.len() as int)),
            );
        }
        i = i + 1;
    }
}

/// `collect_first_seen_params` over the fields of a constructor.
fn collect_fields(fields: &Vec<(String, Expr)>, params: &Vec<String>, first_seen: &mut Vec<String>)
    ensures
        names_view(final(first_seen)@) == firsts_from(
            names_view(params@),
            names_view(old(first_seen)@),
            field_vars(fields_view(fields@)),
        ),
    decreases fields,
{
    let ghost ps = names_view(params@);
    let ghost fs0 = names_view(first_seen@);
    let ghost all = fields_view(fields@);
    let mut i: usize = 0;
    proof {
        assert(all =~= all.subrange(0, all.len() as int));
    }
    while i < fields.len()
        invariant
            i <= fields.len(),
            all == fields_view(fields@),
            ps == names_view(params@),
            firsts_from(ps, fs0, field_vars(all)) == firsts_from(
                ps,
                names_view(first_seen@),
                field_vars(all.subrange(i as int, all.len() as int)),
            ),
        decreases fields.len() - i,
    {
        let ghost fs = names_view(first_seen@);
        let ghost rest = all.subrange(i as int, all.len() as int);
        proof {
            assert(decreases_to!(fields => fields[i as int]));
        }
        collect_first_seen_params(&fields[i].1, params, first_seen);
        proof {
            assert(rest.subrange(1, rest.len() as int) =~= all.subrange(i + 1, all.len() as int));
            lemma_firsts_concat(
                ps,
                fs,
                expr_vars(rest[0].1),
                field_vars(all.subrange(i + 1, all.len() as int)),
            );
        }
        i = i + 1;
    }
}

/// `collect_first_seen_params` over the patterns and bodies of match arms.
fn collect_arms(arms: &Vec<MatchArm>, params: &Vec<String>, first_seen: &mut Vec<String>)
    ensures
        names_view(final(first_seen)@) == firsts_from(
            names_view(params@),
            names_view(old(first_seen)@),
            arm_vars(arms_view(arms@)),
        ),
    decreases arms,
{
    let ghost ps = names_view(params@);
    let ghost fs1 = names_view(first_seen@);
    let ghost all = arms_view(arms@);
    let mut i: usize = 0;
    proof {
        assert(all =~= all.subrange(0, all.len() as int));
    }
    while i < arms.len()
        invariant
            i <= arms.len(),
            all == arms_view(arms@),
            ps == names_view(params@),
            firsts_from(ps, fs1, arm_vars(all)) == firsts_from(
                ps,
                names_view(first_seen@),
                arm_vars(all.subrange(i as int, all.len() as int)),
            ),
        decreases arms.len() - i,
    {
        let ghost fs2 = names_view(first_seen@);
        let ghost rest = all.subrange(i as int, all.len() as int);
        let ghost pv = pattern_vars(rest[0].pattern);
        let arm = &arms[i];
        proof {
            assert(decreases_to!(arms => arms[i as int]));
        }
        match &arm.pattern {
            MatchPattern::Expr(x) => {
                collect_first_seen_params(x, params, first_seen);
            },
            MatchPattern::Compare { op, expr } => {
                collect_first_seen_params(expr, params, first_seen);
            },
            _ => {},
        }
        let ghost fs3 = names_view(first_seen@);
        collect_first_seen_params(&arm.body, params, first_seen);
        proof {
            assert(firsts_from(ps, fs2, pv) == fs3);
            assert(rest.subrange(1, rest.len() as int) =~= all.subrange(i + 1, all.len() as int));
            lemma_firsts_concat(ps, fs2, pv, expr_vars(rest[0].body));
            lemma_firsts_concat(
                ps,
                fs2,
                pv + expr_vars(rest[0].body),
                arm_vars(all.subrange(i + 1, all.len() as int)),
            );
        }
        i = i + 1;
    }
}

/// The arms' error as the validator reports it.
pub open spec fn wildcard_state(w: Option<usize>, n: int) -> Option<bool> {
    match w {
        Some(k) => Some(k == n - 1),
        None => None,
    }
}

/// Checks a whole program: the body and the parameter order of every
/// function, the value of every `let`, then the final expression. Each
/// error points at offset 0.
pub fn validate_program(program: &Program) -> (r: Result<(), Error>)
    ensures
        reported(r, program_check(program@)),
{
    let ghost all = program@.items;
    let mut i: usize = 0;
    proof {
        assert(all =~= all.subrange(0, all.len() as int));
    }
    while i < program.items.len()
        invariant
            i <= program.items.len(),
            all == program@.items,
            all.len() == program.items.len(),
            items_check(all) == items_check(all.subrange(i as int, all.len() as int)),
        decreases program.items.len() - i,
    {
        let ghost rest = all.subrange(i as int, all.len() as int);
        proof {
            assert(rest.subrange(1, rest.len() as int) =~= all.subrange(i + 1, all.len() as int));
            assert(rest[0] == program.items@[i as int]@);
        }
        match &program.items[i] {
            Item::Fn(def) => {
                match validate_expr(&def.body) {
                    Ok(()) => {},
                    Err(e) => return Err(e),
                }
                match validate_fn_param_order(def) {
                    Ok(()) => {},
                    Err(e) => return Err(e),
                }
            },
            Item::Let(def) => {
                match validate_expr(&def.expr) {
                    Ok(()) => {},
                    Err(e) => return Err(e),
                }
            },
            _ => {},
        }
        i = i + 1;
    }
    match &program.expr {
        Some(expr) => validate_expr(expr),
        None => Ok(()),
    }
}

/// Checks that a function first uses its parameters in the order in which
/// it declares them.
fn validate_fn_param_order(def: &FnDef) -> (r: Result<(), Error>)
    ensures
        reported(r, param_order_check(def.name@, names_view(def.params@), def.body@)),
{
    let ghost ps = names_view(def.params@);
    let mut first_seen: Vec<String> = Vec::new();
    proof {
        assert(names_view(first_seen@) =~= Seq::<Seq<char>>::empty());
    }
    collect_first_seen_params(&def.body, &def.params, &mut first_seen);
    let ghost fs = names_view(first_seen@);
    proof {
        lemma_firsts_are_params(ps, Seq::empty(), expr_vars(def.body@));
    }
    let mut last_idx: Option<usize> = None;
    let mut i: usize = 0;
    while i < first_seen.len()
        invariant
            i <= first_seen.len(),
            fs == names_view(first_seen@),
            ps == names_view(def.params@),
            forall|j: int| 0 <= j < fs.len() ==> ps.contains(#[trigger] fs[j]),
            i == 0 ==> last_idx is None,
            i > 0 ==> (last_idx matches Some(k) && k == param_index(ps, fs[i - 1])),
            param_order_check(def.name@, ps, def.body@) == order_check_from(
                def.name@,
                ps,
                fs,
                if i == 0 { 1 } else { i as int },
            ),
        decreases first_seen.len() - i,
    {
        proof {
            assert(fs[i as int] == first_seen@[i as int]@);
            lemma_param_index_found(ps, fs[i as int]);
        }
        let idx = match param_position(&def.params, &first_seen[i]) {
            Some(idx) => idx,
            None => return Ok(()),
        };
        match last_idx {
            Some(prev_idx) => {
                if idx < prev_idx {
                    let mut m = String::from_str("function '");
                    m.append(def.name.as_str());
                    m.append("' uses parameter '");
                    m.append(first_seen[i].as_str());
                    m.append("' before earlier parameter '");
                    m.append(first_seen[i - 1].as_str());
                    m.append("'");
                    proof {
                        assert(fs[i - 1] == first_seen@[i - 1]@);
                        assert(m@ =~= order_message(def.name@, fs[i as int], fs[i - 1]));
                    }
                    return Err(Error { message: m, position: 0 });
                }
            },
            None => {},
        }
        last_idx = Some(idx);
        i = i + 1;
    }
    Ok(())
}

/// Checks the matches inside an expression: each has an arm, at most one
/// wildcard arm, and that one last.
fn validate_expr(expr: &Expr) -> (r: Result<(), Error>)
    ensures
        reported(r, expr_check(expr@)),
    decreases expr,
{
    proof {
        lemma_expr_views(*expr);
    }
    match expr {
        Expr::List(items) => validate_all(items),
        Expr::RangeList { start, end } => {
            match validate_expr(start) {
                Ok(()) => {},
                Err(e) => return Err(e),
            }
            validate_expr(end)
        },
        Expr::Dict(entries) => validate_entries(entries),
        Expr::Construct { name, fields } => validate_fields(fields),
        Expr::For { name, iter, guard, body } => {
            match validate_expr(iter) {
                Ok(()) => {},
                Err(e) => return Err(e),
            }
            match guard {
                Some(g) => match validate_expr(g) {
                    Ok(()) => {},
                    Err(e) => return Err(e),
                },
                None => {},
            }
            validate_expr(body)
        },
        Expr::Unary { op, expr } => validate_expr(expr),
        Expr::Binary { op, left, right } => {
            match validate_expr(left) {
                Ok(()) => {},
                Err(e) => return Err(e),
            }
            validate_expr(right)
        },
        Expr::If { cond, then_branch, else_branch } => {
            match validate_expr(cond) {
                Ok(()) => {},
                Err(e) => return Err(e),
            }
            match validate_expr(then_branch) {
                Ok(()) => {},
                Err(e) => return Err(e),
            }
            validate_expr(else_branch)
        },
        Expr::Call { callee, args } => validate_all(args),
        Expr::Pipe { input, target } => {
            match validate_expr(input) {
                Ok(()) => {},
                Err(e) => return Err(e),
            }
            match target {
                PipeTarget::Ident(_) => Ok(()),
                PipeTarget::Call { name, args } => {
                    proof {
                        assert(target@->Call_args =~= exprs_view(args@));
                    }
                    validate_all(args)
                },
            }
        },
        Expr::Match { scrutinee, arms } => {
            match validate_expr(scrutinee) {
                Ok(()) => {},
                Err(e) => return Err(e),
            }
            if arms.len() == 0 {
                return Err(Error::new("match requires at least one arm", 0));
            }
            validate_arms(arms)
        },
        _ => Ok(()),
    }
}

/// `validate_expr` over a list of expressions, stopping at the first error.
fn validate_all(items: &Vec<Expr>) -> (r: Result<(), Error>)
    ensures
        reported(r, list_check(exprs_view(items@))),
    decreases items,
{
    let ghost all = exprs_view(items@);
    let mut i: usize = 0;
    proof {
        assert(all =~= all.subrange(0, all.len() as int));
    }
    while i < items.len()
        invariant
            i <= items.len(),
            all == exprs_view(items@),
            list_check(all) == list_check(all.subrange(i as int, all.len() as int)),
        decreases items.len() - i,
    {
        let ghost rest = all.subrange(i as int, all.len() as int);
        proof {
            assert(rest.subrange(1, rest.len() as int) =~= all.subrange(i + 1, all.len() as int));
            assert(decreases_to!(items => items[i as int]));
        }
        match validate_expr(&items[i]) {
            Ok(()) => {},
            Err(e) => return Err(e),
        }
        i = i + 1;
    }
    Ok(())
}

/// `validate_expr` over the keys and values of a map literal.
fn validate_entries(entries: &Vec<(Expr, Expr)>) -> (r: Result<(), Error>)
    ensures
        reported(r, entry_check(entries_view(entries@))),
    decreases entries,
{
    let ghost all = entries_view(entries@);
    let mut i: usize = 0;
    proof {
        assert(all =~= all.subrange(0, all.len() as int));
    }
    while i < entries.len()
        invariant
            i <= entries.len(),
            all == entries_view(entries@),
            entry_check(all) == entry_check(all.subrange(i as int, all.len() as int)),
        decreases entries.len() - i,
    {
        let ghost rest = all.subrange(i as int, all.len() as int);
        proof {
            assert(rest.subrange(1, rest.len() as int) =~= all.subrange(i + 1, all.len() as int));
            assert(decreases_to!(entries => entries[i as int]));
        }
        match validate_expr(&entries[i].0) {
            Ok(()) => {},
            Err(e) => return Err(e),
        }
        match validate_expr(&entries[i].1) {
            Ok(()) => {},
            Err(e) => return Err(e),
        }
        i = i + 1;
    }
    Ok(())
}

/// `validate_expr` over the fields of a constructor.
fn validate_fields(fields: &Vec<(String, Expr)>) -> (r: Result<(), Error>)
    ensures
        reported(r, field_check(fields_view(fields@))),
    decreases fields,
{
    let ghost all = fields_view(fields@);
    let mut i: usize = 0;
    proof {
        assert(all =~= all.subrange(0, all.len() as int));
    }
    while i < fields.len()
        invariant
            i <= fields.len(),
            all == fields_view(fields@),
            field_check(all) == field_check(all.subrange(i as int, all.len() as int)),
        decreases fields.len() - i,
    {
        let ghost rest = all.subrange(i as int, all.len() as int);
        proof {
            assert(rest.subrange(1, rest.len() as int) =~= all.subrange(i + 1, all.len() as int));
            assert(decreases_to!(fields => fields[i as int]));
        }
        match validate_expr(&fields[i].1) {
            Ok(()) => {},
            Err(e) => return Err(e),
        }
        i = i + 1;
    }
    Ok(())
}

/// Checks the arms of a match in order: their expressions, at most one
/// wildcard, and that one last.
fn validate_arms(arms: &Vec<MatchArm>) -> (r: Result<(), Error>)
    ensures
        reported(r, arm_check(arms_view(arms@), None)),
    decreases arms,
{
    let ghost all = arms_view(arms@);
    let mut wildcard_index: Option<usize> = None;
    let mut i: usize = 0;
    proof {
        assert(all =~= all.subrange(0, all.len() as int));
    }
    while i < arms.len()
        invariant
            i <= arms.len(),
            all == arms_view(arms@),
            all.len() == arms.len(),
            match wildcard_index {
                Some(k) => k < i,
                None => true,
            },
            arm_check(all, None) == arm_check(
                all.subrange(i as int, all.len() as int),
                wildcard_state(wildcard_index, all.len() as int),
            ),
        decreases arms.len() - i,
    {
        let ghost rest = all.subrange(i as int, all.len() as int);
        proof {
            assert(rest.subrange(1, rest.len() as int) =~= all.subrange(i + 1, all.len() as int));
            assert(decreases_to!(arms => arms[i as int]));
            assert(rest[0] == arms@[i as int]@);
        }
        let arm = &arms[i];
        match &arm.pattern {
            MatchPattern::Wildcard => {
                if wildcard_index.is_some() {
                    return Err(Error::new("match may contain only one wildcard arm", 0));
                }
                wildcard_index = Some(i);
            },
            MatchPattern::Expr(x) => {
                match validate_expr(x) {
                    Ok(()) => {},
                    Err(e) => return Err(e),
                }
            },
            MatchPattern::Compare { op, expr } => {
                match validate_expr(expr) {
                    Ok(()) => {},
                    Err(e) => return Err(e),
                }
            },
            MatchPattern::Variant { name, fields } => {},
        }
        match validate_expr(&arm.body) {
            Ok(()) => {},
            Err(e) => return Err(e),
        }
        i = i + 1;
    }
    match wildcard_index {
        Some(idx) => {
            if idx != arms.len() - 1 {
                return Err(Error::new("match wildcard '_' arm must be last", 0));
            }
        },
        None => {},
    }
    Ok(())
}

} // verus!
