//! Purity of evaluation: a program that declares no host function never
//! reads an answer from the host, so its result depends on nothing else.
use vstd::prelude::*;

use crate::ast::core_ast::{CExpr, CItem, CPattern, CProgram, CArm};
use crate::eval::{
    ev, ev_arms, ev_binary, ev_call, ev_call_expr, ev_compare_pattern, ev_construct, ev_entries,
    ev_fields, ev_for, ev_for_expr, ev_if, ev_list, ev_match, ev_pattern, ev_range, ev_unary,
    ev_value_pattern, program_env, run_lets, run_program, Answers, SEnv, SLocals, SRes,
};
use crate::value::{SKey, SValue};

verus! {

/// No name is both declared `extern` and provided by the host.
pub open spec fn host_free(env: SEnv) -> bool {
    forall|n: Seq<char>| env.externs.contains(n) ==> !env.builtins.contains(n)
}

/// Two runs from positions `p1` and `p2` that give the same result and
/// read no answer.
pub open spec fn same_run<T>(r1: (T, int), p1: int, r2: (T, int), p2: int) -> bool {
    r1.0 == r2.0 && r1.1 == p1 && r2.1 == p2
}

/// In an environment where no declared extern is provided by the host,
/// evaluating an expression reads no answer, and gives the same result
/// whatever the host would answer.
pub proof fn lemma_ev(
    e: CExpr,
    env: SEnv,
    locals: SLocals,
    depth: nat,
    a1: Answers,
    p1: int,
    a2: Answers,
    p2: int,
)
    requires
        host_free(env),
    ensures
        same_run(ev(e, env, locals, depth, a1, p1), p1, ev(e, env, locals, depth, a2, p2), p2),
    decreases depth, e, 2nat, 0nat, 0nat,
{
    match e {
        CExpr::List(items) => lemma_list(items, env, locals, depth, a1, p1, a2, p2),
        CExpr::RangeList { .. } => lemma_range(e, env, locals, depth, a1, p1, a2, p2),
        CExpr::Dict(entries) => lemma_entries(entries, Seq::empty(), env, locals, depth, a1, p1, a2, p2),
        CExpr::Construct { .. } => lemma_construct(e, env, locals, depth, a1, p1, a2, p2),
        CExpr::For { .. } => lemma_for_expr(e, env, locals, depth, a1, p1, a2, p2),
        CExpr::Unary { .. } => lemma_unary(e, env, locals, depth, a1, p1, a2, p2),
        CExpr::Binary { .. } => lemma_binary(e, env, locals, depth, a1, p1, a2, p2),
        CExpr::If { .. } => lemma_if(e, env, locals, depth, a1, p1, a2, p2),
        CExpr::Call { .. } => lemma_call_expr(e, env, locals, depth, a1, p1, a2, p2),
        CExpr::Match { .. } => lemma_match(e, env, locals, depth, a1, p1, a2, p2),
        _ => {},
    }
}

proof fn lemma_range(
    e: CExpr,
    env: SEnv,
    locals: SLocals,
    depth: nat,
    a1: Answers,
    p1: int,
    a2: Answers,
    p2: int,
)
    requires
        host_free(env),
    ensures
        same_run(ev_range(e, env, locals, depth, a1, p1), p1, ev_range(e, env, locals, depth, a2, p2), p2),
    decreases depth, e, 1nat, 0nat, 0nat,
{
    match e {
        CExpr::RangeList { start, end } => {
            lemma_ev(*start, env, locals, depth, a1, p1, a2, p2);
            lemma_ev(*end, env, locals, depth, a1, p1, a2, p2);
        },
        _ => {},
    }
}

proof fn lemma_construct(
    e: CExpr,
    env: SEnv,
    locals: SLocals,
    depth: nat,
    a1: Answers,
    p1: int,
    a2: Answers,
    p2: int,
)
    requires
        host_free(env),
    ensures
        same_run(
            ev_construct(e, env, locals, depth, a1, p1),
            p1,
            ev_construct(e, env, locals, depth, a2, p2),
            p2,
        ),
    decreases depth, e, 1nat, 0nat, 0nat,
{
    match e {
        CExpr::Construct { name, fields } => {
            lemma_fields(fields, Seq::empty(), env, locals, depth, a1, p1, a2, p2);
        },
        _ => {},
    }
}

proof fn lemma_for_expr(
    e: CExpr,
    env: SEnv,
    locals: SLocals,
    depth: nat,
    a1: Answers,
    p1: int,
    a2: Answers,
    p2: int,
)
    requires
        host_free(env),
    ensures
        same_run(
            ev_for_expr(e, env, locals, depth, a1, p1),
            p1,
            ev_for_expr(e, env, locals, depth, a2, p2),
            p2,
        ),
    decreases depth, e, 1nat, 0nat, 0nat,
{
    match e {
        CExpr::For { iter, .. } => {
            lemma_ev(*iter, env, locals, depth, a1, p1, a2, p2);
            match ev(*iter, env, locals, depth, a1, p1).0 {
                Ok(SValue::List(items)) => {
                    lemma_for(e, items, env, locals, depth, a1, p1, a2, p2);
                },
                _ => {},
            }
        },
        _ => {},
    }
}

proof fn lemma_unary(
    e: CExpr,
    env: SEnv,
    locals: SLocals,
    depth: nat,
    a1: Answers,
    p1: int,
    a2: Answers,
    p2: int,
)
    requires
        host_free(env),
    ensures
        same_run(ev_unary(e, env, locals, depth, a1, p1), p1, ev_unary(e, env, locals, depth, a2, p2), p2),
    decreases depth, e, 1nat, 0nat, 0nat,
{
    match e {
        CExpr::Unary { op, expr } => lemma_ev(*expr, env, locals, depth, a1, p1, a2, p2),
        _ => {},
    }
}

proof fn lemma_binary(
    e: CExpr,
    env: SEnv,
    locals: SLocals,
    depth: nat,
    a1: Answers,
    p1: int,
    a2: Answers,
    p2: int,
)
    requires
        host_free(env),
    ensures
        same_run(ev_binary(e, env, locals, depth, a1, p1), p1, ev_binary(e, env, locals, depth, a2, p2), p2),
    decreases depth, e, 1nat, 0nat, 0nat,
{
    match e {
        CExpr::Binary { op, left, right } => {
            lemma_ev(*left, env, locals, depth, a1, p1, a2, p2);
            lemma_ev(*right, env, locals, depth, a1, p1, a2, p2);
        },
        _ => {},
    }
}

proof fn lemma_if(
    e: CExpr,
    env: SEnv,
    locals: SLocals,
    depth: nat,
    a1: Answers,
    p1: int,
    a2: Answers,
    p2: int,
)
    requires
        host_free(env),
    ensures
        same_run(ev_if(e, env, locals, depth, a1, p1), p1, ev_if(e, env, locals, depth, a2, p2), p2),
    decreases depth, e, 1nat, 0nat, 0nat,
{
    match e {
        CExpr::If { cond, then_branch, else_branch } => {
            lemma_ev(*cond, env, locals, depth, a1, p1, a2, p2);
            lemma_ev(*then_branch, env, locals, depth, a1, p1, a2, p2);
            lemma_ev(*else_branch, env, locals, depth, a1, p1, a2, p2);
        },
        _ => {},
    }
}

proof fn lemma_call_expr(
    e: CExpr,
    env: SEnv,
    locals: SLocals,
    depth: nat,
    a1: Answers,
    p1: int,
    a2: Answers,
    p2: int,
)
    requires
        host_free(env),
    ensures
        same_run(
            ev_call_expr(e, env, locals, depth, a1, p1),
            p1,
            ev_call_expr(e, env, locals, depth, a2, p2),
            p2,
        ),
    decreases depth, e, 1nat, 0nat, 0nat,
{
    match e {
        CExpr::Call { args, .. } => {
            lemma_list(args, env, locals, depth, a1, p1, a2, p2);
            match ev_list(args, env, locals, depth, a1, p1).0 {
                Ok(vs) => lemma_call(e, vs, env, depth, a1, p1, a2, p2),
                _ => {},
            }
        },
        _ => {},
    }
}

proof fn lemma_match(
    e: CExpr,
    env: SEnv,
    locals: SLocals,
    depth: nat,
    a1: Answers,
    p1: int,
    a2: Answers,
    p2: int,
)
    requires
        host_free(env),
    ensures
        same_run(ev_match(e, env, locals, depth, a1, p1), p1, ev_match(e, env, locals, depth, a2, p2), p2),
    decreases depth, e, 1nat, 0nat, 0nat,
{
    match e {
        CExpr::Match { scrutinee, arms } => {
            lemma_ev(*scrutinee, env, locals, depth, a1, p1, a2, p2);
            match ev(*scrutinee, env, locals, depth, a1, p1).0 {
                Ok(v) => lemma_arms(arms, v, env, locals, depth, a1, p1, a2, p2),
                _ => {},
            }
        },
        _ => {},
    }
}

proof fn lemma_list(
    items: Seq<CExpr>,
    env: SEnv,
    locals: SLocals,
    depth: nat,
    a1: Answers,
    p1: int,
    a2: Answers,
    p2: int,
)
    requires
        host_free(env),
    ensures
        same_run(ev_list(items, env, locals, depth, a1, p1), p1, ev_list(items, env, locals, depth, a2, p2), p2),
    decreases depth, items, 2nat, 0nat, 0nat,
{
    if items.len() > 0 {
        lemma_ev(items[0], env, locals, depth, a1, p1, a2, p2);
        lemma_list(items.subrange(1, items.len() as int), env, locals, depth, a1, p1, a2, p2);
    }
}

proof fn lemma_entries(
    entries: Seq<(CExpr, CExpr)>,
    acc: Seq<(SKey, SValue)>,
    env: SEnv,
    locals: SLocals,
    depth: nat,
    a1: Answers,
    p1: int,
    a2: Answers,
    p2: int,
)
    requires
        host_free(env),
    ensures
        same_run(
            ev_entries(entries, acc, env, locals, depth, a1, p1),
            p1,
            ev_entries(entries, acc, env, locals, depth, a2, p2),
            p2,
        ),
    decreases depth, entries, 2nat, 0nat, 0nat,
{
    if entries.len() > 0 {
        lemma_ev(entries[0].0, env, locals, depth, a1, p1, a2, p2);
        lemma_ev(entries[0].1, env, locals, depth, a1, p1, a2, p2);
        let k = ev(entries[0].0, env, locals, depth, a1, p1).0;
        let v = ev(entries[0].1, env, locals, depth, a1, p1).0;
        match (k, v) {
            (Ok(kv), Ok(vv)) => match crate::value::value_to_key_spec(kv) {
                Ok(key) => lemma_entries(
                    entries.subrange(1, entries.len() as int),
                    crate::value::dict_insert(acc, key, vv),
                    env,
                    locals,
                    depth,
                    a1,
                    p1,
                    a2,
                    p2,
                ),
                _ => {},
            },
            _ => {},
        }
    }
}

proof fn lemma_fields(
    fields: Seq<(Seq<char>, CExpr)>,
    acc: Seq<(Seq<char>, SValue)>,
    env: SEnv,
    locals: SLocals,
    depth: nat,
    a1: Answers,
    p1: int,
    a2: Answers,
    p2: int,
)
    requires
        host_free(env),
    ensures
        same_run(
            ev_fields(fields, acc, env, locals, depth, a1, p1),
            p1,
            ev_fields(fields, acc, env, locals, depth, a2, p2),
            p2,
        ),
    decreases depth, fields, 2nat, 0nat, 0nat,
{
    if fields.len() > 0 {
        lemma_ev(fields[0].1, env, locals, depth, a1, p1, a2, p2);
        match ev(fields[0].1, env, locals, depth, a1, p1).0 {
            Ok(v) => lemma_fields(
                fields.subrange(1, fields.len() as int),
                crate::value::field_insert(acc, fields[0].0, v),
                env,
                locals,
                depth,
                a1,
                p1,
                a2,
                p2,
            ),
            _ => {},
        }
    }
}

proof fn lemma_for(
    e: CExpr,
    items: Seq<SValue>,
    env: SEnv,
    locals: SLocals,
    depth: nat,
    a1: Answers,
    p1: int,
    a2: Answers,
    p2: int,
)
    requires
        host_free(env),
    ensures
        same_run(
            ev_for(e, items, env, locals, depth, a1, p1),
            p1,
            ev_for(e, items, env, locals, depth, a2, p2),
            p2,
        ),
    decreases depth, e, 0nat, items.len(), 0nat,
{
    match e {
        CExpr::For { name, iter, guard, body } => if items.len() > 0 {
            let inner = locals.push((name, items[0]));
            let rest = items.subrange(1, items.len() as int);
            match guard {
                Some(g) => lemma_ev(*g, env, inner, depth, a1, p1, a2, p2),
                None => {},
            }
            lemma_ev(*body, env, inner, depth, a1, p1, a2, p2);
            lemma_for(e, rest, env, locals, depth, a1, p1, a2, p2);
        },
        _ => {},
    }
}

proof fn lemma_call(
    e: CExpr,
    args: Seq<SValue>,
    env: SEnv,
    depth: nat,
    a1: Answers,
    p1: int,
    a2: Answers,
    p2: int,
)
    requires
        host_free(env),
    ensures
        same_run(ev_call(e, args, env, depth, a1, p1), p1, ev_call(e, args, env, depth, a2, p2), p2),
    decreases depth, e, 0nat, 0nat, 0nat,
{
    match e {
        CExpr::Call { callee, .. } => match crate::eval::find_fn(env.funcs, callee) {
            Some((params, body)) => if params.len() == args.len() && depth > 0 {
                lemma_ev(
                    body,
                    env,
                    crate::eval::bind_params(params, args),
                    (depth - 1) as nat,
                    a1,
                    p1,
                    a2,
                    p2,
                );
            },
            None => {},
        },
        _ => {},
    }
}

proof fn lemma_arms(
    arms: Seq<CArm>,
    v: SValue,
    env: SEnv,
    locals: SLocals,
    depth: nat,
    a1: Answers,
    p1: int,
    a2: Answers,
    p2: int,
)
    requires
        host_free(env),
    ensures
        same_run(
            ev_arms(arms, v, env, locals, depth, a1, p1),
            p1,
            ev_arms(arms, v, env, locals, depth, a2, p2),
            p2,
        ),
    decreases depth, arms, 2nat, 0nat, 0nat,
{
    if arms.len() > 0 {
        lemma_pattern(arms[0].pattern, v, env, locals, depth, a1, p1, a2, p2);
        match ev_pattern(arms[0].pattern, v, env, locals, depth, a1, p1).0 {
            Ok(None) => lemma_arms(arms.subrange(1, arms.len() as int), v, env, locals, depth, a1, p1, a2, p2),
            Ok(Some(bs)) => lemma_ev(arms[0].body, env, locals + bs, depth, a1, p1, a2, p2),
            _ => {},
        }
    }
}

proof fn lemma_pattern(
    pat: CPattern,
    v: SValue,
    env: SEnv,
    locals: SLocals,
    depth: nat,
    a1: Answers,
    p1: int,
    a2: Answers,
    p2: int,
)
    requires
        host_free(env),
    ensures
        same_run(
            ev_pattern(pat, v, env, locals, depth, a1, p1),
            p1,
            ev_pattern(pat, v, env, locals, depth, a2, p2),
            p2,
        ),
    decreases depth, pat, 2nat, 0nat, 0nat,
{
    match pat {
        CPattern::Expr(_) => lemma_value_pattern(pat, v, env, locals, depth, a1, p1, a2, p2),
        CPattern::Compare { .. } => lemma_compare_pattern(pat, v, env, locals, depth, a1, p1, a2, p2),
        _ => {},
    }
}

proof fn lemma_value_pattern(
    pat: CPattern,
    v: SValue,
    env: SEnv,
    locals: SLocals,
    depth: nat,
    a1: Answers,
    p1: int,
    a2: Answers,
    p2: int,
)
    requires
        host_free(env),
    ensures
        same_run(
            ev_value_pattern(pat, v, env, locals, depth, a1, p1),
            p1,
            ev_value_pattern(pat, v, env, locals, depth, a2, p2),
            p2,
        ),
    decreases depth, pat, 1nat, 0nat, 0nat,
{
    match pat {
        CPattern::Expr(x) => lemma_ev(x, env, locals, depth, a1, p1, a2, p2),
        _ => {},
    }
}

proof fn lemma_compare_pattern(
    pat: CPattern,
    v: SValue,
    env: SEnv,
    locals: SLocals,
    depth: nat,
    a1: Answers,
    p1: int,
    a2: Answers,
    p2: int,
)
    requires
        host_free(env),
    ensures
        same_run(
            ev_compare_pattern(pat, v, env, locals, depth, a1, p1),
            p1,
            ev_compare_pattern(pat, v, env, locals, depth, a2, p2),
            p2,
        ),
    decreases depth, pat, 1nat, 0nat, 0nat,
{
    match pat {
        CPattern::Compare { op, expr } => lemma_ev(expr, env, locals, depth, a1, p1, a2, p2),
        _ => {},
    }
}

proof fn lemma_env_without_externs(items: Seq<CItem>, names: Seq<Seq<char>>)
    requires
        forall|i: int| 0 <= i < items.len() ==> !(#[trigger] items[i] is ExternFn),
    ensures
        program_env(items, names).externs.len() == 0,
    decreases items.len(),
{
    if items.len() > 0 {
        lemma_env_without_externs(items.drop_last(), names);
        assert(!(items[items.len() - 1] is ExternFn));
    }
}

proof fn lemma_lets(items: Seq<CItem>, env: SEnv, a1: Answers, p1: int, a2: Answers, p2: int)
    requires
        host_free(env),
    ensures
        same_run(run_lets(items, env, a1, p1), p1, run_lets(items, env, a2, p2), p2),
    decreases items.len(),
{
    if items.len() > 0 {
        let rest = items.subrange(1, items.len() as int);
        match items[0] {
            CItem::Let { name, expr } => {
                let d = crate::eval::MAX_CALL_DEPTH as nat;
                lemma_ev(expr, env, Seq::empty(), d, a1, p1, a2, p2);
                match ev(expr, env, Seq::empty(), d, a1, p1).0 {
                    Ok(v) => {
                        let env2 = SEnv { globals: env.globals.push((name, v)), ..env };
                        lemma_lets(rest, env2, a1, p1, a2, p2);
                    },
                    _ => {},
                }
            },
            _ => lemma_lets(rest, env, a1, p1, a2, p2),
        }
    }
}

proof fn lemma_lets_keep_host(items: Seq<CItem>, env: SEnv, a: Answers, p: int)
    ensures
        run_lets(items, env, a, p).0 matches Ok(env2) ==> env2.externs == env.externs
            && env2.builtins == env.builtins,
    decreases items.len(),
{
    if items.len() > 0 {
        let rest = items.subrange(1, items.len() as int);
        match items[0] {
            CItem::Let { name, expr } => {
                let d = crate::eval::MAX_CALL_DEPTH as nat;
                let r = ev(expr, env, Seq::empty(), d, a, p);
                match r.0 {
                    Ok(v) => {
                        let env2 = SEnv { globals: env.globals.push((name, v)), ..env };
                        lemma_lets_keep_host(rest, env2, a, r.1);
                    },
                    _ => {},
                }
            },
            _ => lemma_lets_keep_host(rest, env, a, p),
        }
    }
}

/// Pure by default: a program that declares no extern function never asks
/// its host anything, so its result is the same whatever its host's
/// functions would answer.
pub proof fn law_no_extern_no_host(p: CProgram, names: Seq<Seq<char>>, a1: Answers, a2: Answers)
    requires
        forall|i: int| 0 <= i < p.items.len() ==> !(#[trigger] p.items[i] is ExternFn),
    ensures
        run_program(p, names, a1) == run_program(p, names, a2),
{
    let env = program_env(p.items, names);
    lemma_env_without_externs(p.items, names);
    assert(host_free(env));
    lemma_lets(p.items, env, a1, 0, a2, 0);
    let l = run_lets(p.items, env, a1, 0);
    match (l.0, p.expr) {
        (Ok(env2), Some(e)) => {
            lemma_lets_keep_host(p.items, env, a1, 0);
            assert(host_free(env2));
            lemma_ev(e, env2, Seq::empty(), crate::eval::MAX_CALL_DEPTH as nat, a1, l.1, a2, l.1);
        },
        _ => {},
    }
}

} // verus!
