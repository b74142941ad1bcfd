//! Lowering: the surface tree becomes the core tree. Every pipe becomes a
//! call that takes the piped value as its first argument; everything else is
//! carried over as it is.
use vstd::prelude::*;

use crate::ast::copy_names;
use crate::ast::core_ast;
use crate::ast::core_ast::{
    carms_view, cexprs_view, centries_view, cfields_view, citems_view, lemma_core_views, CArm,
    CExpr, CItem, CPattern, CProgram,
};
use crate::ast::surface;
use crate::ast::surface::{
    arms_view, entries_view, exprs_view, fields_view, items_view, lemma_expr_views, SArm, SExpr,
    SItem, SPattern, SPipeTarget, SProgram,
};

verus! {

/// The lowered form of an expression.
pub open spec fn lower_sexpr(e: SExpr) -> CExpr
    decreases e,
{
    match e {
        SExpr::Int(v) => CExpr::Int(v),
        SExpr::Bool(b) => CExpr::Bool(b),
        SExpr::Str(s) => CExpr::Str(s),
        SExpr::Bytes(b) => CExpr::Bytes(b),
        SExpr::Var(n) => CExpr::Var(n),
        SExpr::List(items) => CExpr::List(
            Seq::new(
                items.len(),
                |i: int| if 0 <= i < items.len() { lower_sexpr(items[i]) } else { CExpr::Int(0) },
            ),
        ),
        SExpr::RangeList { start, end } => CExpr::RangeList {
            start: Box::new(lower_sexpr(*start)),
            end: Box::new(lower_sexpr(*end)),
        },
        SExpr::Dict(entries) => CExpr::Dict(
            Seq::new(
                entries.len(),
                |i: int|
                    if 0 <= i < entries.len() {
                        (lower_sexpr(entries[i].0), lower_sexpr(entries[i].1))
                    } else {
                        (CExpr::Int(0), CExpr::Int(0))
                    },
            ),
        ),
        SExpr::Construct { name, fields } => CExpr::Construct {
            name,
            fields: Seq::new(
                fields.len(),
                |i: int|
                    if 0 <= i < fields.len() {
                        (fields[i].0, lower_sexpr(fields[i].1))
                    } else {
                        (Seq::empty(), CExpr::Int(0))
                    },
            ),
        },
        SExpr::For { name, iter, guard, body } => CExpr::For {
            name,
            iter: Box::new(lower_sexpr(*iter)),
            guard: match guard {
                Some(g) => Some(Box::new(lower_sexpr(*g))),
                None => None,
            },
            body: Box::new(lower_sexpr(*body)),
        },
        SExpr::Unary { op, expr } => CExpr::Unary { op, expr: Box::new(lower_sexpr(*expr)) },
        SExpr::Binary { op, left, right } => CExpr::Binary {
            op,
            left: Box::new(lower_sexpr(*left)),
            right: Box::new(lower_sexpr(*right)),
        },
        SExpr::If { cond, then_branch, else_branch } => CExpr::If {
            cond: Box::new(lower_sexpr(*cond)),
            then_branch: Box::new(lower_sexpr(*then_branch)),
            else_branch: Box::new(lower_sexpr(*else_branch)),
        },
        SExpr::Call { callee, args } => CExpr::Call {
            callee,
            args: Seq::new(
                args.len(),
                |i: int| if 0 <= i < args.len() { lower_sexpr(args[i]) } else { CExpr::Int(0) },
            ),
        },
        SExpr::Pipe { input, target } => match target {
            SPipeTarget::Ident(name) => CExpr::Call { callee: name, args: seq![lower_sexpr(*input)] },
            SPipeTarget::Call { name, args } => CExpr::Call {
                callee: name,
                args: seq![lower_sexpr(*input)] + Seq::new(
                    args.len(),
                    |i: int| if 0 <= i < args.len() { lower_sexpr(args[i]) } else { CExpr::Int(0) },
                ),
            },
        },
        SExpr::Match { scrutinee, arms } => CExpr::Match {
            scrutinee: Box::new(lower_sexpr(*scrutinee)),
            arms: Seq::new(
                arms.len(),
                |i: int|
                    if 0 <= i < arms.len() {
                        CArm {
                            pattern: match arms[i].pattern {
                                SPattern::Wildcard => CPattern::Wildcard,
                                SPattern::Expr(x) => CPattern::Expr(lower_sexpr(x)),
                                SPattern::Compare { op, expr } => CPattern::Compare {
                                    op,
                                    expr: lower_sexpr(expr),
                                },
                                SPattern::Variant { name, fields } => CPattern::Variant {
                                    name,
                                    fields,
                                },
                            },
                            body: lower_sexpr(arms[i].body),
                        }
                    } else {
                        CArm { pattern: CPattern::Wildcard, body: CExpr::Int(0) }
                    },
            ),
        },
    }
}

/// The lowered form of a list of expressions: each one lowered.
pub open spec fn lower_sexprs(items: Seq<SExpr>) -> Seq<CExpr> {
    Seq::new(items.len(), |i: int| lower_sexpr(items[i]))
}

/// The lowered form of a match pattern.
pub open spec fn lower_spattern(p: SPattern) -> CPattern {
    match p {
        SPattern::Wildcard => CPattern::Wildcard,
        SPattern::Expr(x) => CPattern::Expr(lower_sexpr(x)),
        SPattern::Compare { op, expr } => CPattern::Compare { op, expr: lower_sexpr(expr) },
        SPattern::Variant { name, fields } => CPattern::Variant { name, fields },
    }
}

/// The lowered form of an item: definitions keep their names, parameters,
/// variants and explanations; bodies are lowered.
pub open spec fn lower_sitem(item: SItem) -> CItem {
    match item {
        SItem::Fn { name, params, body } => CItem::Fn { name, params, body: lower_sexpr(body) },
        SItem::Let { name, expr } => CItem::Let { name, expr: lower_sexpr(expr) },
        SItem::ExternFn { name, params, explain } => CItem::ExternFn { name, params, explain },
        SItem::Data { name, variants } => CItem::Data { name, variants },
    }
}

/// The lowered form of a program.
pub open spec fn lower_sprogram(p: SProgram) -> CProgram {
    CProgram {
        items: Seq::new(p.items.len(), |i: int| lower_sitem(p.items[i])),
        expr: match p.expr {
            Some(e) => Some(lower_sexpr(e)),
            None => None,
        },
    }
}

/// A pipe lowers to a call of its target with the piped value in front of
/// the target's own arguments.
pub proof fn lemma_pipe_becomes_call(input: SExpr, target: SPipeTarget)
    ensures
        lower_sexpr(SExpr::Pipe { input: Box::new(input), target }) == match target {
            SPipeTarget::Ident(name) => CExpr::Call { callee: name, args: seq![lower_sexpr(input)] },
            SPipeTarget::Call { name, args } => CExpr::Call {
                callee: name,
                args: seq![lower_sexpr(input)] + lower_sexprs(args),
            },
        },
{
    match target {
        SPipeTarget::Call { name, args } => {
            let e = SExpr::Pipe { input: Box::new(input), target };
            assert(lower_sexpr(e)->Call_args =~= seq![lower_sexpr(input)] + lower_sexprs(args));
        },
        _ => {},
    }
}

/// A core expression read as a surface expression: the same node for node
/// (the surface language has every core construct, and pipes besides).
pub open spec fn surface_of(c: CExpr) -> SExpr
    decreases c,
{
    match c {
        CExpr::Int(v) => SExpr::Int(v),
        CExpr::Bool(b) => SExpr::Bool(b),
        CExpr::Str(s) => SExpr::Str(s),
        CExpr::Bytes(b) => SExpr::Bytes(b),
        CExpr::Var(n) => SExpr::Var(n),
        CExpr::List(items) => SExpr::List(
            Seq::new(
                items.len(),
                |i: int| if 0 <= i < items.len() { surface_of(items[i]) } else { SExpr::Int(0) },
            ),
        ),
        CExpr::RangeList { start, end } => SExpr::RangeList {
            start: Box::new(surface_of(*start)),
            end: Box::new(surface_of(*end)),
        },
        CExpr::Dict(entries) => SExpr::Dict(
            Seq::new(
                entries.len(),
                |i: int|
                    if 0 <= i < entries.len() {
                        (surface_of(entries[i].0), surface_of(entries[i].1))
                    } else {
                        (SExpr::Int(0), SExpr::Int(0))
                    },
            ),
        ),
        CExpr::Construct { name, fields } => SExpr::Construct {
            name,
            fields: Seq::new(
                fields.len(),
                |i: int|
                    if 0 <= i < fields.len() {
                        (fields[i].0, surface_of(fields[i].1))
                    } else {
                        (Seq::empty(), SExpr::Int(0))
                    },
            ),
        },
        CExpr::For { name, iter, guard, body } => SExpr::For {
            name,
            iter: Box::new(surface_of(*iter)),
            guard: match guard {
                Some(g) => Some(Box::new(surface_of(*g))),
                None => None,
            },
            body: Box::new(surface_of(*body)),
        },
        CExpr::Unary { op, expr } => SExpr::Unary { op, expr: Box::new(surface_of(*expr)) },
        CExpr::Binary { op, left, right } => SExpr::Binary {
            op,
            left: Box::new(surface_of(*left)),
            right: Box::new(surface_of(*right)),
        },
        CExpr::If { cond, then_branch, else_branch } => SExpr::If {
            cond: Box::new(surface_of(*cond)),
            then_branch: Box::new(surface_of(*then_branch)),
            else_branch: Box::new(surface_of(*else_branch)),
        },
        CExpr::Call { callee, args } => SExpr::Call {
            callee,
            args: Seq::new(
                args.len(),
                |i: int| if 0 <= i < args.len() { surface_of(args[i]) } else { SExpr::Int(0) },
            ),
        },
        CExpr::Match { scrutinee, arms } => SExpr::Match {
            scrutinee: Box::new(surface_of(*scrutinee)),
            arms: Seq::new(
                arms.len(),
                |i: int|
                    if 0 <= i < arms.len() {
                        SArm {
                            pattern: match arms[i].pattern {
                                CPattern::Wildcard => SPattern::Wildcard,
                                CPattern::Expr(x) => SPattern::Expr(surface_of(x)),
                                CPattern::Compare { op, expr } => SPattern::Compare {
                                    op,
                                    expr: surface_of(expr),
                                },
                                CPattern::Variant { name, fields } => SPattern::Variant {
                                    name,
                                    fields,
                                },
                            },
                            body: surface_of(arms[i].body),
                        }
                    } else {
                        SArm { pattern: SPattern::Wildcard, body: SExpr::Int(0) }
                    },
            ),
        },
    }
}

/// An expression without pipes lowers to itself, node for node: lowering
/// the surface form of any core expression gives that core expression back.
pub proof fn law_pipe_free_lowers_to_itself(c: CExpr)
    ensures
        lower_sexpr(surface_of(c)) == c,
    decreases c,
{
    match c {
        CExpr::List(items) => {
            assert forall|i: int| 0 <= i < items.len() implies lower_sexpr(
                surface_of(items[i]),
            ) == #[trigger] items[i] by {
                law_pipe_free_lowers_to_itself(items[i]);
            }
            assert(lower_sexpr(surface_of(c))->List_0 =~= items);
        },
        CExpr::RangeList { start, end } => {
            law_pipe_free_lowers_to_itself(*start);
            law_pipe_free_lowers_to_itself(*end);
        },
        CExpr::Dict(entries) => {
            assert forall|i: int| 0 <= i < entries.len() implies (lower_sexpr(
                surface_of(entries[i].0),
            ), lower_sexpr(surface_of(entries[i].1))) == #[trigger] entries[i] by {
                law_pipe_free_lowers_to_itself(entries[i].0);
                law_pipe_free_lowers_to_itself(entries[i].1);
            }
            assert(lower_sexpr(surface_of(c))->Dict_0 =~= entries);
        },
        CExpr::Construct { name, fields } => {
            assert forall|i: int| 0 <= i < fields.len() implies (fields[i].0, lower_sexpr(
                surface_of(fields[i].1),
            )) == #[trigger] fields[i] by {
                law_pipe_free_lowers_to_itself(fields[i].1);
            }
            assert(lower_sexpr(surface_of(c))->Construct_fields =~= fields);
        },
        CExpr::For { name, iter, guard, body } => {
            law_pipe_free_lowers_to_itself(*iter);
            law_pipe_free_lowers_to_itself(*body);
            match guard {
                Some(g) => {
                    law_pipe_free_lowers_to_itself(*g);
                },
                None => {},
            }
        },
        CExpr::Unary { op, expr } => {
            law_pipe_free_lowers_to_itself(*expr);
        },
        CExpr::Binary { op, left, right } => {
            law_pipe_free_lowers_to_itself(*left);
            law_pipe_free_lowers_to_itself(*right);
        },
        CExpr::If { cond, then_branch, else_branch } => {
            law_pipe_free_lowers_to_itself(*cond);
            law_pipe_free_lowers_to_itself(*then_branch);
            law_pipe_free_lowers_to_itself(*else_branch);
        },
        CExpr::Call { callee, args } => {
            assert forall|i: int| 0 <= i < args.len() implies lower_sexpr(surface_of(args[i]))
                == #[trigger] args[i] by {
                law_pipe_free_lowers_to_itself(args[i]);
            }
            assert(lower_sexpr(surface_of(c))->Call_args =~= args);
        },
        CExpr::Match { scrutinee, arms } => {
            law_pipe_free_lowers_to_itself(*scrutinee);
            let sa = surface_of(c)->Match_arms;
            assert forall|i: int| 0 <= i < arms.len() implies lower_sexpr(surface_of(c))->Match_arms[i]
                == #[trigger] arms[i] by {
                law_pipe_free_lowers_to_itself(arms[i].body);
                match arms[i].pattern {
                    CPattern::Expr(x) => {
                        law_pipe_free_lowers_to_itself(x);
                    },
                    CPattern::Compare { op, expr } => {
                        law_pipe_free_lowers_to_itself(expr);
                    },
                    _ => {},
                }
            }
            assert(lower_sexpr(surface_of(c))->Match_arms =~= arms);
        },
        _ => {},
    }
}

/// Lowers a whole program.
pub fn lower_program(program: surface::Program) -> (r: core_ast::Program)
    ensures
        r@ == lower_sprogram(program@),
{
    let mut items: Vec<core_ast::Item> = Vec::new();
    let mut i: usize = 0;
    while i < program.items.len()
        invariant
            i <= program.items.len(),
            items@.len() == i,
            forall|j: int| 0 <= j < i ==> #[trigger] items@[j]@ == lower_sitem(program.items@[j]@),
        decreases program.items.len() - i,
    {
        let item = lower_item(&program.items[i]);
        items.push(item);
        i = i + 1;
    }
    let expr = match &program.expr {
        Some(e) => Some(lower_expr(e)),
        None => None,
    };
    let r = core_ast::Program { items, expr };
    proof {
        assert(r@.items =~= lower_sprogram(program@).items);
    }
    r
}

fn lower_item(item: &surface::Item) -> (r: core_ast::Item)
    ensures
        r@ == lower_sitem(item@),
{
    match item {
        surface::Item::Fn(def) => core_ast::Item::Fn(lower_fn(def)),
        surface::Item::Let(def) => core_ast::Item::Let(lower_let(def)),
        surface::Item::ExternFn(def) => core_ast::Item::ExternFn(lower_extern_fn(def)),
        surface::Item::Data(def) => {
            let d = lower_data_def(def);
            proof {
                assert(core_ast::Item::Data(d)@->Data_variants =~= item@->Data_variants);
            }
            core_ast::Item::Data(d)
        },
    }
}

fn lower_fn(def: &surface::FnDef) -> (r: core_ast::FnDef)
    ensures
        r.name@ == def.name@,
        r.params@ == def.params@,
        r.body@ == lower_sexpr(def.body@),
{
    core_ast::FnDef { name: def.name.clone(), params: copy_names(&def.params), body: lower_expr(&def.body) }
}

fn lower_let(def: &surface::LetDef) -> (r: core_ast::LetDef)
    ensures
        r.name@ == def.name@,
        r.expr@ == lower_sexpr(def.expr@),
{
    core_ast::LetDef { name: def.name.clone(), expr: lower_expr(&def.expr) }
}

fn lower_extern_fn(def: &surface::ExternFnDef) -> (r: core_ast::ExternFnDef)
    ensures
        r.name@ == def.name@,
        r.params@ == def.params@,
        r.explain@ == def.explain@,
{
    core_ast::ExternFnDef {
        name: def.name.clone(),
        params: copy_names(&def.params),
        explain: def.explain.clone(),
    }
}

fn lower_data_def(def: &surface::DataDef) -> (r: core_ast::DataDef)
    ensures
        r.name@ == def.name@,
        r.variants@.len() == def.variants@.len(),
        forall|i: int| 0 <= i < def.variants@.len() ==> #[trigger] r.variants@[i]@ == def.variants@[i]@,
{
    let mut variants: Vec<core_ast::DataVariant> = Vec::new();
    let mut i: usize = 0;
    while i < def.variants.len()
        invariant
            i <= def.variants.len(),
            variants@.len() == i,
            forall|j: int| 0 <= j < i ==> #[trigger] variants@[j]@ == def.variants@[j]@,
        decreases def.variants.len() - i,
    {
        let v = &def.variants[i];
        variants.push(core_ast::DataVariant { name: v.name.clone(), fields: copy_names(&v.fields) });
        i = i + 1;
    }
    core_ast::DataDef { name: def.name.clone(), variants }
}

/// Lowers an expression.
pub fn lower_expr(expr: &surface::Expr) -> (r: core_ast::Expr)
    ensures
        r@ == lower_sexpr(expr@),
    decreases expr,
{
    proof {
        lemma_expr_views(*expr);
    }
    match expr {
        surface::Expr::Int(v) => core_ast::Expr::Int(*v),
        surface::Expr::Bool(b) => core_ast::Expr::Bool(*b),
        surface::Expr::Str(s) => core_ast::Expr::Str(s.clone()),
        surface::Expr::Bytes(b) => {
            let c = b.clone();
            proof {
                assert(c@ =~= b@);
            }
            core_ast::Expr::Bytes(c)
        },
        surface::Expr::Var(n) => core_ast::Expr::Var(n.clone()),
        surface::Expr::List(items) => {
            let v = lower_all(items);
            let r = core_ast::Expr::List(v);
            proof {
                lemma_core_views(r);
                assert(r@->List_0 =~= lower_sexpr(expr@)->List_0);
            }
            r
        },
        surface::Expr::RangeList { start, end } => core_ast::Expr::RangeList {
            start: Box::new(lower_expr(start)),
            end: Box::new(lower_expr(end)),
        },
        surface::Expr::Dict(entries) => {
            let v = lower_entries(entries);
            let r = core_ast::Expr::Dict(v);
            proof {
                lemma_core_views(r);
                assert(r@->Dict_0 =~= lower_sexpr(expr@)->Dict_0);
            }
            r
        },
        surface::Expr::Construct { name, fields } => {
            let v = lower_fields(fields);
            let r = core_ast::Expr::Construct { name: name.clone(), fields: v };
            proof {
                lemma_core_views(r);
                assert(r@->Construct_fields =~= lower_sexpr(expr@)->Construct_fields);
            }
            r
        },
        surface::Expr::For { name, iter, guard, body } => {
            let g = match guard {
                Some(g) => Some(Box::new(lower_expr(g))),
                None => None,
            };
            core_ast::Expr::For {
                name: name.clone(),
                iter: Box::new(lower_expr(iter)),
                guard: g,
                body: Box::new(lower_expr(body)),
            }
        },
        surface::Expr::Unary { op, expr } => core_ast::Expr::Unary {
            op: *op,
            expr: Box::new(lower_expr(expr)),
        },
        surface::Expr::Binary { op, left, right } => core_ast::Expr::Binary {
            op: *op,
            left: Box::new(lower_expr(left)),
            right: Box::new(lower_expr(right)),
        },
        surface::Expr::If { cond, then_branch, else_branch } => core_ast::Expr::If {
            cond: Box::new(lower_expr(cond)),
            then_branch: Box::new(lower_expr(then_branch)),
            else_branch: Box::new(lower_expr(else_branch)),
        },
        surface::Expr::Call { callee, args } => {
            let v = lower_all(args);
            let r = core_ast::Expr::Call { callee: callee.clone(), args: v };
            proof {
                lemma_core_views(r);
                assert(r@->Call_args =~= lower_sexpr(expr@)->Call_args);
            }
            r
        },
        surface::Expr::Pipe { input, target } => {
            let first = lower_expr(input);
            match target {
                surface::PipeTarget::Ident(name) => {
                    let mut v: Vec<core_ast::Expr> = Vec::new();
                    v.push(first);
                    let r = core_ast::Expr::Call { callee: name.clone(), args: v };
                    proof {
                        lemma_core_views(r);
                        assert(r@->Call_args =~= lower_sexpr(expr@)->Call_args);
                    }
                    r
                },
                surface::PipeTarget::Call { name, args } => {
                    let mut v = lower_all(args);
                    v.insert(0, first);
                    let r = core_ast::Expr::Call { callee: name.clone(), args: v };
                    proof {
                        lemma_core_views(r);
                        assert(target@->Call_args =~= exprs_view(args@));
                        assert(r@->Call_args =~= lower_sexpr(expr@)->Call_args);
                    }
                    r
                },
            }
        },
        surface::Expr::Match { scrutinee, arms } => {
            let v = lower_arms(arms);
            let r = core_ast::Expr::Match { scrutinee: Box::new(lower_expr(scrutinee)), arms: v };
            proof {
                lemma_core_views(r);
                assert(r@->Match_arms =~= lower_sexpr(expr@)->Match_arms);
            }
            r
        },
    }
}

/// Lowers each expression of a list.
fn lower_all(items: &Vec<surface::Expr>) -> (r: Vec<core_ast::Expr>)
    ensures
        r@.len() == items@.len(),
        forall|i: int| 0 <= i < items@.len() ==> #[trigger] r@[i]@ == lower_sexpr(items@[i]@),
    decreases items,
{
    let mut r: Vec<core_ast::Expr> = Vec::new();
    let mut i: usize = 0;
    while i < items.len()
        invariant
            i <= items.len(),
            r@.len() == i,
            forall|j: int| 0 <= j < i ==> #[trigger] r@[j]@ == lower_sexpr(items@[j]@),
        decreases items.len() - i,
    {
        proof {
            assert(decreases_to!(items => items[i as int]));
        }
        r.push(lower_expr(&items[i]));
        i = i + 1;
    }
    r
}

/// Lowers the keys and values of a map literal.
fn lower_entries(entries: &Vec<(surface::Expr, surface::Expr)>) -> (r: Vec<(core_ast::Expr, core_ast::Expr)>)
    ensures
        r@.len() == entries@.len(),
        forall|i: int|
            0 <= i < entries@.len() ==> #[trigger] r@[i].0@ == lower_sexpr(entries@[i].0@) && r@[i].1@
                == lower_sexpr(entries@[i].1@),
    decreases entries,
{
    let mut r: Vec<(core_ast::Expr, core_ast::Expr)> = Vec::new();
    let mut i: usize = 0;
    while i < entries.len()
        invariant
            i <= entries.len(),
            r@.len() == i,
            forall|j: int|
                0 <= j < i ==> #[trigger] r@[j].0@ == lower_sexpr(entries@[j].0@) && r@[j].1@
                    == lower_sexpr(entries@[j].1@),
        decreases entries.len() - i,
    {
        proof {
            assert(decreases_to!(entries => entries[i as int]));
        }
        let k = lower_expr(&entries[i].0);
        let v = lower_expr(&entries[i].1);
        r.push((k, v));
        i = i + 1;
    }
    r
}

/// Lowers the fields of a constructor.
fn lower_fields(fields: &Vec<(String, surface::Expr)>) -> (r: Vec<(String, core_ast::Expr)>)
    ensures
        r@.len() == fields@.len(),
        forall|i: int|
            #![trigger r@[i]]
            0 <= i < fields@.len() ==> r@[i].0@ == fields@[i].0@ && r@[i].1@ == lower_sexpr(
                fields@[i].1@,
            ),
    decreases fields,
{
    let mut r: Vec<(String, core_ast::Expr)> = Vec::new();
    let mut i: usize = 0;
    while i < fields.len()
        invariant
            i <= fields.len(),
            r@.len() == i,
            forall|j: int|
                #![trigger r@[j]]
                0 <= j < i ==> r@[j].0@ == fields@[j].0@ && r@[j].1@ == lower_sexpr(
                    fields@[j].1@,
                ),
        decreases fields.len() - i,
    {
        proof {
            assert(decreases_to!(fields => fields[i as int]));
        }
        let e = lower_expr(&fields[i].1);
        r.push((fields[i].0.clone(), e));
        i = i + 1;
    }
    r
}

/// Lowers the arms of a match.
fn lower_arms(arms: &Vec<surface::MatchArm>) -> (r: Vec<core_ast::MatchArm>)
    ensures
        r@.len() == arms@.len(),
        forall|i: int|
            0 <= i < arms@.len() ==> #[trigger] r@[i]@ == (CArm {
                pattern: lower_spattern(arms@[i]@.pattern),
                body: lower_sexpr(arms@[i]@.body),
            }),
    decreases arms,
{
    let mut r: Vec<core_ast::MatchArm> = Vec::new();
    let mut i: usize = 0;
    while i < arms.len()
        invariant
            i <= arms.len(),
            r@.len() == i,
            forall|j: int|
                0 <= j < i ==> #[trigger] r@[j]@ == (CArm {
                    pattern: lower_spattern(arms@[j]@.pattern),
                    body: lower_sexpr(arms@[j]@.body),
                }),
        decreases arms.len() - i,
    {
        proof {
            assert(decreases_to!(arms => arms[i as int]));
        }
        r.push(lower_match_arm(&arms[i]));
        i = i + 1;
    }
    r
}

fn lower_match_arm(arm: &surface::MatchArm) -> (r: core_ast::MatchArm)
    ensures
        r@ == (CArm { pattern: lower_spattern(arm@.pattern), body: lower_sexpr(arm@.body) }),
    decreases arm,
{
    core_ast::MatchArm { pattern: lower_match_pattern(&arm.pattern), body: lower_expr(&arm.body) }
}

fn lower_match_pattern(pattern: &surface::MatchPattern) -> (r: core_ast::MatchPattern)
    ensures
        r@ == lower_spattern(pattern@),
    decreases pattern,
{
    match pattern {
        surface::MatchPattern::Wildcard => core_ast::MatchPattern::Wildcard,
        surface::MatchPattern::Expr(e) => core_ast::MatchPattern::Expr(lower_expr(e)),
        surface::MatchPattern::Compare { op, expr } => core_ast::MatchPattern::Compare {
            op: *op,
            expr: lower_expr(expr),
        },
        surface::MatchPattern::Variant { name, fields } => {
            let mut out: Vec<core_ast::FieldPattern> = Vec::new();
            let mut i: usize = 0;
            while i < fields.len()
                invariant
                    i <= fields.len(),
                    out@.len() == i,
                    forall|j: int| 0 <= j < i ==> #[trigger] out@[j]@ == fields@[j]@,
                decreases fields.len() - i,
            {
                let f = &fields[i];
                let bind = match &f.bind {
                    Some(b) => Some(b.clone()),
                    None => None,
                };
                out.push(core_ast::FieldPattern { field: f.field.clone(), bind });
                i = i + 1;
            }
            let r = core_ast::MatchPattern::Variant { name: name.clone(), fields: out };
            proof {
                assert(r@->Variant_fields =~= pattern@->Variant_fields);
            }
            r
        },
    }
}

} // verus!
