//! The surface syntax tree, as written by the programmer.
use vstd::prelude::*;

use crate::ast::{copy_names, names_view};
use crate::ast::{BinaryOp, UnaryOp};

verus! {

/// A whole source file: its items and an optional result expression.
#[derive(Debug, PartialEq)]
pub struct Program {
    pub items: Vec<Item>,
    pub expr: Option<Expr>,
}

/// A top-level item.
#[derive(Debug, PartialEq)]
pub enum Item {
    Fn(FnDef),
    Let(LetDef),
    ExternFn(ExternFnDef),
    Data(DataDef),
}

/// `fn name(params) = body`
#[derive(Debug, PartialEq)]
pub struct FnDef {
    pub name: String,
    pub params: Vec<String>,
    pub body: Expr,
}

/// `let name = expr`
#[derive(Debug, PartialEq)]
pub struct LetDef {
    pub name: String,
    pub expr: Expr,
}

/// `extern fn name(params) explain { text }`
#[derive(Debug, Clone, PartialEq)]
pub struct ExternFnDef {
    pub name: String,
    pub params: Vec<String>,
    pub explain: String,
}

/// `data Name = Variant | Variant { fields }`
#[derive(Debug, Clone, PartialEq)]
pub struct DataDef {
    pub name: String,
    pub variants: Vec<DataVariant>,
}

/// One variant of a data definition.
#[derive(Debug, Clone, PartialEq)]
pub struct DataVariant {
    pub name: String,
    pub fields: Vec<String>,
}

/// Surface expressions.
#[derive(Debug, PartialEq)]
pub enum Expr {
    Int(i64),
    Bool(bool),
    Str(String),
    Bytes(Vec<u8>),
    List(Vec<Expr>),
    RangeList { start: Box<Expr>, end: Box<Expr> },
    Dict(Vec<(Expr, Expr)>),
    Var(String),
    Construct { name: String, fields: Vec<(String, Expr)> },
    For { name: String, iter: Box<Expr>, guard: Option<Box<Expr>>, body: Box<Expr> },
    Unary { op: UnaryOp, expr: Box<Expr> },
    Binary { op: BinaryOp, left: Box<Expr>, right: Box<Expr> },
    If { cond: Box<Expr>, then_branch: Box<Expr>, else_branch: Box<Expr> },
    Call { callee: String, args: Vec<Expr> },
    Pipe { input: Box<Expr>, target: PipeTarget },
    Match { scrutinee: Box<Expr>, arms: Vec<MatchArm> },
}

/// `pattern => body`
#[derive(Debug, PartialEq)]
pub struct MatchArm {
    pub pattern: MatchPattern,
    pub body: Expr,
}

/// Patterns of a match arm.
#[derive(Debug, PartialEq)]
pub enum MatchPattern {
    Wildcard,
    Expr(Expr),
    Compare { op: BinaryOp, expr: Expr },
    Variant { name: String, fields: Vec<FieldPattern> },
}

/// `field`, `field: bind` or `field: _` inside a variant pattern.
#[derive(Debug, Clone, PartialEq)]
pub struct FieldPattern {
    pub field: String,
    pub bind: Option<String>,
}

/// What follows `|>`: a bare name or a call with the remaining arguments.
#[derive(Debug, PartialEq)]
pub enum PipeTarget {
    Ident(String),
    Call { name: String, args: Vec<Expr> },
}

// ---------------------------------------------------------------------------
// Mathematical model of the surface tree.
pub ghost struct SProgram {
    pub items: Seq<SItem>,
    pub expr: Option<SExpr>,
}

pub ghost enum SItem {
    Fn { name: Seq<char>, params: Seq<Seq<char>>, body: SExpr },
    Let { name: Seq<char>, expr: SExpr },
    ExternFn { name: Seq<char>, params: Seq<Seq<char>>, explain: Seq<char> },
    Data { name: Seq<char>, variants: Seq<(Seq<char>, Seq<Seq<char>>)> },
}

pub ghost enum SExpr {
    Int(i64),
    Bool(bool),
    Str(Seq<char>),
    Bytes(Seq<u8>),
    List(Seq<SExpr>),
    RangeList { start: Box<SExpr>, end: Box<SExpr> },
    Dict(Seq<(SExpr, SExpr)>),
    Var(Seq<char>),
    Construct { name: Seq<char>, fields: Seq<(Seq<char>, SExpr)> },
    For { name: Seq<char>, iter: Box<SExpr>, guard: Option<Box<SExpr>>, body: Box<SExpr> },
    Unary { op: UnaryOp, expr: Box<SExpr> },
    Binary { op: BinaryOp, left: Box<SExpr>, right: Box<SExpr> },
    If { cond: Box<SExpr>, then_branch: Box<SExpr>, else_branch: Box<SExpr> },
    Call { callee: Seq<char>, args: Seq<SExpr> },
    Pipe { input: Box<SExpr>, target: SPipeTarget },
    Match { scrutinee: Box<SExpr>, arms: Seq<SArm> },
}

pub ghost struct SArm {
    pub pattern: SPattern,
    pub body: SExpr,
}

pub ghost enum SPattern {
    Wildcard,
    Expr(SExpr),
    Compare { op: BinaryOp, expr: SExpr },
    Variant { name: Seq<char>, fields: Seq<(Seq<char>, Option<Seq<char>>)> },
}

pub ghost enum SPipeTarget {
    Ident(Seq<char>),
    Call { name: Seq<char>, args: Seq<SExpr> },
}

pub open spec fn opt_string_view(o: Option<String>) -> Option<Seq<char>> {
    match o {
        Some(s) => Some(s@),
        None => None,
    }
}

impl View for FieldPattern {
    type V = (Seq<char>, Option<Seq<char>>);

    open spec fn view(&self) -> (Seq<char>, Option<Seq<char>>) {
        (self.field@, opt_string_view(self.bind))
    }
}

impl View for DataVariant {
    type V = (Seq<char>, Seq<Seq<char>>);

    open spec fn view(&self) -> (Seq<char>, Seq<Seq<char>>) {
        (self.name@, names_view(self.fields@))
    }
}

/// The mathematical value of an expression.
pub open spec fn sexpr_of(e: Expr) -> SExpr
    decreases e,
{
    match e {
        Expr::Int(v) => SExpr::Int(v),
        Expr::Bool(b) => SExpr::Bool(b),
        Expr::Str(s) => SExpr::Str(s@),
        Expr::Bytes(b) => SExpr::Bytes(b@),
        Expr::List(items) => SExpr::List(
            Seq::new(items@.len(), |i: int| if 0 <= i < items@.len() { sexpr_of(items@[i]) } else { SExpr::Int(0) }),
        ),
        Expr::RangeList { start, end } => SExpr::RangeList {
            start: Box::new(sexpr_of(*start)),
            end: Box::new(sexpr_of(*end)),
        },
        Expr::Dict(entries) => SExpr::Dict(
            Seq::new(
                entries@.len(),
                |i: int|
                    if 0 <= i < entries@.len() {
                        (sexpr_of(entries@[i].0), sexpr_of(entries@[i].1))
                    } else {
                        (SExpr::Int(0), SExpr::Int(0))
                    },
            ),
        ),
        Expr::Var(n) => SExpr::Var(n@),
        Expr::Construct { name, fields } => SExpr::Construct {
            name: name@,
            fields: Seq::new(
                fields@.len(),
                |i: int|
                    if 0 <= i < fields@.len() {
                        (fields@[i].0@, sexpr_of(fields@[i].1))
                    } else {
                        (Seq::empty(), SExpr::Int(0))
                    },
            ),
        },
        Expr::For { name, iter, guard, body } => SExpr::For {
            name: name@,
            iter: Box::new(sexpr_of(*iter)),
            guard: match guard {
                Some(g) => Some(Box::new(sexpr_of(*g))),
                None => None,
            },
            body: Box::new(sexpr_of(*body)),
        },
        Expr::Unary { op, expr } => SExpr::Unary { op, expr: Box::new(sexpr_of(*expr)) },
        Expr::Binary { op, left, right } => SExpr::Binary {
            op,
            left: Box::new(sexpr_of(*left)),
            right: Box::new(sexpr_of(*right)),
        },
        Expr::If { cond, then_branch, else_branch } => SExpr::If {
            cond: Box::new(sexpr_of(*cond)),
            then_branch: Box::new(sexpr_of(*then_branch)),
            else_branch: Box::new(sexpr_of(*else_branch)),
        },
        Expr::Call { callee, args } => SExpr::Call {
            callee: callee@,
            args: Seq::new(args@.len(), |i: int| if 0 <= i < args@.len() { sexpr_of(args@[i]) } else { SExpr::Int(0) }),
        },
        Expr::Pipe { input, target } => SExpr::Pipe {
            input: Box::new(sexpr_of(*input)),
            target: match target {
                PipeTarget::Ident(n) => SPipeTarget::Ident(n@),
                PipeTarget::Call { name, args } => SPipeTarget::Call {
                    name: name@,
                    args: Seq::new(args@.len(), |i: int| if 0 <= i < args@.len() { sexpr_of(args@[i]) } else { SExpr::Int(0) }),
                },
            },
        },
        Expr::Match { scrutinee, arms } => SExpr::Match {
            scrutinee: Box::new(sexpr_of(*scrutinee)),
            arms: Seq::new(
                arms@.len(),
                |i: int|
                    if 0 <= i < arms@.len() {
                        SArm {
                            pattern: match arms@[i].pattern {
                                MatchPattern::Wildcard => SPattern::Wildcard,
                                MatchPattern::Expr(e) => SPattern::Expr(sexpr_of(e)),
                                MatchPattern::Compare { op, expr } => SPattern::Compare { op, expr: sexpr_of(expr) },
                                MatchPattern::Variant { name, fields } => SPattern::Variant {
                                    name: name@,
                                    fields: Seq::new(fields@.len(), |j: int| fields@[j]@),
                                },
                            },
                            body: sexpr_of(arms@[i].body),
                        }
                    } else {
                        SArm { pattern: SPattern::Wildcard, body: SExpr::Int(0) }
                    },
            ),
        },
    }
}

impl View for Expr {
    type V = SExpr;

    open spec fn view(&self) -> SExpr {
        sexpr_of(*self)
    }
}

impl View for MatchPattern {
    type V = SPattern;

    open spec fn view(&self) -> SPattern {
        match self {
            MatchPattern::Wildcard => SPattern::Wildcard,
            MatchPattern::Expr(e) => SPattern::Expr(e@),
            MatchPattern::Compare { op, expr } => SPattern::Compare { op: *op, expr: expr@ },
            MatchPattern::Variant { name, fields } => SPattern::Variant {
                name: name@,
                fields: Seq::new(fields@.len(), |j: int| fields@[j]@),
            },
        }
    }
}

impl View for MatchArm {
    type V = SArm;

    open spec fn view(&self) -> SArm {
        SArm { pattern: self.pattern@, body: self.body@ }
    }
}

impl View for PipeTarget {
    type V = SPipeTarget;

    open spec fn view(&self) -> SPipeTarget {
        match self {
            PipeTarget::Ident(n) => SPipeTarget::Ident(n@),
            PipeTarget::Call { name, args } => SPipeTarget::Call {
                name: name@,
                args: Seq::new(args@.len(), |i: int| args@[i]@),
            },
        }
    }
}

impl View for Item {
    type V = SItem;

    open spec fn view(&self) -> SItem {
        match self {
            Item::Fn(d) => SItem::Fn { name: d.name@, params: names_view(d.params@), body: d.body@ },
            Item::Let(d) => SItem::Let { name: d.name@, expr: d.expr@ },
            Item::ExternFn(d) => SItem::ExternFn {
                name: d.name@,
                params: names_view(d.params@),
                explain: d.explain@,
            },
            Item::Data(d) => SItem::Data {
                name: d.name@,
                variants: Seq::new(d.variants@.len(), |i: int| d.variants@[i]@),
            },
        }
    }
}

impl View for Program {
    type V = SProgram;

    open spec fn view(&self) -> SProgram {
        SProgram {
            items: Seq::new(self.items@.len(), |i: int| self.items@[i]@),
            expr: match self.expr {
                Some(e) => Some(e@),
                None => None,
            },
        }
    }
}

pub open spec fn exprs_view(v: Seq<Expr>) -> Seq<SExpr> {
    Seq::new(v.len(), |i: int| v[i]@)
}

pub open spec fn entries_view(v: Seq<(Expr, Expr)>) -> Seq<(SExpr, SExpr)> {
    Seq::new(v.len(), |i: int| (v[i].0@, v[i].1@))
}

pub open spec fn fields_view(v: Seq<(String, Expr)>) -> Seq<(Seq<char>, SExpr)> {
    Seq::new(v.len(), |i: int| (v[i].0@, v[i].1@))
}

pub open spec fn arms_view(v: Seq<MatchArm>) -> Seq<SArm> {
    Seq::new(v.len(), |i: int| v[i]@)
}

pub open spec fn field_patterns_view(v: Seq<FieldPattern>) -> Seq<(Seq<char>, Option<Seq<char>>)> {
    Seq::new(v.len(), |i: int| v[i]@)
}

pub open spec fn variants_view(v: Seq<DataVariant>) -> Seq<(Seq<char>, Seq<Seq<char>>)> {
    Seq::new(v.len(), |i: int| v[i]@)
}

pub open spec fn items_view(v: Seq<Item>) -> Seq<SItem> {
    Seq::new(v.len(), |i: int| v[i]@)
}

/// The views of the compound expressions, in terms of the views of their
/// parts.
pub proof fn lemma_expr_views(e: Expr)
    ensures
        e matches Expr::List(items) ==> e@ == SExpr::List(exprs_view(items@)),
        e matches Expr::Dict(entries) ==> e@ == SExpr::Dict(entries_view(entries@)),
        e matches Expr::Construct { name, fields } ==> e@ == (SExpr::Construct {
            name: name@,
            fields: fields_view(fields@),
        }),
        e matches Expr::Call { callee, args } ==> e@ == (SExpr::Call {
            callee: callee@,
            args: exprs_view(args@),
        }),
        e matches Expr::Match { scrutinee, arms } ==> e@ == (SExpr::Match {
            scrutinee: Box::new((*scrutinee)@),
            arms: arms_view(arms@),
        }),
        e matches Expr::Pipe { input, target } ==> e@ == (SExpr::Pipe {
            input: Box::new((*input)@),
            target: target@,
        }),
{
    match e {
        Expr::List(items) => {
            assert(e@->List_0 =~= exprs_view(items@));
        },
        Expr::Dict(entries) => {
            assert(e@->Dict_0 =~= entries_view(entries@));
        },
        Expr::Construct { name, fields } => {
            assert(e@->Construct_fields =~= fields_view(fields@));
        },
        Expr::Call { callee, args } => {
            assert(e@->Call_args =~= exprs_view(args@));
        },
        Expr::Match { scrutinee, arms } => {
            assert forall|i: int| 0 <= i < arms@.len() implies #[trigger] e@->Match_arms[i] == arms_view(arms@)[i] by {
                let a = arms@[i];
                match a.pattern {
                    MatchPattern::Variant { name, fields } => {
                        assert(e@->Match_arms[i].pattern->Variant_fields =~= field_patterns_view(fields@));
                    },
                    _ => {},
                }
            }
            assert(e@->Match_arms =~= arms_view(arms@));
        },
        Expr::Pipe { input, target } => {
            match target {
                PipeTarget::Call { name, args } => {
                    assert(e@->Pipe_target->Call_args =~= exprs_view(args@));
                },
                _ => {},
            }
        },
        _ => {},
    }
}

// ---------------------------------------------------------------------------
// Copies.
/// A copy of an expression.
pub fn copy_expr(expr: &Expr) -> (r: Expr)
    ensures
        r@ == expr@,
    decreases expr,
{
    proof {
        lemma_expr_views(*expr);
    }
    match expr {
        Expr::Int(v) => Expr::Int(*v),
        Expr::Bool(b) => Expr::Bool(*b),
        Expr::Str(s) => Expr::Str(s.clone()),
        Expr::Bytes(b) => {
            let c = b.clone();
            proof {
                assert(c@ =~= b@);
            }
            Expr::Bytes(c)
        },
        Expr::Var(n) => Expr::Var(n.clone()),
        Expr::List(items) => {
            let v = copy_exprs(items);
            let r = Expr::List(v);
            proof {
                lemma_expr_views(r);
                assert(r@->List_0 =~= expr@->List_0);
            }
            r
        },
        Expr::RangeList { start, end } => Expr::RangeList {
            start: Box::new(copy_expr(start)),
            end: Box::new(copy_expr(end)),
        },
        Expr::Dict(entries) => {
            let v = copy_entries(entries);
            let r = Expr::Dict(v);
            proof {
                lemma_expr_views(r);
                assert(r@->Dict_0 =~= expr@->Dict_0);
            }
            r
        },
        Expr::Construct { name, fields } => {
            let v = copy_fields(fields);
            let r = Expr::Construct { name: name.clone(), fields: v };
            proof {
                lemma_expr_views(r);
                assert(r@->Construct_fields =~= expr@->Construct_fields);
            }
            r
        },
        Expr::For { name, iter, guard, body } => {
            let g = match guard {
                Some(g) => Some(Box::new(copy_expr(g))),
                None => None,
            };
            Expr::For {
                name: name.clone(),
                iter: Box::new(copy_expr(iter)),
                guard: g,
                body: Box::new(copy_expr(body)),
            }
        },
        Expr::Unary { op, expr } => Expr::Unary {
            op: *op,
            expr: Box::new(copy_expr(expr)),
        },
        Expr::Binary { op, left, right } => Expr::Binary {
            op: *op,
            left: Box::new(copy_expr(left)),
            right: Box::new(copy_expr(right)),
        },
        Expr::If { cond, then_branch, else_branch } => Expr::If {
            cond: Box::new(copy_expr(cond)),
            then_branch: Box::new(copy_expr(then_branch)),
            else_branch: Box::new(copy_expr(else_branch)),
        },
        Expr::Call { callee, args } => {
            let v = copy_exprs(args);
            let r = Expr::Call { callee: callee.clone(), args: v };
            proof {
                lemma_expr_views(r);
                assert(r@->Call_args =~= expr@->Call_args);
            }
            r
        },
        Expr::Pipe { input, target } => {
            let r = Expr::Pipe { input: Box::new(copy_expr(input)), target: copy_target(target) };
            proof {
                lemma_expr_views(r);
            }
            r
        },
        Expr::Match { scrutinee, arms } => {
            let v = copy_arms(arms);
            let r = Expr::Match { scrutinee: Box::new(copy_expr(scrutinee)), arms: v };
            proof {
                lemma_expr_views(r);
                assert(r@->Match_arms =~= expr@->Match_arms);
            }
            r
        },
    }
}

/// A copy of each expression of a list.
fn copy_exprs(items: &Vec<Expr>) -> (r: Vec<Expr>)
    ensures
        r@.len() == items@.len(),
        forall|i: int| 0 <= i < items@.len() ==> #[trigger] r@[i]@ == items@[i]@,
    decreases items,
{
    let mut r: Vec<Expr> = Vec::new();
    let mut i: usize = 0;
    while i < items.len()
        invariant
            i <= items.len(),
            r@.len() == i,
            forall|j: int| 0 <= j < i ==> #[trigger] r@[j]@ == items@[j]@,
        decreases items.len() - i,
    {
        proof {
            assert(decreases_to!(items => items[i as int]));
        }
        r.push(copy_expr(&items[i]));
        i = i + 1;
    }
    r
}

/// A copy of the entries of a map literal.
fn copy_entries(entries: &Vec<(Expr, Expr)>) -> (r: Vec<(Expr, Expr)>)
    ensures
        r@.len() == entries@.len(),
        forall|i: int|
            0 <= i < entries@.len() ==> #[trigger] r@[i].0@ == entries@[i].0@ && r@[i].1@
                == entries@[i].1@,
    decreases entries,
{
    let mut r: Vec<(Expr, Expr)> = Vec::new();
    let mut i: usize = 0;
    while i < entries.len()
        invariant
            i <= entries.len(),
            r@.len() == i,
            forall|j: int|
                0 <= j < i ==> #[trigger] r@[j].0@ == entries@[j].0@ && r@[j].1@
                    == entries@[j].1@,
        decreases entries.len() - i,
    {
        proof {
            assert(decreases_to!(entries => entries[i as int]));
        }
        let k = copy_expr(&entries[i].0);
        let v = copy_expr(&entries[i].1);
        r.push((k, v));
        i = i + 1;
    }
    r
}

/// A copy of the fields of a constructor.
fn copy_fields(fields: &Vec<(String, Expr)>) -> (r: Vec<(String, Expr)>)
    ensures
        r@.len() == fields@.len(),
        forall|i: int|
            #![trigger r@[i]]
            0 <= i < fields@.len() ==> r@[i].0@ == fields@[i].0@ && r@[i].1@ == fields@[i].1@,
    decreases fields,
{
    let mut r: Vec<(String, Expr)> = Vec::new();
    let mut i: usize = 0;
    while i < fields.len()
        invariant
            i <= fields.len(),
            r@.len() == i,
            forall|j: int|
                #![trigger r@[j]]
                0 <= j < i ==> r@[j].0@ == fields@[j].0@ && r@[j].1@ == fields@[j].1@,
        decreases fields.len() - i,
    {
        proof {
            assert(decreases_to!(fields => fields[i as int]));
        }
        let e = copy_expr(&fields[i].1);
        r.push((fields[i].0.clone(), e));
        i = i + 1;
    }
    r
}

/// A copy of the arms of a match.
fn copy_arms(arms: &Vec<MatchArm>) -> (r: Vec<MatchArm>)
    ensures
        r@.len() == arms@.len(),
        forall|i: int|
            0 <= i < arms@.len() ==> #[trigger] r@[i]@ == arms@[i]@,
    decreases arms,
{
    let mut r: Vec<MatchArm> = Vec::new();
    let mut i: usize = 0;
    while i < arms.len()
        invariant
            i <= arms.len(),
            r@.len() == i,
            forall|j: int|
                0 <= j < i ==> #[trigger] r@[j]@ == arms@[j]@,
        decreases arms.len() - i,
    {
        proof {
            assert(decreases_to!(arms => arms[i as int]));
        }
        r.push(copy_arm(&arms[i]));
        i = i + 1;
    }
    r
}

fn copy_arm(arm: &MatchArm) -> (r: MatchArm)
    ensures
        r@ == arm@,
    decreases arm,
{
    MatchArm { pattern: copy_pattern(&arm.pattern), body: copy_expr(&arm.body) }
}

fn copy_pattern(pattern: &MatchPattern) -> (r: MatchPattern)
    ensures
        r@ == pattern@,
    decreases pattern,
{
    match pattern {
        MatchPattern::Wildcard => MatchPattern::Wildcard,
        MatchPattern::Expr(e) => MatchPattern::Expr(copy_expr(e)),
        MatchPattern::Compare { op, expr } => MatchPattern::Compare {
            op: *op,
            expr: copy_expr(expr),
        },
        MatchPattern::Variant { name, fields } => {
            let mut out: Vec<FieldPattern> = Vec::new();
            let mut i: usize = 0;
            while i < fields.len()
                invariant
                    i <= fields.len(),
                    out@.len() == i,
                    forall|j: int| 0 <= j < i ==> #[trigger] out@[j]@ == fields@[j]@,
                decreases fields.len() - i,
            {
                let f = &fields[i];
                let bind = match &f.bind {
                    Some(b) => Some(b.clone()),
                    None => None,
                };
                out.push(FieldPattern { field: f.field.clone(), bind });
                i = i + 1;
            }
            let r = MatchPattern::Variant { name: name.clone(), fields: out };
            proof {
                assert(r@->Variant_fields =~= pattern@->Variant_fields);
            }
            r
        },
    }
}

/// A copy of the target of a pipe.
pub fn copy_target(t: &PipeTarget) -> (r: PipeTarget)
    ensures
        r@ == t@,
    decreases t,
{
    match t {
        PipeTarget::Ident(n) => PipeTarget::Ident(n.clone()),
        PipeTarget::Call { name, args } => {
            proof {
                assert(decreases_to!(t => args));
            }
            let v = copy_exprs(args);
            let r = PipeTarget::Call { name: name.clone(), args: v };
            proof {
                assert(r@->Call_args =~= t@->Call_args);
            }
            r
        },
    }
}

/// A copy of a data definition.
pub fn copy_data_def(d: &DataDef) -> (r: DataDef)
    ensures
        r.name@ == d.name@,
        r.variants@.len() == d.variants@.len(),
        forall|i: int| 0 <= i < d.variants@.len() ==> #[trigger] r.variants@[i]@ == d.variants@[i]@,
{
    let mut variants: Vec<DataVariant> = Vec::new();
    let mut i: usize = 0;
    while i < d.variants.len()
        invariant
            i <= d.variants.len(),
            variants@.len() == i,
            forall|j: int| 0 <= j < i ==> #[trigger] variants@[j]@ == d.variants@[j]@,
        decreases d.variants.len() - i,
    {
        let v = &d.variants[i];
        variants.push(DataVariant { name: v.name.clone(), fields: copy_names(&v.fields) });
        i = i + 1;
    }
    DataDef { name: d.name.clone(), variants }
}

/// A copy of an item.
pub fn copy_item(item: &Item) -> (r: Item)
    ensures
        r@ == item@,
{
    match item {
        Item::Fn(d) => Item::Fn(FnDef {
            name: d.name.clone(),
            params: copy_names(&d.params),
            body: copy_expr(&d.body),
        }),
        Item::Let(d) => Item::Let(LetDef { name: d.name.clone(), expr: copy_expr(&d.expr) }),
        Item::ExternFn(d) => Item::ExternFn(ExternFnDef {
            name: d.name.clone(),
            params: copy_names(&d.params),
            explain: d.explain.clone(),
        }),
        Item::Data(d) => {
            let r = Item::Data(copy_data_def(d));
            proof {
                assert(r@->Data_variants =~= item@->Data_variants);
            }
            r
        },
    }
}

/// A copy of a program.
pub fn copy_program(p: &Program) -> (r: Program)
    ensures
        r@ == p@,
{
    let mut items: Vec<Item> = Vec::new();
    let mut i: usize = 0;
    while i < p.items.len()
        invariant
            i <= p.items.len(),
            items@.len() == i,
            forall|j: int| 0 <= j < i ==> #[trigger] items@[j]@ == p.items@[j]@,
        decreases p.items.len() - i,
    {
        items.push(copy_item(&p.items[i]));
        i = i + 1;
    }
    let expr = match &p.expr {
        Some(e) => Some(copy_expr(e)),
        None => None,
    };
    let r = Program { items, expr };
    proof {
        assert(r@.items =~= p@.items);
    }
    r
}

impl Clone for Expr {
    fn clone(&self) -> (r: Self)
        ensures
            r@ == self@,
    {
        copy_expr(self)
    }
}

impl Clone for MatchArm {
    fn clone(&self) -> (r: Self)
        ensures
            r@ == self@,
    {
        copy_arm(self)
    }
}

impl Clone for MatchPattern {
    fn clone(&self) -> (r: Self)
        ensures
            r@ == self@,
    {
        copy_pattern(self)
    }
}

impl Clone for FnDef {
    fn clone(&self) -> (r: Self)
        ensures
            r.name@ == self.name@,
            r.params@ == self.params@,
            r.body@ == self.body@,
    {
        FnDef { name: self.name.clone(), params: copy_names(&self.params), body: copy_expr(&self.body) }
    }
}

impl Clone for LetDef {
    fn clone(&self) -> (r: Self)
        ensures
            r.name@ == self.name@,
            r.expr@ == self.expr@,
    {
        LetDef { name: self.name.clone(), expr: copy_expr(&self.expr) }
    }
}

impl Clone for Item {
    fn clone(&self) -> (r: Self)
        ensures
            r@ == self@,
    {
        copy_item(self)
    }
}

impl Clone for Program {
    fn clone(&self) -> (r: Self)
        ensures
            r@ == self@,
    {
        copy_program(self)
    }
}

impl Clone for PipeTarget {
    fn clone(&self) -> (r: Self)
        ensures
            r@ == self@,
    {
        copy_target(self)
    }
}

} // verus!
