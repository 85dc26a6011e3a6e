//! The compiled expression tree and variable bindings.
use vstd::prelude::*;

verus! {

/// The built-in operators.
#[derive(Clone, Copy, Debug, PartialEq, Eq, Structural)]
pub enum Operator {
    Add,
    Sub,
    Mul,
    Divide,
    Pow,
    Fmod,
    Negate,
    Comma,
}

/// What a function or closure node calls: an operator, the built-in with the
/// given index in the built-in table, or the binding with the given index in
/// the caller's variable list.
#[derive(Clone, Copy, Debug, PartialEq, Eq, Structural)]
pub enum Target {
    Op(Operator),
    Builtin(usize),
    Lookup(usize),
}

/// A named binding supplied by the caller: a variable (`TE_VARIABLE`), a
/// function (`TE_FUNCTIONn`) or a closure (`TE_CLOSUREn`), optionally flagged
/// `TE_FLAG_PURE`.  What the name is bound to lives with the caller, who
/// finds it again by the binding's index.
#[derive(Clone, Copy, Debug)]
pub struct TeVariable {
    pub name: &'static str,
    pub type_: i32,
}

/// A node of a compiled expression.
///
/// A constant is the literal text `start..end` of the expression; a folded
/// node is a pure sub-expression whose value is known at compile time and is
/// the value of `inner`.
pub enum Expr {
    Constant { start: usize, end: usize },
    Variable { index: usize },
    Call { type_: i32, target: Target, parameters: Vec<Expr> },
    Folded { inner: Box<Expr> },
}

/// The mathematical view of an expression tree.
pub enum SpecExpr {
    Constant { start: nat, end: nat },
    Variable { index: nat },
    Call { type_: i32, target: Target, params: Seq<SpecExpr> },
    Folded { inner: Box<SpecExpr> },
}

/// The view of one node.
pub open spec fn expr_view(e: Expr) -> SpecExpr
    decreases e,
{
    match e {
        Expr::Constant { start, end } => SpecExpr::Constant { start: start as nat, end: end as nat },
        Expr::Variable { index } => SpecExpr::Variable { index: index as nat },
        Expr::Call { type_, target, parameters } => SpecExpr::Call {
            type_,
            target,
            params: views(parameters@),
        },
        Expr::Folded { inner } => SpecExpr::Folded { inner: Box::new(expr_view(*inner)) },
    }
}

/// The views of a sequence of nodes.
pub open spec fn views(ps: Seq<Expr>) -> Seq<SpecExpr>
    decreases ps,
{
    if ps.len() == 0 {
        Seq::empty()
    } else {
        views(ps.drop_last()).push(expr_view(ps.last()))
    }
}

impl View for Expr {
    type V = SpecExpr;

    open spec fn view(&self) -> SpecExpr {
        expr_view(*self)
    }
}

pub proof fn lemma_views(ps: Seq<Expr>)
    ensures
        views(ps).len() == ps.len(),
        forall|i: int| 0 <= i < ps.len() ==> #[trigger] views(ps)[i] == ps[i]@,
    decreases ps.len(),
{
    if ps.len() > 0 {
        lemma_views(ps.drop_last());
    }
}

pub proof fn lemma_views_push(ps: Seq<Expr>, e: Expr)
    ensures
        views(ps.push(e)) == views(ps).push(e@),
{
    assert(ps.push(e).drop_last() =~= ps);
}

/// A node whose value is known at compile time.
pub open spec fn is_known(e: SpecExpr) -> bool {
    e is Constant || e is Folded
}

impl Expr {
    /// A constant node for the literal at `start..end` of the expression.
    pub fn new_constant(start: usize, end: usize) -> (r: Expr)
        ensures
            r@ == (SpecExpr::Constant { start: start as nat, end: end as nat }),
    {
        Expr::Constant { start, end }
    }

    /// A node reading the variable bound at `index`.
    pub fn new_variable(index: usize) -> (r: Expr)
        ensures
            r@ == (SpecExpr::Variable { index: index as nat }),
    {
        Expr::Variable { index }
    }

    /// A node applying the function `target` of type `t` to `params`.
    pub fn new_func(t: i32, target: Target, params: Vec<Expr>) -> (r: Expr)
        ensures
            r@ == (SpecExpr::Call { type_: t, target, params: views(params@) }),
    {
        Expr::Call { type_: t, target, parameters: params }
    }

    /// A node applying the closure bound at `index` (of type `t`) to `params`.
    pub fn new_closure(t: i32, index: usize, params: Vec<Expr>) -> (r: Expr)
        ensures
            r@ == (SpecExpr::Call { type_: t, target: Target::Lookup(index), params: views(params@) }),
    {
        Expr::new_func(t, Target::Lookup(index), params)
    }
}

} // verus!
