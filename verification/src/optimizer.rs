//! Constant folding.
use vstd::prelude::*;
use crate::ast::{is_known, lemma_views, lemma_views_push, views, Expr, SpecExpr};
use crate::token::{arity, is_pure, spec_arity, spec_is_pure};

verus! {

/// The folded form of `e`: the first arity-many arguments of a pure call are
/// folded first (any further ones are left as they are); a pure call whose
/// folded arguments are all known becomes a folded node; constants,
/// variables, folded nodes and calls that are not pure stay as they are,
/// arguments included.
pub open spec fn optimized(e: SpecExpr) -> SpecExpr
    decreases e,
{
    match e {
        SpecExpr::Call { type_, target, params } => if spec_is_pure(type_) {
            let ps = fold_args(params, spec_arity(type_));
            if known_prefix(ps, spec_arity(type_)) {
                SpecExpr::Folded { inner: Box::new(SpecExpr::Call { type_, target, params: ps }) }
            } else {
                SpecExpr::Call { type_, target, params: ps }
            }
        } else {
            e
        },
        _ => e,
    }
}

/// `ps` with its first `n` members folded and the others as they are.
pub open spec fn fold_args(ps: Seq<SpecExpr>, n: int) -> Seq<SpecExpr>
    decreases ps,
{
    if ps.len() == 0 {
        Seq::empty()
    } else {
        fold_args(ps.drop_last(), n).push(
            if ps.len() - 1 < n {
                optimized(ps.last())
            } else {
                ps.last()
            },
        )
    }
}

/// Each of the first `n` members of `ps` has a value known at compile time.
pub open spec fn known_prefix(ps: Seq<SpecExpr>, n: int) -> bool {
    forall|i: int| 0 <= i < n && i < ps.len() ==> is_known(#[trigger] ps[i])
}

/// What folding needs of a tree: every pure call it visits has at least as
/// many arguments as its arity.
pub open spec fn foldable(e: SpecExpr) -> bool
    decreases e,
{
    match e {
        SpecExpr::Call { type_, params, .. } => spec_is_pure(type_) ==> {
            &&& params.len() >= spec_arity(type_)
            &&& forall|i: int| 0 <= i < spec_arity(type_) && i < params.len() ==> foldable(#[trigger] params[i])
        },
        _ => true,
    }
}

pub proof fn lemma_fold_args(ps: Seq<SpecExpr>, n: int)
    ensures
        fold_args(ps, n).len() == ps.len(),
        forall|i: int| 0 <= i < ps.len() ==> #[trigger] fold_args(ps, n)[i] == if i < n {
            optimized(ps[i])
        } else {
            ps[i]
        },
    decreases ps.len(),
{
    if ps.len() > 0 {
        lemma_fold_args(ps.drop_last(), n);
    }
}

proof fn lemma_known_prefix_push(ps: Seq<SpecExpr>, e: SpecExpr, n: int)
    ensures
        known_prefix(ps.push(e), n) == (known_prefix(ps, n) && (ps.len() < n ==> is_known(e))),
{
    if known_prefix(ps, n) && (ps.len() < n ==> is_known(e)) {
        assert forall|i: int| 0 <= i < n && i < ps.push(e).len() implies is_known(#[trigger] ps.push(e)[i]) by {
            if i < ps.len() {
                assert(ps.push(e)[i] == ps[i]);
            }
        }
    }
    if known_prefix(ps.push(e), n) {
        if ps.len() < n {
            assert(is_known(ps.push(e)[ps.len() as int]));
        }
        assert forall|i: int| 0 <= i < n && i < ps.len() implies is_known(#[trigger] ps[i]) by {
            assert(ps.push(e)[i] == ps[i]);
        }
    }
}

/// Folds the constant parts of `n` in place.
pub fn optimize(n: &mut Expr)
    requires
        foldable(old(n)@),
    ensures
        final(n)@ == optimized(old(n)@),
{
    let mut e = Expr::Constant { start: 0, end: 0 };
    std::mem::swap(n, &mut e);
    *n = optimize_node(e);
}

/// The folded form of `e`.
fn optimize_node(e: Expr) -> (r: Expr)
    requires
        foldable(e@),
    ensures
        r@ == optimized(e@),
    decreases e,
{
    let ghost e0 = e;
    match e {
        Expr::Call { type_, target, parameters } => {
            let ghost ps = parameters@;
            proof {
                lemma_views(ps);
            }
            if is_pure(type_) {
                let ar = arity(type_) as usize;
                assert(ar <= ps.len());
                let len = parameters.len();
                let mut rest = parameters;
                let mut out: Vec<Expr> = Vec::new();
                let mut known = true;
                let mut i: usize = 0;
                assert(rest@ =~= ps.skip(0));
                assert(views(out@) =~= fold_args(views(ps).take(0), ar as int));
                while i < len
                    invariant
                        rest@ == ps.skip(i as int),
                        ar == spec_arity(type_),
                        ar <= ps.len(),
                        len == ps.len(),
                        e0 == e,
                        e0 == (Expr::Call { type_, target, parameters: e0->parameters }),
                        e0->parameters@ == ps,
                        i <= ps.len(),
                        views(out@) == fold_args(views(ps).take(i as int), ar as int),
                        known == known_prefix(views(out@), ar as int),
                        forall|j: int| 0 <= j < ar ==> foldable(#[trigger] views(ps)[j]),
                        views(ps).len() == ps.len(),
                        forall|j: int| 0 <= j < ps.len() ==> #[trigger] views(ps)[j] == ps[j]@,
                    decreases len - i,
                {
                    let c = rest.remove(0);
                    assert(c == ps[i as int]);
                    assert(views(ps)[i as int] == c@);
                    let c2 = if i < ar {
                        assert(decreases_to!(e0 => c));
                        let c2 = optimize_node(c);
                        let c2_known = match c2 {
                            Expr::Constant { .. } | Expr::Folded { .. } => true,
                            _ => false,
                        };
                        assert(c2_known == is_known(c2@));
                        if !c2_known {
                            known = false;
                        }
                        c2
                    } else {
                        c
                    };
                    proof {
                        lemma_views_push(out@, c2);
                        assert(views(ps).take(i + 1).drop_last() =~= views(ps).take(i as int));
                        lemma_views(out@.push(c2));
                        lemma_views(out@);
                        assert(views(out@.push(c2)) =~= views(out@).push(c2@));
                        lemma_fold_args(views(ps).take(i as int), ar as int);
                        lemma_known_prefix_push(views(out@), c2@, ar as int);
                    }
                    out.push(c2);
                    i = i + 1;
                    assert(rest@ =~= ps.skip(i as int));
                }
                assert(views(ps).take(ps.len() as int) =~= views(ps));
                let call = Expr::new_func(type_, target, out);
                if known {
                    Expr::Folded { inner: Box::new(call) }
                } else {
                    call
                }
            } else {
                Expr::Call { type_, target, parameters }
            }
        },
        other => other,
    }
}

} // verus!
