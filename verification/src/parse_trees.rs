//! The parser builds trees without folded nodes, so every folded node of a
//! compiled tree comes from folding.
use vstd::prelude::*;
use crate::ast::{Operator, SpecExpr};
use crate::lexer::{lemma_meas_mono, lemma_meas_step, meas, tok, Src};
use crate::parser::{
    binary, is_expr_op, is_op, is_term_op, lemma_args_unfold, lemma_base_unfold,
    lemma_expr_rest_unfold, lemma_expr_unfold, lemma_factor_rest_unfold, lemma_factor_unfold,
    lemma_list_rest_unfold, lemma_list_unfold, lemma_not_end, lemma_power_signs_unfold,
    lemma_power_unfold, lemma_term_rest_unfold, lemma_term_unfold, spec_args, spec_base,
    spec_expr, spec_expr_rest, spec_factor, spec_factor_rest, spec_list, spec_list_rest,
    spec_parse, spec_power, spec_power_signs, spec_term, spec_term_rest, target_of,
};
use crate::token::{TE_FLAG_PURE, TE_FUNCTION2, TOK_SEP};

verus! {

/// A tree with no folded node.
pub open spec fn plain(e: SpecExpr) -> bool
    decreases e,
{
    match e {
        SpecExpr::Folded { .. } => false,
        SpecExpr::Call { params, .. } => forall|i: int| 0 <= i < params.len() ==> plain(#[trigger] params[i]),
        _ => true,
    }
}

pub open spec fn all_plain(ps: Seq<SpecExpr>) -> bool {
    forall|i: int| 0 <= i < ps.len() ==> plain(#[trigger] ps[i])
}

proof fn lemma_base_plain(src: Src, k: nat)
    ensures
        spec_base(src, k) matches Ok((e, _)) ==> plain(e),
    decreases meas(src, k), 0nat, 0nat,
{
    lemma_base_unfold(src, k);
    let t = tok(src, k);
    let tm = crate::token::spec_type_mask(t.type_);
    if tm == crate::token::TE_FUNCTION1 || tm == crate::token::TE_CLOSURE1 {
        lemma_not_end(src, k);
        lemma_power_plain(src, k + 1);
        if let Ok((p, _)) = spec_power(src, k + 1) {
            assert(seq![p][0] == p);
        }
    } else if (crate::token::TE_FUNCTION2 <= tm <= crate::token::TE_FUNCTION7) || (
    crate::token::TE_CLOSURE2 <= tm <= crate::token::TE_CLOSURE7) {
        if tok(src, k + 1).type_ == crate::token::TOK_OPEN {
            lemma_not_end(src, k);
            lemma_args_plain(src, k + 1, crate::token::spec_arity(t.type_) as nat, seq![]);
        }
    } else if tm == crate::token::TOK_OPEN {
        lemma_not_end(src, k);
        lemma_list_plain(src, k + 1);
    }
}

proof fn lemma_args_plain(src: Src, k: nat, n: nat, acc: Seq<SpecExpr>)
    requires
        all_plain(acc),
    ensures
        spec_args(src, k, n, acc) matches Ok((ps, _)) ==> all_plain(ps),
    decreases meas(src, k), 11nat, n,
{
    lemma_args_unfold(src, k, n, acc);
    if n > 0 {
        lemma_meas_step(src, k);
        lemma_expr_plain(src, k + 1);
        if let Ok((e, k2)) = spec_expr(src, k + 1) {
            if k2 > k {
                lemma_meas_mono(src, k, k2);
                assert forall|i: int| 0 <= i < acc.push(e).len() implies plain(#[trigger] acc.push(e)[i]) by {
                    if i < acc.len() {
                        assert(acc.push(e)[i] == acc[i]);
                    }
                }
                lemma_args_plain(src, k2, (n - 1) as nat, acc.push(e));
            }
        }
    }
}

proof fn lemma_power_signs_plain(src: Src, k: nat, negative: bool)
    ensures
        spec_power_signs(src, k, negative) matches Ok((e, _)) ==> plain(e),
    decreases meas(src, k), 1nat, 0nat,
{
    lemma_power_signs_unfold(src, k, negative);
    let t = tok(src, k);
    if is_op(t, Operator::Add) || is_op(t, Operator::Sub) {
        lemma_not_end(src, k);
        lemma_power_signs_plain(src, k + 1, if is_op(t, Operator::Sub) { !negative } else { negative });
    } else {
        lemma_base_plain(src, k);
        if let Ok((b, _)) = spec_base(src, k) {
            assert(seq![b][0] == b);
        }
    }
}

proof fn lemma_power_plain(src: Src, k: nat)
    ensures
        spec_power(src, k) matches Ok((e, _)) ==> plain(e),
    decreases meas(src, k), 2nat, 0nat,
{
    lemma_power_unfold(src, k);
    lemma_power_signs_plain(src, k, false);
}

proof fn lemma_pair_plain(a: SpecExpr, b: SpecExpr)
    requires
        plain(a),
        plain(b),
    ensures
        all_plain(seq![a, b]),
{
    assert(seq![a, b][0] == a && seq![a, b][1] == b);
}

proof fn lemma_factor_rest_plain(src: Src, acc: SpecExpr, k: nat)
    requires
        plain(acc),
    ensures
        spec_factor_rest(src, acc, k) matches Ok((e, _)) ==> plain(e),
    decreases meas(src, k), 3nat, 0nat,
{
    lemma_factor_rest_unfold(src, acc, k);
    if is_op(tok(src, k), Operator::Pow) {
        lemma_not_end(src, k);
        lemma_power_plain(src, k + 1);
        if let Ok((p, k2)) = spec_power(src, k + 1) {
            if k2 > k {
                lemma_meas_mono(src, k + 1, k2);
                lemma_pair_plain(acc, p);
                lemma_factor_rest_plain(src, binary(Operator::Pow, acc, p), k2);
            }
        }
    }
}

proof fn lemma_factor_plain(src: Src, k: nat)
    ensures
        spec_factor(src, k) matches Ok((e, _)) ==> plain(e),
    decreases meas(src, k), 4nat, 0nat,
{
    lemma_factor_unfold(src, k);
    lemma_power_plain(src, k);
    if let Ok((p, k2)) = spec_power(src, k) {
        if k2 >= k {
            lemma_meas_mono(src, k, k2);
            lemma_factor_rest_plain(src, p, k2);
        }
    }
}

proof fn lemma_term_rest_plain(src: Src, acc: SpecExpr, k: nat)
    requires
        plain(acc),
    ensures
        spec_term_rest(src, acc, k) matches Ok((e, _)) ==> plain(e),
    decreases meas(src, k), 5nat, 0nat,
{
    lemma_term_rest_unfold(src, acc, k);
    let t = tok(src, k);
    if is_term_op(t) {
        lemma_not_end(src, k);
        lemma_factor_plain(src, k + 1);
        if let Ok((f, k2)) = spec_factor(src, k + 1) {
            if k2 > k {
                lemma_meas_mono(src, k + 1, k2);
                lemma_pair_plain(acc, f);
                lemma_term_rest_plain(
                    src,
                    SpecExpr::Call { type_: TE_FUNCTION2 | TE_FLAG_PURE, target: target_of(t), params: seq![acc, f] },
                    k2,
                );
            }
        }
    }
}

proof fn lemma_term_plain(src: Src, k: nat)
    ensures
        spec_term(src, k) matches Ok((e, _)) ==> plain(e),
    decreases meas(src, k), 6nat, 0nat,
{
    lemma_term_unfold(src, k);
    lemma_factor_plain(src, k);
    if let Ok((f, k2)) = spec_factor(src, k) {
        if k2 >= k {
            lemma_meas_mono(src, k, k2);
            lemma_term_rest_plain(src, f, k2);
        }
    }
}

proof fn lemma_expr_rest_plain(src: Src, acc: SpecExpr, k: nat)
    requires
        plain(acc),
    ensures
        spec_expr_rest(src, acc, k) matches Ok((e, _)) ==> plain(e),
    decreases meas(src, k), 7nat, 0nat,
{
    lemma_expr_rest_unfold(src, acc, k);
    let t = tok(src, k);
    if is_expr_op(t) {
        lemma_not_end(src, k);
        lemma_term_plain(src, k + 1);
        if let Ok((f, k2)) = spec_term(src, k + 1) {
            if k2 > k {
                lemma_meas_mono(src, k + 1, k2);
                lemma_pair_plain(acc, f);
                lemma_expr_rest_plain(
                    src,
                    SpecExpr::Call { type_: TE_FUNCTION2 | TE_FLAG_PURE, target: target_of(t), params: seq![acc, f] },
                    k2,
                );
            }
        }
    }
}

proof fn lemma_expr_plain(src: Src, k: nat)
    ensures
        spec_expr(src, k) matches Ok((e, _)) ==> plain(e),
    decreases meas(src, k), 8nat, 0nat,
{
    lemma_expr_unfold(src, k);
    lemma_term_plain(src, k);
    if let Ok((f, k2)) = spec_term(src, k) {
        if k2 >= k {
            lemma_meas_mono(src, k, k2);
            lemma_expr_rest_plain(src, f, k2);
        }
    }
}

proof fn lemma_list_rest_plain(src: Src, acc: SpecExpr, k: nat)
    requires
        plain(acc),
    ensures
        spec_list_rest(src, acc, k) matches Ok((e, _)) ==> plain(e),
    decreases meas(src, k), 9nat, 0nat,
{
    lemma_list_rest_unfold(src, acc, k);
    if tok(src, k).type_ == TOK_SEP {
        lemma_not_end(src, k);
        lemma_expr_plain(src, k + 1);
        if let Ok((f, k2)) = spec_expr(src, k + 1) {
            if k2 > k {
                lemma_meas_mono(src, k + 1, k2);
                lemma_pair_plain(acc, f);
                lemma_list_rest_plain(src, binary(Operator::Comma, acc, f), k2);
            }
        }
    }
}

proof fn lemma_list_plain(src: Src, k: nat)
    ensures
        spec_list(src, k) matches Ok((e, _)) ==> plain(e),
    decreases meas(src, k), 10nat, 0nat,
{
    lemma_list_unfold(src, k);
    lemma_expr_plain(src, k);
    if let Ok((f, k2)) = spec_expr(src, k) {
        if k2 >= k {
            lemma_meas_mono(src, k, k2);
            lemma_list_rest_plain(src, f, k2);
        }
    }
}

/// A tree without folded nodes has no folded node that is not closed.
proof fn lemma_plain_folds_closed(e: SpecExpr)
    requires
        plain(e),
    ensures
        crate::laws::folds_closed(e),
    decreases e,
{
    if let SpecExpr::Call { params, .. } = e {
        assert forall|i: int| 0 <= i < params.len() implies crate::laws::folds_closed(#[trigger] params[i]) by {
            lemma_plain_folds_closed(params[i]);
        }
    }
}

/// The parser builds no folded node.
pub proof fn lemma_parse_plain(src: Src)
    ensures
        spec_parse(src) matches Ok(e) ==> plain(e) && crate::laws::folds_closed(e),
{
    lemma_list_plain(src, 0);
    if let Ok(e) = spec_parse(src) {
        lemma_plain_folds_closed(e);
    }
}

} // verus!
