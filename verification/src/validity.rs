//! What every compiled tree satisfies: each call has exactly as many
//! arguments as its arity and calls something of its own type, each
//! variable reads a binding of variable kind, and each constant is the text
//! of a numeric literal of the expression.
use vstd::prelude::*;
use crate::ast::{Operator, SpecExpr, Target};
use crate::functions::{builtin_spec_type, BUILTIN_COUNT};
use crate::lexer::{number_literal, lemma_meas_mono, lemma_tok_ok, meas, tok, token_ok, Src};
use crate::optimizer::{fold_args, foldable, lemma_fold_args, optimized};
use crate::parser::{
    binary, is_expr_op, is_op, is_term_op, lemma_args_unfold, lemma_base_unfold,
    lemma_expr_rest_unfold, lemma_expr_unfold, lemma_factor_rest_unfold, lemma_factor_unfold,
    lemma_list_rest_unfold, lemma_list_unfold, lemma_not_end, lemma_power_signs_unfold,
    lemma_power_unfold, lemma_term_rest_unfold, lemma_term_unfold, spec_args, spec_base,
    spec_expr, spec_expr_rest, spec_factor, spec_factor_rest, spec_list, spec_list_rest,
    spec_parse, spec_power, spec_power_signs, spec_term, spec_term_rest, target_of,
};
use crate::token::{
    lemma_callable_kind, lemma_operator_types, lemma_token_masks, spec_arity, spec_type_mask,
    TE_CLOSURE0, TE_CLOSURE1, TE_CLOSURE2, TE_CLOSURE7, TE_FLAG_PURE, TE_FUNCTION0, TE_FUNCTION1,
    TE_FUNCTION2, TE_FUNCTION7, TE_VARIABLE, TOK_END, TOK_NUMBER, TOK_OPEN, TOK_VARIABLE,
};

verus! {

/// A call of type `type_` may call `target`: operators have the operator
/// types, built-ins their own type, bindings the type they were given,
/// which is a function or closure type.
pub open spec fn callee_ok(src: Src, type_: i32, target: Target) -> bool {
    match target {
        Target::Op(o) => if o == Operator::Negate {
            type_ == TE_FUNCTION1 | TE_FLAG_PURE
        } else {
            type_ == TE_FUNCTION2 | TE_FLAG_PURE
        },
        Target::Builtin(j) => j < BUILTIN_COUNT && type_ == builtin_spec_type(j as int),
        Target::Lookup(i) => i < src.vars.len() && type_ == src.vars[i as int].type_ && 8
            <= spec_type_mask(type_) <= 23,
    }
}

/// `e` is a tree of the expression `src` that can be evaluated.
pub open spec fn valid_expr(src: Src, e: SpecExpr) -> bool
    decreases e,
{
    match e {
        SpecExpr::Constant { start, end } => start < end <= src.bytes.len() && number_literal(
            src.bytes.subrange(start as int, end as int),
        ),
        SpecExpr::Variable { index } => index < src.vars.len() && spec_type_mask(
            src.vars[index as int].type_,
        ) == TE_VARIABLE,
        SpecExpr::Call { type_, target, params } => {
            &&& params.len() == spec_arity(type_)
            &&& callee_ok(src, type_, target)
            &&& forall|i: int| 0 <= i < params.len() ==> valid_expr(src, #[trigger] params[i])
        },
        SpecExpr::Folded { inner } => valid_expr(src, *inner),
    }
}

/// A valid tree can be folded.
pub proof fn lemma_valid_foldable(src: Src, e: SpecExpr)
    requires
        valid_expr(src, e),
    ensures
        foldable(e),
    decreases e,
{
    if let SpecExpr::Call { type_, target, params } = e {
        assert forall|i: int| 0 <= i < spec_arity(type_) && i < params.len() implies foldable(
            #[trigger] params[i],
        ) by {
            lemma_valid_foldable(src, params[i]);
        }
    }
}

/// Folding keeps a tree valid.
pub proof fn lemma_optimized_valid(src: Src, e: SpecExpr)
    requires
        valid_expr(src, e),
    ensures
        valid_expr(src, optimized(e)),
    decreases e,
{
    if let SpecExpr::Call { type_, target, params } = e {
        if crate::token::spec_is_pure(type_) {
            let ps = fold_args(params, spec_arity(type_));
            lemma_fold_args(params, spec_arity(type_));
            assert forall|i: int| 0 <= i < ps.len() implies valid_expr(src, #[trigger] ps[i]) by {
                if i < spec_arity(type_) {
                    lemma_optimized_valid(src, params[i]);
                }
            }
            assert(valid_expr(src, SpecExpr::Call { type_, target, params: ps }));
        }
    }
}

proof fn lemma_binary_valid(src: Src, o: Operator, a: SpecExpr, b: SpecExpr)
    requires
        o != Operator::Negate,
        valid_expr(src, a),
        valid_expr(src, b),
    ensures
        valid_expr(src, SpecExpr::Call { type_: TE_FUNCTION2 | TE_FLAG_PURE, target: Target::Op(o), params: seq![a, b] }),
{
    lemma_operator_types();
    let ps = seq![a, b];
    assert forall|i: int| 0 <= i < ps.len() implies valid_expr(src, #[trigger] ps[i]) by {}
}

proof fn lemma_base_valid(src: Src, k: nat)
    requires
        src.vars.len() <= usize::MAX,
    ensures
        spec_base(src, k) matches Ok((e, _)) ==> valid_expr(src, e),
    decreases meas(src, k), 0nat, 0nat,
{
    lemma_base_unfold(src, k);
    lemma_tok_ok(src, k);
    lemma_token_masks();
    let t = tok(src, k);
    let tm = spec_type_mask(t.type_);
    if 8 <= tm <= 23 {
        lemma_callable_kind(t.type_);
        crate::token::lemma_callable_not_token(t.type_);
        assert(8i32 & 7 == 0 && 16i32 & 7 == 0 && 9i32 & 7 == 1 && 17i32 & 7 == 1) by (bit_vector);
    }
    if tm == TE_FUNCTION0 || tm == TE_CLOSURE0 {
        let ps = Seq::<SpecExpr>::empty();
        assert(ps.len() == spec_arity(t.type_));
    } else if tm == TE_FUNCTION1 || tm == TE_CLOSURE1 {
        lemma_not_end(src, k);
        lemma_power_valid(src, k + 1);
        if let Ok((p, _)) = spec_power(src, k + 1) {
            let ps = seq![p];
            assert forall|i: int| 0 <= i < ps.len() implies valid_expr(src, #[trigger] ps[i]) by {}
        }
    } else if (TE_FUNCTION2 <= tm <= TE_FUNCTION7) || (TE_CLOSURE2 <= tm <= TE_CLOSURE7) {
        if tok(src, k + 1).type_ == TOK_OPEN {
            lemma_not_end(src, k);
            lemma_args_valid(src, k + 1, spec_arity(t.type_) as nat, seq![]);
        }
    } else if tm == TOK_OPEN {
        lemma_not_end(src, k);
        lemma_list_valid(src, k + 1);
    }
}

proof fn lemma_args_valid(src: Src, k: nat, n: nat, acc: Seq<SpecExpr>)
    requires
        src.vars.len() <= usize::MAX,
        forall|i: int| 0 <= i < acc.len() ==> valid_expr(src, #[trigger] acc[i]),
    ensures
        spec_args(src, k, n, acc) matches Ok((ps, _)) ==> ps.len() == acc.len() + n && forall|i: int|
            0 <= i < ps.len() ==> valid_expr(src, #[trigger] ps[i]),
    decreases meas(src, k), 11nat, n,
{
    lemma_args_unfold(src, k, n, acc);
    if n > 0 {
        crate::lexer::lemma_meas_step(src, k);
        lemma_expr_valid(src, k + 1);
        if let Ok((e, k2)) = spec_expr(src, k + 1) {
            if k2 > k {
                lemma_meas_mono(src, k, k2);
                let acc2 = acc.push(e);
                assert forall|i: int| 0 <= i < acc2.len() implies valid_expr(src, #[trigger] acc2[i]) by {
                    if i < acc.len() {
                        assert(acc2[i] == acc[i]);
                    }
                }
                lemma_args_valid(src, k2, (n - 1) as nat, acc2);
            }
        }
    }
}

proof fn lemma_power_valid(src: Src, k: nat)
    requires
        src.vars.len() <= usize::MAX,
    ensures
        spec_power(src, k) matches Ok((e, _)) ==> valid_expr(src, e),
    decreases meas(src, k), 2nat, 0nat,
{
    lemma_power_unfold(src, k);
    lemma_power_signs_valid(src, k, false);
}

proof fn lemma_power_signs_valid(src: Src, k: nat, negative: bool)
    requires
        src.vars.len() <= usize::MAX,
    ensures
        spec_power_signs(src, k, negative) matches Ok((e, _)) ==> valid_expr(src, e),
    decreases meas(src, k), 1nat, 0nat,
{
    lemma_power_signs_unfold(src, k, negative);
    let t = tok(src, k);
    if is_op(t, Operator::Add) || is_op(t, Operator::Sub) {
        lemma_not_end(src, k);
        lemma_power_signs_valid(src, k + 1, if is_op(t, Operator::Sub) { !negative } else { negative });
    } else {
        lemma_base_valid(src, k);
        if let Ok((b, _)) = spec_base(src, k) {
            lemma_operator_types();
            let ps = seq![b];
            assert forall|i: int| 0 <= i < ps.len() implies valid_expr(src, #[trigger] ps[i]) by {}
        }
    }
}

proof fn lemma_factor_rest_valid(src: Src, acc: SpecExpr, k: nat)
    requires
        src.vars.len() <= usize::MAX,
        valid_expr(src, acc),
    ensures
        spec_factor_rest(src, acc, k) matches Ok((e, _)) ==> valid_expr(src, e),
    decreases meas(src, k), 3nat, 0nat,
{
    lemma_factor_rest_unfold(src, acc, k);
    if is_op(tok(src, k), Operator::Pow) {
        lemma_not_end(src, k);
        lemma_power_valid(src, k + 1);
        if let Ok((p, k2)) = spec_power(src, k + 1) {
            if k2 > k {
                lemma_meas_mono(src, k + 1, k2);
                lemma_binary_valid(src, Operator::Pow, acc, p);
                lemma_factor_rest_valid(src, binary(Operator::Pow, acc, p), k2);
            }
        }
    }
}

proof fn lemma_factor_valid(src: Src, k: nat)
    requires
        src.vars.len() <= usize::MAX,
    ensures
        spec_factor(src, k) matches Ok((e, _)) ==> valid_expr(src, e),
    decreases meas(src, k), 4nat, 0nat,
{
    lemma_factor_unfold(src, k);
    lemma_power_valid(src, k);
    if let Ok((p, k2)) = spec_power(src, k) {
        if k2 >= k {
            lemma_meas_mono(src, k, k2);
            lemma_factor_rest_valid(src, p, k2);
        }
    }
}

proof fn lemma_term_rest_valid(src: Src, acc: SpecExpr, k: nat)
    requires
        src.vars.len() <= usize::MAX,
        valid_expr(src, acc),
    ensures
        spec_term_rest(src, acc, k) matches Ok((e, _)) ==> valid_expr(src, e),
    decreases meas(src, k), 5nat, 0nat,
{
    lemma_term_rest_unfold(src, acc, k);
    let t = tok(src, k);
    if is_term_op(t) {
        lemma_not_end(src, k);
        lemma_factor_valid(src, k + 1);
        if let Ok((f, k2)) = spec_factor(src, k + 1) {
            if k2 > k {
                lemma_meas_mono(src, k + 1, k2);
                if let Target::Op(o) = target_of(t) {
                    lemma_binary_valid(src, o, acc, f);
                }
                lemma_term_rest_valid(
                    src,
                    SpecExpr::Call { type_: TE_FUNCTION2 | TE_FLAG_PURE, target: target_of(t), params: seq![acc, f] },
                    k2,
                );
            }
        }
    }
}

proof fn lemma_term_valid(src: Src, k: nat)
    requires
        src.vars.len() <= usize::MAX,
    ensures
        spec_term(src, k) matches Ok((e, _)) ==> valid_expr(src, e),
    decreases meas(src, k), 6nat, 0nat,
{
    lemma_term_unfold(src, k);
    lemma_factor_valid(src, k);
    if let Ok((f, k2)) = spec_factor(src, k) {
        if k2 >= k {
            lemma_meas_mono(src, k, k2);
            lemma_term_rest_valid(src, f, k2);
        }
    }
}

proof fn lemma_expr_rest_valid(src: Src, acc: SpecExpr, k: nat)
    requires
        src.vars.len() <= usize::MAX,
        valid_expr(src, acc),
    ensures
        spec_expr_rest(src, acc, k) matches Ok((e, _)) ==> valid_expr(src, e),
    decreases meas(src, k), 7nat, 0nat,
{
    lemma_expr_rest_unfold(src, acc, k);
    let t = tok(src, k);
    if is_expr_op(t) {
        lemma_not_end(src, k);
        lemma_term_valid(src, k + 1);
        if let Ok((f, k2)) = spec_term(src, k + 1) {
            if k2 > k {
                lemma_meas_mono(src, k + 1, k2);
                if let Target::Op(o) = target_of(t) {
                    lemma_binary_valid(src, o, acc, f);
                }
                lemma_expr_rest_valid(
                    src,
                    SpecExpr::Call { type_: TE_FUNCTION2 | TE_FLAG_PURE, target: target_of(t), params: seq![acc, f] },
                    k2,
                );
            }
        }
    }
}

proof fn lemma_expr_valid(src: Src, k: nat)
    requires
        src.vars.len() <= usize::MAX,
    ensures
        spec_expr(src, k) matches Ok((e, _)) ==> valid_expr(src, e),
    decreases meas(src, k), 8nat, 0nat,
{
    lemma_expr_unfold(src, k);
    lemma_term_valid(src, k);
    if let Ok((f, k2)) = spec_term(src, k) {
        if k2 >= k {
            lemma_meas_mono(src, k, k2);
            lemma_expr_rest_valid(src, f, k2);
        }
    }
}

proof fn lemma_list_rest_valid(src: Src, acc: SpecExpr, k: nat)
    requires
        src.vars.len() <= usize::MAX,
        valid_expr(src, acc),
    ensures
        spec_list_rest(src, acc, k) matches Ok((e, _)) ==> valid_expr(src, e),
    decreases meas(src, k), 9nat, 0nat,
{
    lemma_list_rest_unfold(src, acc, k);
    if tok(src, k).type_ == crate::token::TOK_SEP {
        lemma_not_end(src, k);
        lemma_expr_valid(src, k + 1);
        if let Ok((f, k2)) = spec_expr(src, k + 1) {
            if k2 > k {
                lemma_meas_mono(src, k + 1, k2);
                lemma_binary_valid(src, Operator::Comma, acc, f);
                lemma_list_rest_valid(src, binary(Operator::Comma, acc, f), k2);
            }
        }
    }
}

proof fn lemma_list_valid(src: Src, k: nat)
    requires
        src.vars.len() <= usize::MAX,
    ensures
        spec_list(src, k) matches Ok((e, _)) ==> valid_expr(src, e),
    decreases meas(src, k), 10nat, 0nat,
{
    lemma_list_unfold(src, k);
    lemma_expr_valid(src, k);
    if let Ok((f, k2)) = spec_expr(src, k) {
        if k2 >= k {
            lemma_meas_mono(src, k, k2);
            lemma_list_rest_valid(src, f, k2);
        }
    }
}

/// Every tree the parser returns is valid.
pub proof fn lemma_parse_valid(src: Src)
    requires
        src.vars.len() <= usize::MAX,
    ensures
        spec_parse(src) matches Ok(e) ==> valid_expr(src, e),
{
    lemma_list_valid(src, 0);
}

} // verus!
