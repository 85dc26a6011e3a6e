//! Where a parse stops: every production reads forward, and a failure is
//! reported at the token where a base could not be read, which no enclosing
//! production reads past.
use vstd::prelude::*;
use crate::ast::{Operator, SpecExpr};
use crate::lexer::{lemma_meas_mono, lemma_meas_step, meas, tok, Src};
use crate::parser::{
    binary, error_position, is_expr_op, is_op, is_term_op, lemma_args_unfold, lemma_base_unfold,
    lemma_expr_rest_unfold, lemma_expr_unfold, lemma_factor_rest_unfold, lemma_factor_unfold,
    lemma_list_rest_unfold, lemma_list_unfold, lemma_not_end, lemma_power_signs_unfold,
    lemma_power_unfold, lemma_term_rest_unfold, lemma_term_unfold, spec_args, spec_base,
    spec_expr, spec_expr_rest, spec_factor, spec_factor_rest, spec_list, spec_list_rest,
    spec_parse, spec_power, spec_power_signs, spec_term, spec_term_rest, target_of, Parse,
};
use crate::token::{TE_FLAG_PURE, TE_FUNCTION2, TOK_END, TOK_SEP};

verus! {

/// Some base, starting at or before token `j`, fails at token `j`.
pub open spec fn base_fails_at(src: Src, j: nat) -> bool {
    exists|i: nat| i <= j && #[trigger] spec_base(src, i) == Err::<(SpecExpr, nat), nat>(j)
}

/// A result of parsing from token `k` that reads forward: a success ends
/// after `k` (at or after it when `strict` is false), and a failure is at or
/// after `k`, at a token where a base failed.
pub open spec fn reads_forward(src: Src, p: Parse, k: nat, strict: bool) -> bool {
    match p {
        Ok((_, k2)) => if strict {
            k2 > k
        } else {
            k2 >= k
        },
        Err(j) => j >= k && base_fails_at(src, j),
    }
}

/// A base or argument list reads forward (its failures are its own).
pub proof fn lemma_base_forward(src: Src, k: nat)
    ensures
        match spec_base(src, k) {
            Ok((_, k2)) => k2 > k,
            Err(j) => j >= k,
        },
    decreases meas(src, k), 0nat, 0nat,
{
    lemma_base_unfold(src, k);
    let t = tok(src, k);
    let tm = crate::token::spec_type_mask(t.type_);
    if tm == crate::token::TE_FUNCTION1 || tm == crate::token::TE_CLOSURE1 {
        lemma_not_end(src, k);
        lemma_power_forward(src, k + 1);
    } else if (crate::token::TE_FUNCTION2 <= tm <= crate::token::TE_FUNCTION7) || (
    crate::token::TE_CLOSURE2 <= tm <= crate::token::TE_CLOSURE7) {
        if tok(src, k + 1).type_ == crate::token::TOK_OPEN {
            lemma_not_end(src, k);
            lemma_args_forward(src, k + 1, crate::token::spec_arity(t.type_) as nat, seq![]);
        }
    } else if tm == crate::token::TOK_OPEN {
        lemma_not_end(src, k);
        lemma_list_forward(src, k + 1);
    }
}

pub proof fn lemma_args_forward(src: Src, k: nat, n: nat, acc: Seq<SpecExpr>)
    ensures
        match spec_args(src, k, n, acc) {
            Ok((_, k2)) => k2 > k,
            Err(j) => j >= k,
        },
    decreases meas(src, k), 11nat, n,
{
    lemma_args_unfold(src, k, n, acc);
    if n > 0 {
        lemma_meas_step(src, k);
        lemma_expr_forward(src, k + 1);
        if let Ok((e, k2)) = spec_expr(src, k + 1) {
            if k2 > k {
                lemma_meas_mono(src, k, k2);
                lemma_args_forward(src, k2, (n - 1) as nat, acc.push(e));
            }
        }
    }
}

/// The failure of a base that starts at `i` is at a token where a base failed.
proof fn lemma_base_fails(src: Src, i: nat)
    ensures
        reads_forward(src, spec_base(src, i), i, true),
    decreases meas(src, i), 0nat, 1nat,
{
    lemma_base_forward(src, i);
    if let Err(j) = spec_base(src, i) {
        assert(spec_base(src, i) == Err::<(SpecExpr, nat), nat>(j));
    }
}

pub proof fn lemma_power_signs_forward(src: Src, k: nat, negative: bool)
    ensures
        reads_forward(src, spec_power_signs(src, k, negative), k, true),
    decreases meas(src, k), 1nat, 0nat,
{
    lemma_power_signs_unfold(src, k, negative);
    let t = tok(src, k);
    if is_op(t, Operator::Add) || is_op(t, Operator::Sub) {
        lemma_not_end(src, k);
        lemma_power_signs_forward(src, k + 1, if is_op(t, Operator::Sub) { !negative } else { negative });
    } else {
        lemma_base_fails(src, k);
    }
}

pub proof fn lemma_power_forward(src: Src, k: nat)
    ensures
        reads_forward(src, spec_power(src, k), k, true),
    decreases meas(src, k), 2nat, 0nat,
{
    lemma_power_unfold(src, k);
    lemma_power_signs_forward(src, k, false);
}

pub proof fn lemma_factor_rest_forward(src: Src, acc: SpecExpr, k: nat)
    ensures
        reads_forward(src, spec_factor_rest(src, acc, k), k, false),
    decreases meas(src, k), 3nat, 0nat,
{
    lemma_factor_rest_unfold(src, acc, k);
    if is_op(tok(src, k), Operator::Pow) {
        lemma_not_end(src, k);
        lemma_power_forward(src, k + 1);
        if let Ok((p, k2)) = spec_power(src, k + 1) {
            lemma_meas_mono(src, k + 1, k2);
            lemma_factor_rest_forward(src, binary(Operator::Pow, acc, p), k2);
        }
    }
}

pub proof fn lemma_factor_forward(src: Src, k: nat)
    ensures
        reads_forward(src, spec_factor(src, k), k, true),
    decreases meas(src, k), 4nat, 0nat,
{
    lemma_factor_unfold(src, k);
    lemma_power_forward(src, k);
    if let Ok((p, k2)) = spec_power(src, k) {
        lemma_meas_mono(src, k, k2);
        lemma_factor_rest_forward(src, p, k2);
    }
}

pub proof fn lemma_term_rest_forward(src: Src, acc: SpecExpr, k: nat)
    ensures
        reads_forward(src, spec_term_rest(src, acc, k), k, false),
    decreases meas(src, k), 5nat, 0nat,
{
    lemma_term_rest_unfold(src, acc, k);
    let t = tok(src, k);
    if is_term_op(t) {
        lemma_not_end(src, k);
        lemma_factor_forward(src, k + 1);
        if let Ok((f, k2)) = spec_factor(src, k + 1) {
            lemma_meas_mono(src, k + 1, k2);
            lemma_term_rest_forward(
                src,
                SpecExpr::Call { type_: TE_FUNCTION2 | TE_FLAG_PURE, target: target_of(t), params: seq![acc, f] },
                k2,
            );
        }
    }
}

pub proof fn lemma_term_forward(src: Src, k: nat)
    ensures
        reads_forward(src, spec_term(src, k), k, true),
    decreases meas(src, k), 6nat, 0nat,
{
    lemma_term_unfold(src, k);
    lemma_factor_forward(src, k);
    if let Ok((f, k2)) = spec_factor(src, k) {
        lemma_meas_mono(src, k, k2);
        lemma_term_rest_forward(src, f, k2);
    }
}

pub proof fn lemma_expr_rest_forward(src: Src, acc: SpecExpr, k: nat)
    ensures
        reads_forward(src, spec_expr_rest(src, acc, k), k, false),
    decreases meas(src, k), 7nat, 0nat,
{
    lemma_expr_rest_unfold(src, acc, k);
    let t = tok(src, k);
    if is_expr_op(t) {
        lemma_not_end(src, k);
        lemma_term_forward(src, k + 1);
        if let Ok((f, k2)) = spec_term(src, k + 1) {
            lemma_meas_mono(src, k + 1, k2);
            lemma_expr_rest_forward(
                src,
                SpecExpr::Call { type_: TE_FUNCTION2 | TE_FLAG_PURE, target: target_of(t), params: seq![acc, f] },
                k2,
            );
        }
    }
}

pub proof fn lemma_expr_forward(src: Src, k: nat)
    ensures
        reads_forward(src, spec_expr(src, k), k, true),
    decreases meas(src, k), 8nat, 0nat,
{
    lemma_expr_unfold(src, k);
    lemma_term_forward(src, k);
    if let Ok((f, k2)) = spec_term(src, k) {
        lemma_meas_mono(src, k, k2);
        lemma_expr_rest_forward(src, f, k2);
    }
}

pub proof fn lemma_list_rest_forward(src: Src, acc: SpecExpr, k: nat)
    ensures
        reads_forward(src, spec_list_rest(src, acc, k), k, false),
    decreases meas(src, k), 9nat, 0nat,
{
    lemma_list_rest_unfold(src, acc, k);
    if tok(src, k).type_ == TOK_SEP {
        lemma_not_end(src, k);
        lemma_expr_forward(src, k + 1);
        if let Ok((f, k2)) = spec_expr(src, k + 1) {
            lemma_meas_mono(src, k + 1, k2);
            lemma_list_rest_forward(src, binary(Operator::Comma, acc, f), k2);
        }
    }
}

pub proof fn lemma_list_forward(src: Src, k: nat)
    ensures
        reads_forward(src, spec_list(src, k), k, true),
    decreases meas(src, k), 10nat, 0nat,
{
    lemma_list_unfold(src, k);
    lemma_expr_forward(src, k);
    if let Ok((f, k2)) = spec_expr(src, k) {
        lemma_meas_mono(src, k, k2);
        lemma_list_rest_forward(src, f, k2);
    }
}

/// A failed parse stops at the token where it went wrong and reads nothing
/// after it: the position reported is the end of a token at which a base
/// could not be read (every enclosing production fails at that same token),
/// or of the first token left over after a complete expression.
pub proof fn law_failure_stops_at_failing_token(src: Src)
    ensures
        spec_parse(src) matches Err(c) ==> exists|j: nat|
            c == error_position(src, j) && (base_fails_at(src, j) || (spec_list(src, 0) matches Ok((
                _,
                k,
            )) && k == j && tok(src, j).type_ != TOK_END)),
{
    lemma_list_forward(src, 0);
    match spec_list(src, 0) {
        Ok((e, k)) => {
            if tok(src, k).type_ != TOK_END {
                assert(spec_parse(src) == Err::<SpecExpr, i32>(error_position(src, k)));
            }
        },
        Err(j) => {
            assert(spec_parse(src) == Err::<SpecExpr, i32>(error_position(src, j)));
        },
    }
}

} // verus!
