//! The language the compiler accepts, as a grammar over the tokens of the
//! expression: a token range derives a nonterminal when one of its
//! alternatives splits the range accordingly.
//!
//! ```text
//! list   = expr {"," expr}
//! expr   = term {("+" | "-") term}
//! term   = factor {("*" | "/" | "%") factor}
//! factor = power {"^" power}
//! power  = {("-" | "+")} base
//! base   = constant | variable | function0 ["(" ")"] | function1 power
//!        | functionN "(" expr {"," expr} ")"   (exactly N arguments)
//!        | "(" list ")"
//! ```
//!
//! Names are resolved by the tokenizer (the caller's bindings first, then
//! the built-ins), so a name that resolves to nothing, or to a binding of
//! another kind, is a token that no rule accepts.
use vstd::prelude::*;
use crate::ast::{Operator, SpecExpr};
use crate::failure::{
    lemma_args_forward, lemma_base_forward, lemma_expr_forward, lemma_expr_rest_forward,
    lemma_factor_forward, lemma_factor_rest_forward, lemma_list_forward, lemma_list_rest_forward,
    lemma_power_forward, lemma_power_signs_forward, lemma_term_forward, lemma_term_rest_forward,
};
use crate::lexer::{lemma_meas_mono, lemma_meas_step, meas, tok, SpecTok, Src};
use crate::parser::{
    binary, is_expr_op, is_op, is_term_op, lemma_args_unfold, lemma_base_unfold,
    lemma_expr_rest_unfold, lemma_expr_unfold, lemma_factor_rest_unfold, lemma_factor_unfold,
    lemma_list_rest_unfold, lemma_list_unfold, lemma_not_end, lemma_power_signs_unfold,
    lemma_power_unfold, lemma_term_rest_unfold, lemma_term_unfold, spec_args, spec_base,
    spec_expr, spec_expr_rest, spec_factor, spec_factor_rest, spec_list, spec_list_rest,
    spec_parse, spec_power, spec_power_signs, spec_term, spec_term_rest, target_of,
};
use crate::token::{TE_FLAG_PURE, TOK_INFIX};
use crate::token::{
    spec_arity, spec_type_mask, TE_CLOSURE0, TE_CLOSURE1, TE_CLOSURE2, TE_CLOSURE7, TE_FUNCTION0,
    TE_FUNCTION1, TE_FUNCTION2, TE_FUNCTION7, TOK_CLOSE, TOK_END, TOK_NUMBER, TOK_OPEN, TOK_SEP,
    TOK_VARIABLE,
};

verus! {

/// Token `i` of the expression.
pub open spec fn tk(src: Src, i: int) -> SpecTok {
    tok(src, i as nat)
}

/// A position at which a token range is split between two parts of a rule.
pub open spec fn split_point(m: int) -> bool {
    0 <= m
}

/// Tokens `i..j` derive a base.
pub open spec fn derives_base(src: Src, i: int, j: int) -> bool
    decreases j - i, 0int,
{
    let t = tk(src, i);
    let tm = spec_type_mask(t.type_);
    &&& 0 <= i < j
    &&& {
        ||| (tm == TOK_NUMBER || tm == TOK_VARIABLE) && j == i + 1
        ||| (tm == TE_FUNCTION0 || tm == TE_CLOSURE0) && (j == i + 1 || (j == i + 3 && tk(src, i + 1).type_
            == TOK_OPEN && tk(src, i + 2).type_ == TOK_CLOSE))
        ||| (tm == TE_FUNCTION1 || tm == TE_CLOSURE1) && derives_power(src, i + 1, j)
        ||| ((TE_FUNCTION2 <= tm <= TE_FUNCTION7) || (TE_CLOSURE2 <= tm <= TE_CLOSURE7)) && i + 1 < j - 1
            && tk(src, i + 1).type_ == TOK_OPEN && tk(src, j - 1).type_ == TOK_CLOSE && derives_args(
            src,
            i + 2,
            j - 1,
            spec_arity(t.type_),
        )
        ||| tm == TOK_OPEN && i + 1 < j - 1 && tk(src, j - 1).type_ == TOK_CLOSE && derives_list(
            src,
            i + 1,
            j - 1,
        )
    }
}

/// Tokens `i..j` derive `n` exprs separated by commas.
pub open spec fn derives_args(src: Src, i: int, j: int, n: int) -> bool
    decreases j - i, 10int,
{
    &&& 0 <= i < j
    &&& n >= 1
    &&& if n == 1 {
        derives_expr(src, i, j)
    } else {
        exists|m: int|
            #[trigger] split_point(m) && i < m < j - 1 && derives_expr(src, i, m) && tk(src, m).type_ == TOK_SEP
                && derives_args(src, m + 1, j, n - 1)
    }
}

/// Whether token `i` is a sign: `+` or `-`.
pub open spec fn sign_at(src: Src, i: int) -> bool {
    is_op(tk(src, i), Operator::Add) || is_op(tk(src, i), Operator::Sub)
}

/// Tokens `i..j` derive a power.
pub open spec fn derives_power(src: Src, i: int, j: int) -> bool
    decreases j - i, 1int,
{
    &&& 0 <= i < j
    &&& (derives_base(src, i, j) || (sign_at(src, i) && derives_power(src, i + 1, j)))
}

/// Tokens `m..j` derive `{"^" power}`.
pub open spec fn factor_tail(src: Src, m: int, j: int) -> bool
    decreases j - m, 2int,
{
    &&& 0 <= m <= j
    &&& m == j || (is_op(tk(src, m), Operator::Pow) && exists|m2: int|
        #[trigger] split_point(m2) && m + 1 < m2 <= j && derives_power(src, m + 1, m2) && factor_tail(src, m2, j))
}

/// Tokens `i..j` derive a factor.
pub open spec fn derives_factor(src: Src, i: int, j: int) -> bool
    decreases j - i, 3int,
{
    &&& 0 <= i < j
    &&& exists|m: int| #[trigger] split_point(m) && i < m <= j && derives_power(src, i, m) && factor_tail(src, m, j)
}

/// Tokens `m..j` derive `{("*" | "/" | "%") factor}`.
pub open spec fn term_tail(src: Src, m: int, j: int) -> bool
    decreases j - m, 4int,
{
    &&& 0 <= m <= j
    &&& m == j || (is_term_op(tk(src, m)) && exists|m2: int|
        #[trigger] split_point(m2) && m + 1 < m2 <= j && derives_factor(src, m + 1, m2) && term_tail(src, m2, j))
}

/// Tokens `i..j` derive a term.
pub open spec fn derives_term(src: Src, i: int, j: int) -> bool
    decreases j - i, 5int,
{
    &&& 0 <= i < j
    &&& exists|m: int| #[trigger] split_point(m) && i < m <= j && derives_factor(src, i, m) && term_tail(src, m, j)
}

/// Tokens `m..j` derive `{("+" | "-") term}`.
pub open spec fn expr_tail(src: Src, m: int, j: int) -> bool
    decreases j - m, 6int,
{
    &&& 0 <= m <= j
    &&& m == j || (is_expr_op(tk(src, m)) && exists|m2: int|
        #[trigger] split_point(m2) && m + 1 < m2 <= j && derives_term(src, m + 1, m2) && expr_tail(src, m2, j))
}

/// Tokens `i..j` derive an expr.
pub open spec fn derives_expr(src: Src, i: int, j: int) -> bool
    decreases j - i, 7int,
{
    &&& 0 <= i < j
    &&& exists|m: int| #[trigger] split_point(m) && i < m <= j && derives_term(src, i, m) && expr_tail(src, m, j)
}

/// Tokens `m..j` derive `{"," expr}`.
pub open spec fn list_tail(src: Src, m: int, j: int) -> bool
    decreases j - m, 8int,
{
    &&& 0 <= m <= j
    &&& m == j || (tk(src, m).type_ == TOK_SEP && exists|m2: int|
        #[trigger] split_point(m2) && m + 1 < m2 <= j && derives_expr(src, m + 1, m2) && list_tail(src, m2, j))
}

/// Tokens `i..j` derive a list.
pub open spec fn derives_list(src: Src, i: int, j: int) -> bool
    decreases j - i, 9int,
{
    &&& 0 <= i < j
    &&& exists|m: int| #[trigger] split_point(m) && i < m <= j && derives_expr(src, i, m) && list_tail(src, m, j)
}

/// The whole expression derives a list: its tokens up to the end do.
pub open spec fn in_language(src: Src) -> bool {
    exists|n: int| #[trigger] split_point(n) && derives_list(src, 0, n) && tk(src, n).type_ == TOK_END
}

// Every success of the parser is a derivation of the grammar.

proof fn lemma_arity_of_call_token(t: i32)
    requires
        (TE_FUNCTION2 <= spec_type_mask(t) <= TE_FUNCTION7) || (TE_CLOSURE2 <= spec_type_mask(t)
            <= TE_CLOSURE7),
    ensures
        spec_arity(t) >= 2,
{
    crate::token::lemma_callable_kind(t);
    assert(((10 <= t & 0x1F <= 15) || (18 <= t & 0x1F <= 23)) ==> ((t & 0x1F) & 7) >= 2) by (bit_vector);
}

proof fn lemma_base_sound(src: Src, k: nat)
    ensures
        spec_base(src, k) matches Ok((_, k2)) ==> derives_base(src, k as int, k2 as int),
    decreases meas(src, k), 0nat, 0nat,
{
    lemma_base_unfold(src, k);
    lemma_base_forward(src, k);
    let t = tok(src, k);
    let tm = spec_type_mask(t.type_);
    if tm == TE_FUNCTION1 || tm == TE_CLOSURE1 {
        lemma_not_end(src, k);
        lemma_power_sound(src, k + 1);
    } else if (TE_FUNCTION2 <= tm <= TE_FUNCTION7) || (TE_CLOSURE2 <= tm <= TE_CLOSURE7) {
        if tok(src, k + 1).type_ == TOK_OPEN {
            lemma_not_end(src, k);
            lemma_arity_of_call_token(t.type_);
            lemma_args_sound(src, k + 1, spec_arity(t.type_) as nat, seq![]);
        }
    } else if tm == TOK_OPEN {
        lemma_not_end(src, k);
        lemma_list_sound(src, k + 1);
        lemma_list_forward(src, k + 1);
    }
}

proof fn lemma_args_sound(src: Src, k: nat, n: nat, acc: Seq<SpecExpr>)
    requires
        n >= 1,
    ensures
        spec_args(src, k, n, acc) matches Ok((_, k2)) ==> k2 >= 1 && tk(src, k2 - 1).type_ == TOK_CLOSE
            && derives_args(src, (k + 1) as int, k2 - 1, n as int),
    decreases meas(src, k), 11nat, n,
{
    lemma_args_unfold(src, k, n, acc);
    lemma_meas_step(src, k);
    lemma_expr_sound(src, k + 1);
    lemma_expr_forward(src, k + 1);
    if let Ok((e, m)) = spec_expr(src, k + 1) {
        if !(n > 1 && tok(src, m).type_ != TOK_SEP) && m > k {
            lemma_meas_mono(src, k, m);
            lemma_args_forward(src, m, (n - 1) as nat, acc.push(e));
            if n == 1 {
                lemma_args_unfold(src, m, 0, acc.push(e));
                assert(derives_args(src, (k + 1) as int, m as int, 1));
            } else {
                lemma_args_sound(src, m, (n - 1) as nat, acc.push(e));
                if let Ok((_, k2)) = spec_args(src, m, (n - 1) as nat, acc.push(e)) {
                    assert(split_point(m as int) && derives_expr(src, (k + 1) as int, m as int));
                    assert(derives_args(src, (k + 1) as int, k2 - 1, n as int));
                }
            }
        }
    }
}

proof fn lemma_power_signs_sound(src: Src, k: nat, negative: bool)
    ensures
        spec_power_signs(src, k, negative) matches Ok((_, k2)) ==> derives_power(src, k as int, k2 as int),
    decreases meas(src, k), 1nat, 0nat,
{
    lemma_power_signs_unfold(src, k, negative);
    let t = tok(src, k);
    if is_op(t, Operator::Add) || is_op(t, Operator::Sub) {
        lemma_not_end(src, k);
        let neg2 = if is_op(t, Operator::Sub) { !negative } else { negative };
        lemma_power_signs_sound(src, k + 1, neg2);
        lemma_power_signs_forward(src, k + 1, neg2);
    } else {
        lemma_base_sound(src, k);
    }
}

proof fn lemma_power_sound(src: Src, k: nat)
    ensures
        spec_power(src, k) matches Ok((_, k2)) ==> derives_power(src, k as int, k2 as int),
    decreases meas(src, k), 2nat, 0nat,
{
    lemma_power_unfold(src, k);
    lemma_power_signs_sound(src, k, false);
}

proof fn lemma_factor_rest_sound(src: Src, acc: SpecExpr, k: nat)
    ensures
        spec_factor_rest(src, acc, k) matches Ok((_, k2)) ==> factor_tail(src, k as int, k2 as int),
    decreases meas(src, k), 3nat, 0nat,
{
    lemma_factor_rest_unfold(src, acc, k);
    if is_op(tok(src, k), Operator::Pow) {
        lemma_not_end(src, k);
        lemma_power_sound(src, k + 1);
        lemma_power_forward(src, k + 1);
        if let Ok((p, m)) = spec_power(src, k + 1) {
            lemma_meas_mono(src, k + 1, m);
            lemma_factor_rest_sound(src, binary(Operator::Pow, acc, p), m);
            lemma_factor_rest_forward(src, binary(Operator::Pow, acc, p), m);
            if let Ok((_, k2)) = spec_factor_rest(src, binary(Operator::Pow, acc, p), m) {
                assert(split_point(m as int));
                assert(derives_power(src, (k + 1) as int, m as int) && factor_tail(src, m as int, k2 as int));
                assert(factor_tail(src, k as int, k2 as int));
            }
        }
    }
}

proof fn lemma_factor_sound(src: Src, k: nat)
    ensures
        spec_factor(src, k) matches Ok((_, k2)) ==> derives_factor(src, k as int, k2 as int),
    decreases meas(src, k), 4nat, 0nat,
{
    lemma_factor_unfold(src, k);
    lemma_power_sound(src, k);
    lemma_power_forward(src, k);
    if let Ok((p, m)) = spec_power(src, k) {
        lemma_meas_mono(src, k, m);
        lemma_factor_rest_sound(src, p, m);
        lemma_factor_rest_forward(src, p, m);
        if let Ok((_, k2)) = spec_factor_rest(src, p, m) {
            assert(split_point(m as int));
            assert(derives_power(src, k as int, m as int) && factor_tail(src, m as int, k2 as int));
                assert(derives_factor(src, k as int, k2 as int));
        }
    }
}

proof fn lemma_term_rest_sound(src: Src, acc: SpecExpr, k: nat)
    ensures
        spec_term_rest(src, acc, k) matches Ok((_, k2)) ==> term_tail(src, k as int, k2 as int),
    decreases meas(src, k), 5nat, 0nat,
{
    lemma_term_rest_unfold(src, acc, k);
    let t = tok(src, k);
    if is_term_op(t) {
        lemma_not_end(src, k);
        lemma_factor_sound(src, k + 1);
        lemma_factor_forward(src, k + 1);
        if let Ok((f, m)) = spec_factor(src, k + 1) {
            lemma_meas_mono(src, k + 1, m);
            let a2 = SpecExpr::Call { type_: TE_FUNCTION2 | TE_FLAG_PURE, target: target_of(t), params: seq![acc, f] };
            lemma_term_rest_sound(src, a2, m);
            lemma_term_rest_forward(src, a2, m);
            if let Ok((_, k2)) = spec_term_rest(src, a2, m) {
                assert(split_point(m as int));
                assert(derives_factor(src, (k + 1) as int, m as int) && term_tail(src, m as int, k2 as int));
                assert(term_tail(src, k as int, k2 as int));
            }
        }
    }
}

proof fn lemma_term_sound(src: Src, k: nat)
    ensures
        spec_term(src, k) matches Ok((_, k2)) ==> derives_term(src, k as int, k2 as int),
    decreases meas(src, k), 6nat, 0nat,
{
    lemma_term_unfold(src, k);
    lemma_factor_sound(src, k);
    lemma_factor_forward(src, k);
    if let Ok((f, m)) = spec_factor(src, k) {
        lemma_meas_mono(src, k, m);
        lemma_term_rest_sound(src, f, m);
        lemma_term_rest_forward(src, f, m);
        if let Ok((_, k2)) = spec_term_rest(src, f, m) {
            assert(split_point(m as int));
            assert(derives_factor(src, k as int, m as int) && term_tail(src, m as int, k2 as int));
                assert(derives_term(src, k as int, k2 as int));
        }
    }
}

proof fn lemma_expr_rest_sound(src: Src, acc: SpecExpr, k: nat)
    ensures
        spec_expr_rest(src, acc, k) matches Ok((_, k2)) ==> expr_tail(src, k as int, k2 as int),
    decreases meas(src, k), 7nat, 0nat,
{
    lemma_expr_rest_unfold(src, acc, k);
    let t = tok(src, k);
    if is_expr_op(t) {
        lemma_not_end(src, k);
        lemma_term_sound(src, k + 1);
        lemma_term_forward(src, k + 1);
        if let Ok((f, m)) = spec_term(src, k + 1) {
            lemma_meas_mono(src, k + 1, m);
            let a2 = SpecExpr::Call { type_: TE_FUNCTION2 | TE_FLAG_PURE, target: target_of(t), params: seq![acc, f] };
            lemma_expr_rest_sound(src, a2, m);
            lemma_expr_rest_forward(src, a2, m);
            if let Ok((_, k2)) = spec_expr_rest(src, a2, m) {
                assert(split_point(m as int));
                assert(derives_term(src, (k + 1) as int, m as int) && expr_tail(src, m as int, k2 as int));
                assert(expr_tail(src, k as int, k2 as int));
            }
        }
    }
}

proof fn lemma_expr_sound(src: Src, k: nat)
    ensures
        spec_expr(src, k) matches Ok((_, k2)) ==> derives_expr(src, k as int, k2 as int),
    decreases meas(src, k), 8nat, 0nat,
{
    lemma_expr_unfold(src, k);
    lemma_term_sound(src, k);
    lemma_term_forward(src, k);
    if let Ok((f, m)) = spec_term(src, k) {
        lemma_meas_mono(src, k, m);
        lemma_expr_rest_sound(src, f, m);
        lemma_expr_rest_forward(src, f, m);
        if let Ok((_, k2)) = spec_expr_rest(src, f, m) {
            assert(split_point(m as int));
            assert(derives_term(src, k as int, m as int) && expr_tail(src, m as int, k2 as int));
                assert(derives_expr(src, k as int, k2 as int));
        }
    }
}

proof fn lemma_list_rest_sound(src: Src, acc: SpecExpr, k: nat)
    ensures
        spec_list_rest(src, acc, k) matches Ok((_, k2)) ==> list_tail(src, k as int, k2 as int),
    decreases meas(src, k), 9nat, 0nat,
{
    lemma_list_rest_unfold(src, acc, k);
    if tok(src, k).type_ == TOK_SEP {
        lemma_not_end(src, k);
        lemma_expr_sound(src, k + 1);
        lemma_expr_forward(src, k + 1);
        if let Ok((f, m)) = spec_expr(src, k + 1) {
            lemma_meas_mono(src, k + 1, m);
            lemma_list_rest_sound(src, binary(Operator::Comma, acc, f), m);
            lemma_list_rest_forward(src, binary(Operator::Comma, acc, f), m);
            if let Ok((_, k2)) = spec_list_rest(src, binary(Operator::Comma, acc, f), m) {
                assert(split_point(m as int));
                assert(derives_expr(src, (k + 1) as int, m as int) && list_tail(src, m as int, k2 as int));
                assert(list_tail(src, k as int, k2 as int));
            }
        }
    }
}

proof fn lemma_list_sound(src: Src, k: nat)
    ensures
        spec_list(src, k) matches Ok((_, k2)) ==> derives_list(src, k as int, k2 as int),
    decreases meas(src, k), 10nat, 0nat,
{
    lemma_list_unfold(src, k);
    lemma_expr_sound(src, k);
    lemma_expr_forward(src, k);
    if let Ok((f, m)) = spec_expr(src, k) {
        lemma_meas_mono(src, k, m);
        lemma_list_rest_sound(src, f, m);
        lemma_list_rest_forward(src, f, m);
        if let Ok((_, k2)) = spec_list_rest(src, f, m) {
            assert(split_point(m as int));
            assert(derives_expr(src, k as int, m as int) && list_tail(src, m as int, k2 as int));
                assert(derives_list(src, k as int, k2 as int));
        }
    }
}


// Every derivation of the grammar is found by the parser.

/// Tokens that cannot continue a base: anything but "(".
pub open spec fn ends_base(t: SpecTok) -> bool {
    t.type_ != TOK_OPEN
}

pub open spec fn ends_factor(t: SpecTok) -> bool {
    ends_base(t) && !is_op(t, Operator::Pow)
}

pub open spec fn ends_term(t: SpecTok) -> bool {
    ends_factor(t) && !is_term_op(t)
}

pub open spec fn ends_expr(t: SpecTok) -> bool {
    ends_term(t) && !is_expr_op(t)
}

pub open spec fn ends_list(t: SpecTok) -> bool {
    ends_expr(t) && t.type_ != TOK_SEP
}

/// An operator token ends a base.
proof fn lemma_infix_ends_base(t: SpecTok)
    requires
        t.type_ == TOK_INFIX,
    ensures
        ends_base(t),
{
}

proof fn lemma_sign_is_no_base(src: Src, i: int, j: int)
    requires
        sign_at(src, i),
    ensures
        !derives_base(src, i, j),
{
    crate::token::lemma_token_masks();
}

proof fn lemma_base_complete(src: Src, i: int, j: int)
    requires
        derives_base(src, i, j),
        ends_base(tk(src, j)),
    ensures
        spec_base(src, i as nat) matches Ok((_, k2)) && k2 == j,
    decreases j - i, 0int,
{
    let k = i as nat;
    lemma_base_unfold(src, k);
    let t = tok(src, k);
    let tm = spec_type_mask(t.type_);
    if tm == TE_FUNCTION1 || tm == TE_CLOSURE1 {
        lemma_power_complete(src, i + 1, j);
    } else if (TE_FUNCTION2 <= tm <= TE_FUNCTION7) || (TE_CLOSURE2 <= tm <= TE_CLOSURE7) {
        lemma_args_complete(src, i + 1, j - 1, spec_arity(t.type_), seq![]);
    } else if tm == TOK_OPEN {
        lemma_list_complete(src, i + 1, j - 1);
    }
}

proof fn lemma_args_complete(src: Src, k: int, j: int, n: int, acc: Seq<SpecExpr>)
    requires
        k >= 0,
        derives_args(src, k + 1, j, n),
        tk(src, j).type_ == TOK_CLOSE,
    ensures
        spec_args(src, k as nat, n as nat, acc) matches Ok((_, k2)) && k2 == j + 1,
    decreases j - k - 1, 10int,
{
    lemma_args_unfold(src, k as nat, n as nat, acc);
    if n == 1 {
        lemma_expr_complete(src, k + 1, j);
        if let Ok((e, _)) = spec_expr(src, (k + 1) as nat) {
            lemma_args_unfold(src, j as nat, 0, acc.push(e));
        }
    } else {
        let m = choose|m: int|
            #[trigger] split_point(m) && k + 1 < m < j - 1 && derives_expr(src, k + 1, m) && tk(src, m).type_
                == TOK_SEP && derives_args(src, m + 1, j, n - 1);
        lemma_expr_complete(src, k + 1, m);
        if let Ok((e, _)) = spec_expr(src, (k + 1) as nat) {
            lemma_args_complete(src, m, j, n - 1, acc.push(e));
        }
    }
}

proof fn lemma_power_signs_complete(src: Src, i: int, j: int, negative: bool)
    requires
        derives_power(src, i, j),
        ends_base(tk(src, j)),
    ensures
        spec_power_signs(src, i as nat, negative) matches Ok((_, k2)) && k2 == j,
    decreases j - i, 1int,
{
    lemma_power_signs_unfold(src, i as nat, negative);
    if sign_at(src, i) {
        lemma_sign_is_no_base(src, i, j);
        let t = tk(src, i);
        lemma_power_signs_complete(src, i + 1, j, if is_op(t, Operator::Sub) { !negative } else { negative });
    } else {
        lemma_base_complete(src, i, j);
    }
}

proof fn lemma_power_complete(src: Src, i: int, j: int)
    requires
        derives_power(src, i, j),
        ends_base(tk(src, j)),
    ensures
        spec_power(src, i as nat) matches Ok((_, k2)) && k2 == j,
    decreases j - i, 2int,
{
    lemma_power_unfold(src, i as nat);
    lemma_power_signs_complete(src, i, j, false);
}

proof fn lemma_factor_tail_complete(src: Src, m: int, j: int, acc: SpecExpr)
    requires
        factor_tail(src, m, j),
        ends_factor(tk(src, j)),
    ensures
        spec_factor_rest(src, acc, m as nat) matches Ok((_, k2)) && k2 == j,
    decreases j - m, 2int,
{
    lemma_factor_rest_unfold(src, acc, m as nat);
    if m < j {
        let m2 = choose|m2: int|
            #[trigger] split_point(m2) && m + 1 < m2 <= j && derives_power(src, m + 1, m2) && factor_tail(src, m2, j);
        if m2 < j {
            lemma_infix_ends_base(tk(src, m2));
        }
        lemma_power_complete(src, m + 1, m2);
        if let Ok((p, _)) = spec_power(src, (m + 1) as nat) {
            lemma_factor_tail_complete(src, m2, j, binary(Operator::Pow, acc, p));
        }
    }
}

proof fn lemma_factor_complete(src: Src, i: int, j: int)
    requires
        derives_factor(src, i, j),
        ends_factor(tk(src, j)),
    ensures
        spec_factor(src, i as nat) matches Ok((_, k2)) && k2 == j,
    decreases j - i, 3int,
{
    lemma_factor_unfold(src, i as nat);
    let m = choose|m: int| #[trigger] split_point(m) && i < m <= j && derives_power(src, i, m) && factor_tail(src, m, j);
    if m < j {
        lemma_infix_ends_base(tk(src, m));
    }
    lemma_power_complete(src, i, m);
    if let Ok((p, _)) = spec_power(src, i as nat) {
        lemma_factor_tail_complete(src, m, j, p);
    }
}

proof fn lemma_term_tail_complete(src: Src, m: int, j: int, acc: SpecExpr)
    requires
        term_tail(src, m, j),
        ends_term(tk(src, j)),
    ensures
        spec_term_rest(src, acc, m as nat) matches Ok((_, k2)) && k2 == j,
    decreases j - m, 4int,
{
    lemma_term_rest_unfold(src, acc, m as nat);
    if m < j {
        let m2 = choose|m2: int|
            #[trigger] split_point(m2) && m + 1 < m2 <= j && derives_factor(src, m + 1, m2) && term_tail(src, m2, j);
        lemma_factor_complete(src, m + 1, m2);
        if let Ok((f, _)) = spec_factor(src, (m + 1) as nat) {
            let t = tk(src, m);
            lemma_term_tail_complete(
                src,
                m2,
                j,
                SpecExpr::Call { type_: TE_FUNCTION2 | TE_FLAG_PURE, target: target_of(t), params: seq![acc, f] },
            );
        }
    }
}

proof fn lemma_term_complete(src: Src, i: int, j: int)
    requires
        derives_term(src, i, j),
        ends_term(tk(src, j)),
    ensures
        spec_term(src, i as nat) matches Ok((_, k2)) && k2 == j,
    decreases j - i, 5int,
{
    lemma_term_unfold(src, i as nat);
    let m = choose|m: int| #[trigger] split_point(m) && i < m <= j && derives_factor(src, i, m) && term_tail(src, m, j);
    lemma_factor_complete(src, i, m);
    if let Ok((f, _)) = spec_factor(src, i as nat) {
        lemma_term_tail_complete(src, m, j, f);
    }
}

proof fn lemma_expr_tail_complete(src: Src, m: int, j: int, acc: SpecExpr)
    requires
        expr_tail(src, m, j),
        ends_expr(tk(src, j)),
    ensures
        spec_expr_rest(src, acc, m as nat) matches Ok((_, k2)) && k2 == j,
    decreases j - m, 6int,
{
    lemma_expr_rest_unfold(src, acc, m as nat);
    if m < j {
        let m2 = choose|m2: int|
            #[trigger] split_point(m2) && m + 1 < m2 <= j && derives_term(src, m + 1, m2) && expr_tail(src, m2, j);
        lemma_term_complete(src, m + 1, m2);
        if let Ok((f, _)) = spec_term(src, (m + 1) as nat) {
            let t = tk(src, m);
            lemma_expr_tail_complete(
                src,
                m2,
                j,
                SpecExpr::Call { type_: TE_FUNCTION2 | TE_FLAG_PURE, target: target_of(t), params: seq![acc, f] },
            );
        }
    }
}

proof fn lemma_expr_complete(src: Src, i: int, j: int)
    requires
        derives_expr(src, i, j),
        ends_expr(tk(src, j)),
    ensures
        spec_expr(src, i as nat) matches Ok((_, k2)) && k2 == j,
    decreases j - i, 7int,
{
    lemma_expr_unfold(src, i as nat);
    let m = choose|m: int| #[trigger] split_point(m) && i < m <= j && derives_term(src, i, m) && expr_tail(src, m, j);
    lemma_term_complete(src, i, m);
    if let Ok((f, _)) = spec_term(src, i as nat) {
        lemma_expr_tail_complete(src, m, j, f);
    }
}

proof fn lemma_list_tail_complete(src: Src, m: int, j: int, acc: SpecExpr)
    requires
        list_tail(src, m, j),
        ends_list(tk(src, j)),
    ensures
        spec_list_rest(src, acc, m as nat) matches Ok((_, k2)) && k2 == j,
    decreases j - m, 8int,
{
    lemma_list_rest_unfold(src, acc, m as nat);
    if m < j {
        let m2 = choose|m2: int|
            #[trigger] split_point(m2) && m + 1 < m2 <= j && derives_expr(src, m + 1, m2) && list_tail(src, m2, j);
        lemma_expr_complete(src, m + 1, m2);
        if let Ok((f, _)) = spec_expr(src, (m + 1) as nat) {
            lemma_list_tail_complete(src, m2, j, binary(Operator::Comma, acc, f));
        }
    }
}

proof fn lemma_list_complete(src: Src, i: int, j: int)
    requires
        derives_list(src, i, j),
        ends_list(tk(src, j)),
    ensures
        spec_list(src, i as nat) matches Ok((_, k2)) && k2 == j,
    decreases j - i, 9int,
{
    lemma_list_unfold(src, i as nat);
    let m = choose|m: int| #[trigger] split_point(m) && i < m <= j && derives_expr(src, i, m) && list_tail(src, m, j);
    lemma_expr_complete(src, i, m);
    if let Ok((f, _)) = spec_expr(src, i as nat) {
        lemma_list_tail_complete(src, m, j, f);
    }
}

/// The compiler accepts exactly the grammar: an expression parses, and
/// compiles, if and only if its tokens, up to the end, derive a list.
pub proof fn law_parses_exactly_the_grammar(src: Src)
    ensures
        spec_parse(src) is Ok <==> in_language(src),
        crate::spec_compile(src) is Ok <==> in_language(src),
{
    lemma_list_sound(src, 0);
    if let Ok((_, k)) = spec_list(src, 0) {
        if tok(src, k).type_ == TOK_END {
            assert(split_point(k as int));
        }
    }
    if in_language(src) {
        let n = choose|n: int| #[trigger] split_point(n) && derives_list(src, 0, n) && tk(src, n).type_ == TOK_END;
        lemma_list_complete(src, 0, n);
    }
}

} // verus!
