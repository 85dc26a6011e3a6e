//! The parser keeps the text in order: the constants of a tree, read left
//! to right, are the numbers of the expression in the order written.
use vstd::prelude::*;
use crate::ast::{Operator, SpecExpr};
use crate::lexer::{lemma_meas_mono, lemma_meas_step, lemma_next_tok_bounds, lemma_tok_bounds, meas, tok, Src};
use crate::parser::{
    binary, is_expr_op, is_op, is_term_op, lemma_args_unfold, lemma_base_unfold,
    lemma_expr_rest_unfold, lemma_expr_unfold, lemma_factor_rest_unfold, lemma_factor_unfold,
    lemma_list_rest_unfold, lemma_list_unfold, lemma_not_end, lemma_power_signs_unfold,
    lemma_power_unfold, lemma_term_rest_unfold, lemma_term_unfold, spec_args, spec_base,
    spec_expr, spec_expr_rest, spec_factor, spec_factor_rest, spec_list, spec_list_rest,
    spec_parse, spec_power, spec_power_signs, spec_term, spec_term_rest, target_of,
};
use crate::token::{TE_FLAG_PURE, TE_FUNCTION2, TOK_END, TOK_SEP};

verus! {

/// The start positions of the constants of `e`, left to right.
pub open spec fn leaves(e: SpecExpr) -> Seq<int>
    decreases e,
{
    match e {
        SpecExpr::Constant { start, .. } => seq![start as int],
        SpecExpr::Variable { .. } => Seq::empty(),
        SpecExpr::Call { params, .. } => leaves_all(params),
        SpecExpr::Folded { inner } => leaves(*inner),
    }
}

/// The start positions of the constants of `ps`, left to right.
pub open spec fn leaves_all(ps: Seq<SpecExpr>) -> Seq<int>
    decreases ps,
{
    if ps.len() == 0 {
        Seq::empty()
    } else {
        leaves_all(ps.drop_last()) + leaves(ps.last())
    }
}

/// `s` is strictly increasing.
pub open spec fn increasing(s: Seq<int>) -> bool {
    forall|i: int, j: int| 0 <= i < j < s.len() ==> s[i] < s[j]
}

/// Every member of `s` lies in `lo..hi`.
pub open spec fn within(s: Seq<int>, lo: int, hi: int) -> bool {
    forall|i: int| 0 <= i < s.len() ==> lo <= #[trigger] s[i] < hi
}

/// What a parse from token `k` ending at token `k2` keeps: its constants in
/// increasing order, all between the start of token `k` and that of `k2`.
spec fn ordered(src: Src, s: Seq<int>, lo: int, k2: nat) -> bool {
    increasing(s) && within(s, lo, tok(src, k2).start)
}

spec fn start(src: Src, k: nat) -> int {
    tok(src, k).start
}

proof fn lemma_start_step(src: Src, k: nat)
    ensures
        start(src, k) <= start(src, k + 1),
        tok(src, k).type_ != TOK_END ==> start(src, k) < start(src, k + 1),
{
    lemma_tok_bounds(src, k);
    reveal(tok);
    lemma_next_tok_bounds(src, tok(src, k).end);
}

proof fn lemma_start_mono(src: Src, i: nat, j: nat)
    requires
        i <= j,
    ensures
        start(src, i) <= start(src, j),
    decreases j - i,
{
    if i < j {
        lemma_start_mono(src, i, (j - 1) as nat);
        lemma_start_step(src, (j - 1) as nat);
    }
}

proof fn lemma_concat(a: Seq<int>, b: Seq<int>, lo: int, mid: int, mid2: int, hi: int)
    requires
        increasing(a),
        increasing(b),
        within(a, lo, mid),
        within(b, mid2, hi),
        lo <= mid <= mid2 <= hi,
    ensures
        increasing(a + b),
        within(a + b, lo, hi),
{
    assert forall|i: int, j: int| 0 <= i < j < (a + b).len() implies (a + b)[i] < (a + b)[j] by {
        if j < a.len() {
        } else if i < a.len() {
            assert(a[i] < mid && b[j - a.len()] >= mid2);
        } else {
            assert(b[i - a.len()] < b[j - a.len()]);
        }
    }
    assert forall|i: int| 0 <= i < (a + b).len() implies lo <= #[trigger] (a + b)[i] < hi by {
        if i < a.len() {
            assert(a[i] < mid);
        } else {
            assert(b[i - a.len()] >= mid2);
        }
    }
}

proof fn lemma_leaves_push(ps: Seq<SpecExpr>, e: SpecExpr)
    ensures
        leaves_all(ps.push(e)) == leaves_all(ps) + leaves(e),
{
    assert(ps.push(e).drop_last() =~= ps);
}

proof fn lemma_leaves_one(a: SpecExpr)
    ensures
        leaves_all(seq![a]) == leaves(a),
{
    lemma_leaves_push(Seq::empty(), a);
    assert(seq![a] =~= Seq::<SpecExpr>::empty().push(a));
    assert(leaves_all(Seq::<SpecExpr>::empty()) + leaves(a) =~= leaves(a));
}

proof fn lemma_leaves_two(a: SpecExpr, b: SpecExpr)
    ensures
        leaves_all(seq![a, b]) == leaves(a) + leaves(b),
{
    lemma_leaves_one(a);
    lemma_leaves_push(seq![a], b);
    assert(seq![a, b] =~= seq![a].push(b));
}

/// Joining `acc` (from `lo` up to token `m`) and `f` (from token `m + 1` up
/// to token `k2`) as a binary node keeps the order.
proof fn lemma_join(src: Src, t: i32, g: crate::ast::Target, acc: SpecExpr, f: SpecExpr, lo: int, m: nat, k2: nat)
    requires
        increasing(leaves(acc)),
        within(leaves(acc), lo, start(src, m)),
        lo <= start(src, m),
        ordered(src, leaves(f), start(src, m + 1), k2),
        m + 1 <= k2,
    ensures
        ordered(src, leaves(SpecExpr::Call { type_: t, target: g, params: seq![acc, f] }), lo, k2),
{
    lemma_leaves_two(acc, f);
    lemma_start_step(src, m);
    lemma_start_mono(src, m + 1, k2);
    lemma_concat(leaves(acc), leaves(f), lo, start(src, m), start(src, m + 1), start(src, k2));
}

proof fn lemma_widen(s: Seq<int>, lo: int, lo2: int, hi: int, hi2: int)
    requires
        within(s, lo, hi),
        lo2 <= lo,
        hi <= hi2,
    ensures
        within(s, lo2, hi2),
{
}

proof fn lemma_base_order(src: Src, k: nat)
    ensures
        spec_base(src, k) matches Ok((e, k2)) ==> ordered(src, leaves(e), start(src, k), k2),
    decreases meas(src, k), 0nat, 0nat,
{
    lemma_base_unfold(src, k);
    crate::failure::lemma_base_forward(src, k);
    let t = tok(src, k);
    let tm = crate::token::spec_type_mask(t.type_);
    lemma_start_step(src, k);
    crate::token::lemma_token_masks();
    if tm == crate::token::TE_FUNCTION1 || tm == crate::token::TE_CLOSURE1 {
        lemma_not_end(src, k);
        lemma_power_order(src, k + 1);
        if let Ok((p, k2)) = spec_power(src, k + 1) {
            lemma_leaves_one(p);
            lemma_widen(leaves(p), start(src, k + 1), start(src, k), start(src, k2), start(src, k2));
            assert(leaves(crate::parser::call_of(t, seq![p])) == leaves(p));
        }
    } else if (crate::token::TE_FUNCTION2 <= tm <= crate::token::TE_FUNCTION7) || (
    crate::token::TE_CLOSURE2 <= tm <= crate::token::TE_CLOSURE7) {
        if tok(src, k + 1).type_ == crate::token::TOK_OPEN {
            lemma_not_end(src, k);
            assert(leaves_all(Seq::<SpecExpr>::empty()) =~= Seq::<int>::empty());
            lemma_args_order(src, k + 1, crate::token::spec_arity(t.type_) as nat, seq![], start(src, k));
            if let Ok((ps, k2)) = spec_args(src, k + 1, crate::token::spec_arity(t.type_) as nat, seq![]) {
                assert(leaves(crate::parser::call_of(t, ps)) == leaves_all(ps));
            }
        }
    } else if tm == crate::token::TOK_OPEN {
        lemma_not_end(src, k);
        lemma_list_order(src, k + 1);
        if let Ok((e, m)) = spec_list(src, k + 1) {
            lemma_start_step(src, m);
            lemma_widen(leaves(e), start(src, k + 1), start(src, k), start(src, m), start(src, m + 1));
        }
    } else if tm == crate::token::TOK_NUMBER {
        assert(t.type_ != TOK_END);
        let c = SpecExpr::Constant { start: t.start as nat, end: t.end as nat };
        lemma_tok_bounds(src, k);
        assert(leaves(c) == seq![t.start]);
        assert(seq![t.start][0] == t.start);
    } else if tm == crate::token::TE_FUNCTION0 || tm == crate::token::TE_CLOSURE0 {
        assert(leaves(crate::parser::call_of(t, seq![])) == leaves_all(Seq::<SpecExpr>::empty()));
        assert(leaves_all(Seq::<SpecExpr>::empty()) =~= Seq::<int>::empty());
    }
}

proof fn lemma_args_order(src: Src, k: nat, n: nat, acc: Seq<SpecExpr>, lo: int)
    requires
        increasing(leaves_all(acc)),
        within(leaves_all(acc), lo, start(src, k)),
        lo <= start(src, k),
    ensures
        spec_args(src, k, n, acc) matches Ok((ps, k2)) ==> ordered(src, leaves_all(ps), lo, k2),
    decreases meas(src, k), 11nat, n,
{
    lemma_args_unfold(src, k, n, acc);
    lemma_start_step(src, k);
    if n == 0 {
        lemma_widen(leaves_all(acc), lo, lo, start(src, k), start(src, k + 1));
    } else {
        lemma_meas_step(src, k);
        lemma_expr_order(src, k + 1);
        if let Ok((e, k2)) = spec_expr(src, k + 1) {
            if k2 > k {
                lemma_meas_mono(src, k, k2);
                lemma_leaves_push(acc, e);
                lemma_start_mono(src, k + 1, k2);
                lemma_concat(leaves_all(acc), leaves(e), lo, start(src, k), start(src, k + 1), start(src, k2));
                lemma_start_mono(src, k, k2);
                lemma_args_order(src, k2, (n - 1) as nat, acc.push(e), lo);
            }
        }
    }
}

proof fn lemma_power_signs_order(src: Src, k: nat, negative: bool)
    ensures
        spec_power_signs(src, k, negative) matches Ok((e, k2)) ==> ordered(src, leaves(e), start(src, k), k2),
    decreases meas(src, k), 1nat, 0nat,
{
    lemma_power_signs_unfold(src, k, negative);
    let t = tok(src, k);
    if is_op(t, Operator::Add) || is_op(t, Operator::Sub) {
        lemma_not_end(src, k);
        let neg2 = if is_op(t, Operator::Sub) { !negative } else { negative };
        lemma_power_signs_order(src, k + 1, neg2);
        lemma_start_step(src, k);
        if let Ok((e, k2)) = spec_power_signs(src, k + 1, neg2) {
            lemma_widen(leaves(e), start(src, k + 1), start(src, k), start(src, k2), start(src, k2));
        }
    } else {
        lemma_base_order(src, k);
        if let Ok((b, _)) = spec_base(src, k) {
            lemma_leaves_one(b);
        }
    }
}

proof fn lemma_power_order(src: Src, k: nat)
    ensures
        spec_power(src, k) matches Ok((e, k2)) ==> ordered(src, leaves(e), start(src, k), k2),
    decreases meas(src, k), 2nat, 0nat,
{
    lemma_power_unfold(src, k);
    lemma_power_signs_order(src, k, false);
}

proof fn lemma_factor_rest_order(src: Src, acc: SpecExpr, k: nat, lo: int)
    requires
        increasing(leaves(acc)),
        within(leaves(acc), lo, start(src, k)),
        lo <= start(src, k),
    ensures
        spec_factor_rest(src, acc, k) matches Ok((e, k2)) ==> ordered(src, leaves(e), lo, k2),
    decreases meas(src, k), 3nat, 0nat,
{
    lemma_factor_rest_unfold(src, acc, k);
    if is_op(tok(src, k), Operator::Pow) {
        lemma_not_end(src, k);
        lemma_power_order(src, k + 1);
        if let Ok((p, k2)) = spec_power(src, k + 1) {
            if k2 > k {
                lemma_meas_mono(src, k + 1, k2);
                lemma_join(src, TE_FUNCTION2 | TE_FLAG_PURE, crate::ast::Target::Op(Operator::Pow), acc, p, lo, k, k2);
                lemma_start_mono(src, k, k2);
                lemma_factor_rest_order(src, binary(Operator::Pow, acc, p), k2, lo);
            }
        }
    }
}

proof fn lemma_factor_order(src: Src, k: nat)
    ensures
        spec_factor(src, k) matches Ok((e, k2)) ==> ordered(src, leaves(e), start(src, k), k2),
    decreases meas(src, k), 4nat, 0nat,
{
    lemma_factor_unfold(src, k);
    lemma_power_order(src, k);
    if let Ok((p, k2)) = spec_power(src, k) {
        if k2 >= k {
            lemma_meas_mono(src, k, k2);
            lemma_start_mono(src, k, k2);
            lemma_factor_rest_order(src, p, k2, start(src, k));
        }
    }
}

proof fn lemma_term_rest_order(src: Src, acc: SpecExpr, k: nat, lo: int)
    requires
        increasing(leaves(acc)),
        within(leaves(acc), lo, start(src, k)),
        lo <= start(src, k),
    ensures
        spec_term_rest(src, acc, k) matches Ok((e, k2)) ==> ordered(src, leaves(e), lo, k2),
    decreases meas(src, k), 5nat, 0nat,
{
    lemma_term_rest_unfold(src, acc, k);
    let t = tok(src, k);
    if is_term_op(t) {
        lemma_not_end(src, k);
        lemma_factor_order(src, k + 1);
        if let Ok((f, k2)) = spec_factor(src, k + 1) {
            if k2 > k {
                lemma_meas_mono(src, k + 1, k2);
                lemma_join(src, TE_FUNCTION2 | TE_FLAG_PURE, target_of(t), acc, f, lo, k, k2);
                lemma_start_mono(src, k, k2);
                lemma_term_rest_order(
                    src,
                    SpecExpr::Call { type_: TE_FUNCTION2 | TE_FLAG_PURE, target: target_of(t), params: seq![acc, f] },
                    k2,
                    lo,
                );
            }
        }
    }
}

proof fn lemma_term_order(src: Src, k: nat)
    ensures
        spec_term(src, k) matches Ok((e, k2)) ==> ordered(src, leaves(e), start(src, k), k2),
    decreases meas(src, k), 6nat, 0nat,
{
    lemma_term_unfold(src, k);
    lemma_factor_order(src, k);
    if let Ok((f, k2)) = spec_factor(src, k) {
        if k2 >= k {
            lemma_meas_mono(src, k, k2);
            lemma_start_mono(src, k, k2);
            lemma_term_rest_order(src, f, k2, start(src, k));
        }
    }
}

proof fn lemma_expr_rest_order(src: Src, acc: SpecExpr, k: nat, lo: int)
    requires
        increasing(leaves(acc)),
        within(leaves(acc), lo, start(src, k)),
        lo <= start(src, k),
    ensures
        spec_expr_rest(src, acc, k) matches Ok((e, k2)) ==> ordered(src, leaves(e), lo, k2),
    decreases meas(src, k), 7nat, 0nat,
{
    lemma_expr_rest_unfold(src, acc, k);
    let t = tok(src, k);
    if is_expr_op(t) {
        lemma_not_end(src, k);
        lemma_term_order(src, k + 1);
        if let Ok((f, k2)) = spec_term(src, k + 1) {
            if k2 > k {
                lemma_meas_mono(src, k + 1, k2);
                lemma_join(src, TE_FUNCTION2 | TE_FLAG_PURE, target_of(t), acc, f, lo, k, k2);
                lemma_start_mono(src, k, k2);
                lemma_expr_rest_order(
                    src,
                    SpecExpr::Call { type_: TE_FUNCTION2 | TE_FLAG_PURE, target: target_of(t), params: seq![acc, f] },
                    k2,
                    lo,
                );
            }
        }
    }
}

proof fn lemma_expr_order(src: Src, k: nat)
    ensures
        spec_expr(src, k) matches Ok((e, k2)) ==> ordered(src, leaves(e), start(src, k), k2),
    decreases meas(src, k), 8nat, 0nat,
{
    lemma_expr_unfold(src, k);
    lemma_term_order(src, k);
    if let Ok((f, k2)) = spec_term(src, k) {
        if k2 >= k {
            lemma_meas_mono(src, k, k2);
            lemma_start_mono(src, k, k2);
            lemma_expr_rest_order(src, f, k2, start(src, k));
        }
    }
}

proof fn lemma_list_rest_order(src: Src, acc: SpecExpr, k: nat, lo: int)
    requires
        increasing(leaves(acc)),
        within(leaves(acc), lo, start(src, k)),
        lo <= start(src, k),
    ensures
        spec_list_rest(src, acc, k) matches Ok((e, k2)) ==> ordered(src, leaves(e), lo, k2),
    decreases meas(src, k), 9nat, 0nat,
{
    lemma_list_rest_unfold(src, acc, k);
    if tok(src, k).type_ == TOK_SEP {
        lemma_not_end(src, k);
        lemma_expr_order(src, k + 1);
        if let Ok((f, k2)) = spec_expr(src, k + 1) {
            if k2 > k {
                lemma_meas_mono(src, k + 1, k2);
                lemma_join(src, TE_FUNCTION2 | TE_FLAG_PURE, crate::ast::Target::Op(Operator::Comma), acc, f, lo, k, k2);
                lemma_start_mono(src, k, k2);
                lemma_list_rest_order(src, binary(Operator::Comma, acc, f), k2, lo);
            }
        }
    }
}

proof fn lemma_list_order(src: Src, k: nat)
    ensures
        spec_list(src, k) matches Ok((e, k2)) ==> ordered(src, leaves(e), start(src, k), k2),
    decreases meas(src, k), 10nat, 0nat,
{
    lemma_list_unfold(src, k);
    lemma_expr_order(src, k);
    if let Ok((f, k2)) = spec_expr(src, k) {
        if k2 >= k {
            lemma_meas_mono(src, k, k2);
            lemma_start_mono(src, k, k2);
            lemma_list_rest_order(src, f, k2, start(src, k));
        }
    }
}

/// The parser keeps the expression's order: the constants of the tree, read
/// left to right through every call's arguments, start at strictly
/// increasing positions of the text, so no operands or arguments are ever
/// swapped.
pub proof fn law_constants_in_written_order(src: Src)
    ensures
        spec_parse(src) matches Ok(e) ==> increasing(leaves(e)),
{
    lemma_list_order(src, 0);
}

} // verus!
