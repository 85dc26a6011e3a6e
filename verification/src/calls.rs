//! The arguments of a call, in the order they are written.
use vstd::prelude::*;
use vstd::string::StringSliceAdditionalSpecFns;
use crate::ast::{SpecExpr, Target};
use crate::lexer::{is_alpha, is_digit, is_space, next_tok, spec_find_lookup, tok, Src};
use crate::parser::{lemma_args_unfold, lemma_base_unfold, spec_args, spec_base, spec_expr};
use crate::token::{
    spec_arity, spec_type_mask, TE_CLOSURE2, TE_CLOSURE7, TE_FUNCTION2, TE_FUNCTION7, TOK_CLOSE,
    TOK_OPEN, TOK_SEP,
};

verus! {

/// For a call whose function token is token `k`: the index of the token
/// before its argument `i`, the "(" for the first and a "," for the others,
/// each argument being the expr read right after it; for `i` equal to the
/// number of arguments, the token after the last argument.
pub open spec fn arg_sep(src: Src, k: nat, i: nat) -> nat
    decreases i,
{
    if i == 0 {
        k + 1
    } else {
        match spec_expr(src, arg_sep(src, k, (i - 1) as nat) + 1) {
            Ok((_, m)) => m,
            Err(_) => 0,
        }
    }
}

proof fn lemma_args_in_order(src: Src, k: nat, j: nat, m: nat, acc: Seq<SpecExpr>)
    requires
        acc.len() == j,
    ensures
        spec_args(src, arg_sep(src, k, j), m, acc) matches Ok((ps, k2)) ==> {
            &&& ps.len() == j + m
            &&& forall|i: int| 0 <= i < j ==> ps[i] == acc[i]
            &&& forall|i: nat| j <= i < j + m ==> #[trigger] spec_expr(src, arg_sep(src, k, i) + 1) == Ok::<
                (SpecExpr, nat),
                nat,
            >((ps[i as int], arg_sep(src, k, i + 1)))
            &&& forall|i: nat| j < i < j + m ==> #[trigger] tok(src, arg_sep(src, k, i)).type_ == TOK_SEP
            &&& tok(src, arg_sep(src, k, j + m)).type_ == TOK_CLOSE
            &&& k2 == arg_sep(src, k, j + m) + 1
        },
    decreases m,
{
    let s = arg_sep(src, k, j);
    lemma_args_unfold(src, s, m, acc);
    if m > 0 {
        if let Ok((e, m1)) = spec_expr(src, s + 1) {
            assert(arg_sep(src, k, j + 1) == m1);
            lemma_args_in_order(src, k, j + 1, (m - 1) as nat, acc.push(e));
            if let Ok((ps, k2)) = spec_args(src, s, m, acc) {
                assert(spec_args(src, m1, (m - 1) as nat, acc.push(e)) == Ok::<(Seq<SpecExpr>, nat), nat>((ps, k2)));
                assert forall|i: int| 0 <= i < j implies ps[i] == acc[i] by {
                    assert(ps[i] == acc.push(e)[i]);
                }
                assert(ps[j as int] == acc.push(e)[j as int]);
                assert forall|i: nat| j <= i < j + m implies #[trigger] spec_expr(src, arg_sep(src, k, i) + 1) == Ok::<
                    (SpecExpr, nat),
                    nat,
                >((ps[i as int], arg_sep(src, k, i + 1))) by {
                    if i > j {
                        assert(j + 1 <= i < (j + 1) + (m - 1) as nat);
                    }
                }
                assert forall|i: nat| j < i < j + m implies #[trigger] tok(src, arg_sep(src, k, i)).type_ == TOK_SEP by {
                    if i > j + 1 {
                        assert(j + 1 < i < (j + 1) + (m - 1) as nat);
                    }
                }
                assert((j + 1) + (m - 1) as nat == j + m);
            }
        }
    }
}

/// The arguments of a call of a function or closure of arity `n` >= 2 are
/// kept in the order they are written: argument `i` of the node is exactly
/// the expr read between the `i`-th and the `i+1`-th of the "(", "," and ")"
/// that follow the function's name, and the call ends after the ")".
pub proof fn law_call_arguments_in_order(src: Src, k: nat)
    requires
        (TE_FUNCTION2 <= spec_type_mask(tok(src, k).type_) <= TE_FUNCTION7) || (TE_CLOSURE2
            <= spec_type_mask(tok(src, k).type_) <= TE_CLOSURE7),
    ensures
        spec_base(src, k) matches Ok((e, k2)) ==> {
            let n = spec_arity(tok(src, k).type_) as nat;
            &&& e matches SpecExpr::Call { type_, params, .. }
            &&& type_ == tok(src, k).type_
            &&& params.len() == n
            &&& tok(src, arg_sep(src, k, 0)).type_ == TOK_OPEN
            &&& forall|i: nat| i < n ==> #[trigger] spec_expr(src, arg_sep(src, k, i) + 1) == Ok::<
                (SpecExpr, nat),
                nat,
            >((params[i as int], arg_sep(src, k, i + 1)))
            &&& forall|i: nat| 0 < i < n ==> #[trigger] tok(src, arg_sep(src, k, i)).type_ == TOK_SEP
            &&& tok(src, arg_sep(src, k, n)).type_ == TOK_CLOSE
            &&& k2 == arg_sep(src, k, n) + 1
        },
{
    lemma_base_unfold(src, k);
    crate::token::lemma_callable_kind(tok(src, k).type_);
    let n = spec_arity(tok(src, k).type_) as nat;
    lemma_args_in_order(src, k, 0, n, seq![]);
}

/// A call of a function or closure of one argument applies it to the power
/// read right after its name.
pub proof fn law_call_of_one_argument(src: Src, k: nat)
    requires
        spec_type_mask(tok(src, k).type_) == crate::token::TE_FUNCTION1 || spec_type_mask(tok(src, k).type_)
            == crate::token::TE_CLOSURE1,
    ensures
        spec_base(src, k) matches Ok((e, k2)) ==> {
            &&& e matches SpecExpr::Call { type_, params, .. }
            &&& type_ == tok(src, k).type_
            &&& params.len() == 1
            &&& crate::parser::spec_power(src, k + 1) == Ok::<(SpecExpr, nat), nat>((params[0], k2))
        },
{
    lemma_base_unfold(src, k);
}

/// A call of a function or closure of no argument takes an optional "()"
/// after its name and has no arguments.
pub proof fn law_call_of_no_argument(src: Src, k: nat)
    requires
        spec_type_mask(tok(src, k).type_) == crate::token::TE_FUNCTION0 || spec_type_mask(tok(src, k).type_)
            == crate::token::TE_CLOSURE0,
    ensures
        spec_base(src, k) matches Ok((e, k2)) ==> {
            &&& e matches SpecExpr::Call { type_, params, .. }
            &&& type_ == tok(src, k).type_
            &&& params.len() == 0
            &&& k2 == if tok(src, k + 1).type_ == TOK_OPEN { k + 3 } else { k + 1 }
        },
        tok(src, k + 1).type_ == TOK_OPEN ==> (spec_base(src, k) is Ok <==> tok(src, k + 2).type_ == TOK_CLOSE),
{
    lemma_base_unfold(src, k);
}

/// A number is read as the constant whose text is exactly the number token.
pub proof fn law_number_is_its_text(src: Src, k: nat)
    requires
        tok(src, k).type_ == crate::token::TOK_NUMBER,
    ensures
        spec_base(src, k) == Ok::<(SpecExpr, nat), nat>(
            (SpecExpr::Constant { start: tok(src, k).start as nat, end: tok(src, k).end as nat }, k + 1),
        ),
{
    lemma_base_unfold(src, k);
    crate::token::lemma_token_masks();
    crate::lexer::lemma_tok_bounds(src, k);
}

proof fn lemma_variable_next_tok(src: Src, p: int)
    requires
        0 <= p <= src.bytes.len(),
    ensures
        next_tok(src, p).type_ == crate::token::TOK_VARIABLE ==> {
            let t = next_tok(src, p);
            &&& t.target matches Some(Target::Lookup(i))
            &&& spec_find_lookup(src.vars, src.bytes.subrange(t.start, t.end)) == Some(i)
            &&& spec_type_mask(src.vars[i as int].type_) == crate::token::TE_VARIABLE
        },
    decreases src.bytes.len() - p,
{
    reveal(next_tok);
    let b = src.bytes;
    if p < b.len() {
        if is_alpha(b[p]) && !(is_digit(b[p]) || b[p] == crate::lexer::DOT) {
            let e = crate::lexer::ident_end(b, p + 1);
            let name = b.subrange(p, e);
            if let None = spec_find_lookup(src.vars, name) {
                if let Some(j) = crate::functions::spec_find_builtin(name) {
                    crate::functions::lemma_builtin_type(j as int);
                    crate::token::lemma_callable_not_token(crate::functions::builtin_spec_type(j as int));
                }
            } else if let Some(i) = spec_find_lookup(src.vars, name) {
                let t = src.vars[i as int].type_;
                let m = spec_type_mask(t);
                if m != crate::token::TE_VARIABLE && ((crate::token::TE_CLOSURE0 <= m <= crate::token::TE_CLOSURE7)
                    || (crate::token::TE_FUNCTION0 <= m <= crate::token::TE_FUNCTION7)) {
                    crate::token::lemma_callable_not_token(t);
                }
            }
        } else if is_space(b[p]) && !is_alpha(b[p]) && !(is_digit(b[p]) || b[p] == crate::lexer::DOT) {
            lemma_variable_next_tok(src, p + 1);
        }
    }
}

/// A variable is read as the node of the first binding whose name is the
/// token's text, a binding of variable kind.
pub proof fn law_variable_is_its_first_binding(src: Src, k: nat)
    requires
        tok(src, k).type_ == crate::token::TOK_VARIABLE,
        src.vars.len() <= usize::MAX,
    ensures
        spec_base(src, k) matches Ok((e, k2)) && (k2 == k + 1 && (e matches SpecExpr::Variable { index } && {
            let text = src.bytes.subrange(tok(src, k).start, tok(src, k).end);
            &&& index < src.vars.len()
            &&& src.vars[index as int].name.spec_bytes() == text
            &&& forall|j: int| 0 <= j < index ==> #[trigger] src.vars[j].name.spec_bytes() != text
            &&& spec_type_mask(src.vars[index as int].type_) == crate::token::TE_VARIABLE
        })),
{
    lemma_base_unfold(src, k);
    crate::token::lemma_token_masks();
    reveal(tok);
    if k == 0 {
        lemma_variable_next_tok(src, 0);
    } else {
        crate::lexer::lemma_tok_bounds(src, (k - 1) as nat);
        lemma_variable_next_tok(src, tok(src, (k - 1) as nat).end);
    }
    let t = tok(src, k);
    crate::laws::law_first_binding_of_a_name(src.vars, src.bytes.subrange(t.start, t.end));
}

} // verus!
