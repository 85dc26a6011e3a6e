//! The recursive-descent parser:
//!
//! ```text
//! list   = expr {"," expr}
//! expr   = term {("+" | "-") term}
//! term   = factor {("*" | "/" | "%") factor}
//! factor = power {"^" power}
//! power  = {("-" | "+")} base
//! base   = constant | variable | function0 ["(" ")"] | function1 power
//!        | functionN "(" expr {"," expr} ")" | "(" list ")"
//! ```
use vstd::prelude::*;
use vstd::string::StringSliceAdditionalSpecFns;
use crate::ast::{lemma_views_push, views, Expr, Operator, SpecExpr, Target, TeVariable};
use crate::lexer::{lemma_meas_mono, lemma_meas_step, meas, next_token, tok, SpecTok, Src, State, Token};
use crate::token::{
    arity, spec_arity, spec_type_mask, type_mask, TE_CLOSURE0, TE_CLOSURE1, TE_CLOSURE2, TE_CLOSURE7, TE_FLAG_PURE,
    TE_FUNCTION0, TE_FUNCTION1, TE_FUNCTION2, TE_FUNCTION7, TOK_CLOSE, TOK_END, TOK_INFIX,
    TOK_NUMBER, TOK_OPEN, TOK_SEP, TOK_VARIABLE,
};

verus! {

/// The outcome of parsing from token `k`: the tree and the index of the
/// first token after it, or the index of the token at which parsing failed.
pub type Parse = Result<(SpecExpr, nat), nat>;

/// Whether token `t` is the operator `o`.
pub open spec fn is_op(t: SpecTok, o: Operator) -> bool {
    t.type_ == TOK_INFIX && t.target == Some(Target::Op(o))
}

/// The target a token stands for (operators and names carry one).
pub open spec fn target_of(t: SpecTok) -> Target {
    match t.target {
        Some(g) => g,
        None => Target::Op(Operator::Comma),
    }
}

/// The binding index a variable token stands for.
pub open spec fn var_index(t: SpecTok) -> nat {
    match t.target {
        Some(Target::Lookup(i)) => i as nat,
        _ => 0,
    }
}

/// A call of the function token `t`.
pub open spec fn call_of(t: SpecTok, params: Seq<SpecExpr>) -> SpecExpr {
    SpecExpr::Call { type_: t.type_, target: target_of(t), params }
}

/// The pure binary node `o(a, b)`.
pub open spec fn binary(o: Operator, a: SpecExpr, b: SpecExpr) -> SpecExpr {
    SpecExpr::Call { type_: TE_FUNCTION2 | TE_FLAG_PURE, target: Target::Op(o), params: seq![a, b] }
}

/// The pure unary node `-a`.
pub open spec fn negation(a: SpecExpr) -> SpecExpr {
    SpecExpr::Call {
        type_: TE_FUNCTION1 | TE_FLAG_PURE,
        target: Target::Op(Operator::Negate),
        params: seq![a],
    }
}

/// Reading past any token but the end leaves less to read.
pub proof fn lemma_not_end(src: Src, k: nat)
    requires
        spec_type_mask(tok(src, k).type_) != 26 || tok(src, k).type_ == TOK_INFIX
            || tok(src, k).type_ == TOK_SEP,
    ensures
        meas(src, k + 1) < meas(src, k),
{
    let t = tok(src, k).type_;
    assert(t == 26 ==> t & 0x1F == 26) by (bit_vector);
    lemma_meas_step(src, k);
}

/// base = constant | variable | function0 ["(" ")"] | function1 power
///      | functionN "(" expr {"," expr} ")" | "(" list ")"
#[verifier::opaque]
pub open spec fn spec_base(src: Src, k: nat) -> Parse
    decreases meas(src, k), 0nat, 0nat,
{
    let t = tok(src, k);
    let tm = spec_type_mask(t.type_);
    if tm == TOK_NUMBER {
        Ok((SpecExpr::Constant { start: t.start as nat, end: t.end as nat }, k + 1))
    } else if tm == TOK_VARIABLE {
        Ok((SpecExpr::Variable { index: var_index(t) }, k + 1))
    } else if tm == TE_FUNCTION0 || tm == TE_CLOSURE0 {
        if tok(src, k + 1).type_ == TOK_OPEN {
            if tok(src, k + 2).type_ != TOK_CLOSE {
                Err(k + 2)
            } else {
                Ok((call_of(t, seq![]), k + 3))
            }
        } else {
            Ok((call_of(t, seq![]), k + 1))
        }
    } else if tm == TE_FUNCTION1 || tm == TE_CLOSURE1 {
        proof {
            lemma_not_end(src, k);
        }
        match spec_power(src, k + 1) {
            Ok((p, k2)) => Ok((call_of(t, seq![p]), k2)),
            Err(e) => Err(e),
        }
    } else if (TE_FUNCTION2 <= tm <= TE_FUNCTION7) || (TE_CLOSURE2 <= tm <= TE_CLOSURE7) {
        if tok(src, k + 1).type_ != TOK_OPEN {
            Err(k + 1)
        } else {
            proof {
                lemma_not_end(src, k);
            }
            match spec_args(src, k + 1, spec_arity(t.type_) as nat, seq![]) {
                Ok((ps, k2)) => Ok((call_of(t, ps), k2)),
                Err(e) => Err(e),
            }
        }
    } else if tm == TOK_OPEN {
        proof {
            lemma_not_end(src, k);
        }
        match spec_list(src, k + 1) {
            Ok((e, k2)) => if tok(src, k2).type_ != TOK_CLOSE {
                Err(k2)
            } else {
                Ok((e, k2 + 1))
            },
            Err(e) => Err(e),
        }
    } else {
        Err(k)
    }
}

/// The `n` remaining arguments of a call, token `k` being the "(" or ","
/// before the next one; `acc` holds the arguments read so far.
#[verifier::opaque]
pub open spec fn spec_args(src: Src, k: nat, n: nat, acc: Seq<SpecExpr>) -> Result<
    (Seq<SpecExpr>, nat),
    nat,
>
    decreases meas(src, k), 11nat, n,
{
    if n == 0 {
        if tok(src, k).type_ != TOK_CLOSE {
            Err(k)
        } else {
            Ok((acc, k + 1))
        }
    } else {
        proof {
            lemma_meas_step(src, k);
        }
        match spec_expr(src, k + 1) {
            Err(e) => Err(e),
            Ok((e, k2)) => if n > 1 && tok(src, k2).type_ != TOK_SEP {
                Err(k2)
            } else if k2 > k {
                proof {
                    lemma_meas_mono(src, k, k2);
                }
                spec_args(src, k2, (n - 1) as nat, acc.push(e))
            } else {
                Err(k2)
            },
        }
    }
}

/// power = {("-" | "+")} base
#[verifier::opaque]
pub open spec fn spec_power(src: Src, k: nat) -> Parse
    decreases meas(src, k), 2nat, 0nat,
{
    spec_power_signs(src, k, false)
}

/// The rest of a power after signs whose product is negative when `negative`.
#[verifier::opaque]
pub open spec fn spec_power_signs(src: Src, k: nat, negative: bool) -> Parse
    decreases meas(src, k), 1nat, 0nat,
{
    let t = tok(src, k);
    if is_op(t, Operator::Add) || is_op(t, Operator::Sub) {
        proof {
            lemma_not_end(src, k);
        }
        spec_power_signs(
            src,
            k + 1,
            if is_op(t, Operator::Sub) {
                !negative
            } else {
                negative
            },
        )
    } else {
        match spec_base(src, k) {
            Ok((b, k2)) => Ok((
                if negative {
                    negation(b)
                } else {
                    b
                },
                k2,
            )),
            Err(e) => Err(e),
        }
    }
}

/// The rest of a factor whose left operand so far is `acc`: {"^" power}.
#[verifier::opaque]
pub open spec fn spec_factor_rest(src: Src, acc: SpecExpr, k: nat) -> Parse
    decreases meas(src, k), 3nat, 0nat,
{
    let t = tok(src, k);
    if is_op(t, Operator::Pow) {
        proof {
            lemma_not_end(src, k);
        }
        match spec_power(src, k + 1) {
            Err(e) => Err(e),
            Ok((p, k2)) => if k2 > k {
                proof {
                    lemma_meas_mono(src, k + 1, k2);
                }
                spec_factor_rest(src, binary(Operator::Pow, acc, p), k2)
            } else {
                Err(k2)
            },
        }
    } else {
        Ok((acc, k))
    }
}

/// factor = power {"^" power}, grouping to the left.
#[verifier::opaque]
pub open spec fn spec_factor(src: Src, k: nat) -> Parse
    decreases meas(src, k), 4nat, 0nat,
{
    match spec_power(src, k) {
        Err(e) => Err(e),
        Ok((p, k2)) => if k2 >= k {
            proof {
                lemma_meas_mono(src, k, k2);
            }
            spec_factor_rest(src, p, k2)
        } else {
            Err(k2)
        },
    }
}

pub open spec fn is_term_op(t: SpecTok) -> bool {
    is_op(t, Operator::Mul) || is_op(t, Operator::Divide) || is_op(t, Operator::Fmod)
}

/// The rest of a term whose left operand so far is `acc`: {("*" | "/" | "%") factor}.
#[verifier::opaque]
pub open spec fn spec_term_rest(src: Src, acc: SpecExpr, k: nat) -> Parse
    decreases meas(src, k), 5nat, 0nat,
{
    let t = tok(src, k);
    if is_term_op(t) {
        proof {
            lemma_not_end(src, k);
        }
        match spec_factor(src, k + 1) {
            Err(e) => Err(e),
            Ok((f, k2)) => if k2 > k {
                proof {
                    lemma_meas_mono(src, k + 1, k2);
                }
                spec_term_rest(
                    src,
                    SpecExpr::Call {
                        type_: TE_FUNCTION2 | TE_FLAG_PURE,
                        target: target_of(t),
                        params: seq![acc, f],
                    },
                    k2,
                )
            } else {
                Err(k2)
            },
        }
    } else {
        Ok((acc, k))
    }
}

/// term = factor {("*" | "/" | "%") factor}
#[verifier::opaque]
pub open spec fn spec_term(src: Src, k: nat) -> Parse
    decreases meas(src, k), 6nat, 0nat,
{
    match spec_factor(src, k) {
        Err(e) => Err(e),
        Ok((f, k2)) => if k2 >= k {
            proof {
                lemma_meas_mono(src, k, k2);
            }
            spec_term_rest(src, f, k2)
        } else {
            Err(k2)
        },
    }
}

pub open spec fn is_expr_op(t: SpecTok) -> bool {
    is_op(t, Operator::Add) || is_op(t, Operator::Sub)
}

/// The rest of an expression whose left operand so far is `acc`: {("+" | "-") term}.
#[verifier::opaque]
pub open spec fn spec_expr_rest(src: Src, acc: SpecExpr, k: nat) -> Parse
    decreases meas(src, k), 7nat, 0nat,
{
    let t = tok(src, k);
    if is_expr_op(t) {
        proof {
            lemma_not_end(src, k);
        }
        match spec_term(src, k + 1) {
            Err(e) => Err(e),
            Ok((f, k2)) => if k2 > k {
                proof {
                    lemma_meas_mono(src, k + 1, k2);
                }
                spec_expr_rest(
                    src,
                    SpecExpr::Call {
                        type_: TE_FUNCTION2 | TE_FLAG_PURE,
                        target: target_of(t),
                        params: seq![acc, f],
                    },
                    k2,
                )
            } else {
                Err(k2)
            },
        }
    } else {
        Ok((acc, k))
    }
}

/// expr = term {("+" | "-") term}
#[verifier::opaque]
pub open spec fn spec_expr(src: Src, k: nat) -> Parse
    decreases meas(src, k), 8nat, 0nat,
{
    match spec_term(src, k) {
        Err(e) => Err(e),
        Ok((f, k2)) => if k2 >= k {
            proof {
                lemma_meas_mono(src, k, k2);
            }
            spec_expr_rest(src, f, k2)
        } else {
            Err(k2)
        },
    }
}

/// The rest of a list whose value so far is `acc`: {"," expr}.
#[verifier::opaque]
pub open spec fn spec_list_rest(src: Src, acc: SpecExpr, k: nat) -> Parse
    decreases meas(src, k), 9nat, 0nat,
{
    if tok(src, k).type_ == TOK_SEP {
        proof {
            lemma_not_end(src, k);
        }
        match spec_expr(src, k + 1) {
            Err(e) => Err(e),
            Ok((f, k2)) => if k2 > k {
                proof {
                    lemma_meas_mono(src, k + 1, k2);
                }
                spec_list_rest(src, binary(Operator::Comma, acc, f), k2)
            } else {
                Err(k2)
            },
        }
    } else {
        Ok((acc, k))
    }
}

/// list = expr {"," expr}
#[verifier::opaque]
pub open spec fn spec_list(src: Src, k: nat) -> Parse
    decreases meas(src, k), 10nat, 0nat,
{
    match spec_expr(src, k) {
        Err(e) => Err(e),
        Ok((f, k2)) => if k2 >= k {
            proof {
                lemma_meas_mono(src, k, k2);
            }
            spec_list_rest(src, f, k2)
        } else {
            Err(k2)
        },
    }
}

/// The 1-based position reported for a failure at token `k`: the offset
/// just past that token, and 1 when that is the very start.
pub open spec fn error_position(src: Src, k: nat) -> i32 {
    let e = tok(src, k).end;
    if e == 0 {
        1
    } else {
        e as i32
    }
}

/// The tree of the whole expression, or the position of the error.
pub open spec fn spec_parse(src: Src) -> Result<SpecExpr, i32> {
    match spec_list(src, 0) {
        Ok((e, k)) => if tok(src, k).type_ != TOK_END {
            Err(error_position(src, k))
        } else {
            Ok(e)
        },
        Err(k) => Err(error_position(src, k)),
    }
}


// One-step unfoldings of the grammar's productions.

pub proof fn lemma_base_unfold(src: Src, k: nat)
    ensures
        spec_base(src, k) == {
            let t = tok(src, k);
            let tm = spec_type_mask(t.type_);
            if tm == TOK_NUMBER {
                Ok((SpecExpr::Constant { start: t.start as nat, end: t.end as nat }, k + 1))
            } else if tm == TOK_VARIABLE {
                Ok((SpecExpr::Variable { index: var_index(t) }, k + 1))
            } else if tm == TE_FUNCTION0 || tm == TE_CLOSURE0 {
                if tok(src, k + 1).type_ == TOK_OPEN {
                    if tok(src, k + 2).type_ != TOK_CLOSE {
                        Err(k + 2)
                    } else {
                        Ok((call_of(t, seq![]), k + 3))
                    }
                } else {
                    Ok((call_of(t, seq![]), k + 1))
                }
            } else if tm == TE_FUNCTION1 || tm == TE_CLOSURE1 {
                match spec_power(src, k + 1) {
                    Ok((p, k2)) => Ok((call_of(t, seq![p]), k2)),
                    Err(e) => Err(e),
                }
            } else if (TE_FUNCTION2 <= tm <= TE_FUNCTION7) || (TE_CLOSURE2 <= tm <= TE_CLOSURE7) {
                if tok(src, k + 1).type_ != TOK_OPEN {
                    Err(k + 1)
                } else {
                    match spec_args(src, k + 1, spec_arity(t.type_) as nat, seq![]) {
                        Ok((ps, k2)) => Ok((call_of(t, ps), k2)),
                        Err(e) => Err(e),
                    }
                }
            } else if tm == TOK_OPEN {
                match spec_list(src, k + 1) {
                    Ok((e, k2)) => if tok(src, k2).type_ != TOK_CLOSE {
                        Err(k2)
                    } else {
                        Ok((e, k2 + 1))
                    },
                    Err(e) => Err(e),
                }
            } else {
                Err(k)
            }
        },
{
    reveal(spec_base);
    reveal(spec_args);
    reveal(spec_power);
    reveal(spec_power_signs);
    reveal(spec_factor_rest);
    reveal(spec_factor);
    reveal(spec_term_rest);
    reveal(spec_term);
    reveal(spec_expr_rest);
    reveal(spec_expr);
    reveal(spec_list_rest);
    reveal(spec_list);
}

pub proof fn lemma_args_unfold(src: Src, k: nat, n: nat, acc: Seq<SpecExpr>)
    ensures
        spec_args(src, k, n, acc) == {
            if n == 0 {
                if tok(src, k).type_ != TOK_CLOSE {
                    Err(k)
                } else {
                    Ok((acc, k + 1))
                }
            } else {
                match spec_expr(src, k + 1) {
                    Err(e) => Err(e),
                    Ok((e, k2)) => if n > 1 && tok(src, k2).type_ != TOK_SEP {
                        Err(k2)
                    } else if k2 > k {
                        spec_args(src, k2, (n - 1) as nat, acc.push(e))
                    } else {
                        Err(k2)
                    },
                }
            }
        },
{
    reveal(spec_base);
    reveal(spec_args);
    reveal(spec_power);
    reveal(spec_power_signs);
    reveal(spec_factor_rest);
    reveal(spec_factor);
    reveal(spec_term_rest);
    reveal(spec_term);
    reveal(spec_expr_rest);
    reveal(spec_expr);
    reveal(spec_list_rest);
    reveal(spec_list);
}

pub proof fn lemma_power_unfold(src: Src, k: nat)
    ensures
        spec_power(src, k) == {
            spec_power_signs(src, k, false)
        },
{
    reveal(spec_base);
    reveal(spec_args);
    reveal(spec_power);
    reveal(spec_power_signs);
    reveal(spec_factor_rest);
    reveal(spec_factor);
    reveal(spec_term_rest);
    reveal(spec_term);
    reveal(spec_expr_rest);
    reveal(spec_expr);
    reveal(spec_list_rest);
    reveal(spec_list);
}

pub proof fn lemma_power_signs_unfold(src: Src, k: nat, negative: bool)
    ensures
        spec_power_signs(src, k, negative) == {
            let t = tok(src, k);
            if is_op(t, Operator::Add) || is_op(t, Operator::Sub) {
                spec_power_signs(
                    src,
                    k + 1,
                    if is_op(t, Operator::Sub) {
                        !negative
                    } else {
                        negative
                    },
                )
            } else {
                match spec_base(src, k) {
                    Ok((b, k2)) => Ok((
                        if negative {
                            negation(b)
                        } else {
                            b
                        },
                        k2,
                    )),
                    Err(e) => Err(e),
                }
            }
        },
{
    reveal(spec_base);
    reveal(spec_args);
    reveal(spec_power);
    reveal(spec_power_signs);
    reveal(spec_factor_rest);
    reveal(spec_factor);
    reveal(spec_term_rest);
    reveal(spec_term);
    reveal(spec_expr_rest);
    reveal(spec_expr);
    reveal(spec_list_rest);
    reveal(spec_list);
}

pub proof fn lemma_factor_rest_unfold(src: Src, acc: SpecExpr, k: nat)
    ensures
        spec_factor_rest(src, acc, k) == {
            let t = tok(src, k);
            if is_op(t, Operator::Pow) {
                match spec_power(src, k + 1) {
                    Err(e) => Err(e),
                    Ok((p, k2)) => if k2 > k {
                        spec_factor_rest(src, binary(Operator::Pow, acc, p), k2)
                    } else {
                        Err(k2)
                    },
                }
            } else {
                Ok((acc, k))
            }
        },
{
    reveal(spec_base);
    reveal(spec_args);
    reveal(spec_power);
    reveal(spec_power_signs);
    reveal(spec_factor_rest);
    reveal(spec_factor);
    reveal(spec_term_rest);
    reveal(spec_term);
    reveal(spec_expr_rest);
    reveal(spec_expr);
    reveal(spec_list_rest);
    reveal(spec_list);
}

pub proof fn lemma_factor_unfold(src: Src, k: nat)
    ensures
        spec_factor(src, k) == {
            match spec_power(src, k) {
                Err(e) => Err(e),
                Ok((p, k2)) => if k2 >= k {
                    spec_factor_rest(src, p, k2)
                } else {
                    Err(k2)
                },
            }
        },
{
    reveal(spec_base);
    reveal(spec_args);
    reveal(spec_power);
    reveal(spec_power_signs);
    reveal(spec_factor_rest);
    reveal(spec_factor);
    reveal(spec_term_rest);
    reveal(spec_term);
    reveal(spec_expr_rest);
    reveal(spec_expr);
    reveal(spec_list_rest);
    reveal(spec_list);
}

pub proof fn lemma_term_rest_unfold(src: Src, acc: SpecExpr, k: nat)
    ensures
        spec_term_rest(src, acc, k) == {
            let t = tok(src, k);
            if is_term_op(t) {
                match spec_factor(src, k + 1) {
                    Err(e) => Err(e),
                    Ok((f, k2)) => if k2 > k {
                        spec_term_rest(
                            src,
                            SpecExpr::Call {
                                type_: TE_FUNCTION2 | TE_FLAG_PURE,
                                target: target_of(t),
                                params: seq![acc, f],
                            },
                            k2,
                        )
                    } else {
                        Err(k2)
                    },
                }
            } else {
                Ok((acc, k))
            }
        },
{
    reveal(spec_base);
    reveal(spec_args);
    reveal(spec_power);
    reveal(spec_power_signs);
    reveal(spec_factor_rest);
    reveal(spec_factor);
    reveal(spec_term_rest);
    reveal(spec_term);
    reveal(spec_expr_rest);
    reveal(spec_expr);
    reveal(spec_list_rest);
    reveal(spec_list);
}

pub proof fn lemma_term_unfold(src: Src, k: nat)
    ensures
        spec_term(src, k) == {
            match spec_factor(src, k) {
                Err(e) => Err(e),
                Ok((f, k2)) => if k2 >= k {
                    spec_term_rest(src, f, k2)
                } else {
                    Err(k2)
                },
            }
        },
{
    reveal(spec_base);
    reveal(spec_args);
    reveal(spec_power);
    reveal(spec_power_signs);
    reveal(spec_factor_rest);
    reveal(spec_factor);
    reveal(spec_term_rest);
    reveal(spec_term);
    reveal(spec_expr_rest);
    reveal(spec_expr);
    reveal(spec_list_rest);
    reveal(spec_list);
}

pub proof fn lemma_expr_rest_unfold(src: Src, acc: SpecExpr, k: nat)
    ensures
        spec_expr_rest(src, acc, k) == {
            let t = tok(src, k);
            if is_expr_op(t) {
                match spec_term(src, k + 1) {
                    Err(e) => Err(e),
                    Ok((f, k2)) => if k2 > k {
                        spec_expr_rest(
                            src,
                            SpecExpr::Call {
                                type_: TE_FUNCTION2 | TE_FLAG_PURE,
                                target: target_of(t),
                                params: seq![acc, f],
                            },
                            k2,
                        )
                    } else {
                        Err(k2)
                    },
                }
            } else {
                Ok((acc, k))
            }
        },
{
    reveal(spec_base);
    reveal(spec_args);
    reveal(spec_power);
    reveal(spec_power_signs);
    reveal(spec_factor_rest);
    reveal(spec_factor);
    reveal(spec_term_rest);
    reveal(spec_term);
    reveal(spec_expr_rest);
    reveal(spec_expr);
    reveal(spec_list_rest);
    reveal(spec_list);
}

pub proof fn lemma_expr_unfold(src: Src, k: nat)
    ensures
        spec_expr(src, k) == {
            match spec_term(src, k) {
                Err(e) => Err(e),
                Ok((f, k2)) => if k2 >= k {
                    spec_expr_rest(src, f, k2)
                } else {
                    Err(k2)
                },
            }
        },
{
    reveal(spec_base);
    reveal(spec_args);
    reveal(spec_power);
    reveal(spec_power_signs);
    reveal(spec_factor_rest);
    reveal(spec_factor);
    reveal(spec_term_rest);
    reveal(spec_term);
    reveal(spec_expr_rest);
    reveal(spec_expr);
    reveal(spec_list_rest);
    reveal(spec_list);
}

pub proof fn lemma_list_rest_unfold(src: Src, acc: SpecExpr, k: nat)
    ensures
        spec_list_rest(src, acc, k) == {
            if tok(src, k).type_ == TOK_SEP {
                match spec_expr(src, k + 1) {
                    Err(e) => Err(e),
                    Ok((f, k2)) => if k2 > k {
                        spec_list_rest(src, binary(Operator::Comma, acc, f), k2)
                    } else {
                        Err(k2)
                    },
                }
            } else {
                Ok((acc, k))
            }
        },
{
    reveal(spec_base);
    reveal(spec_args);
    reveal(spec_power);
    reveal(spec_power_signs);
    reveal(spec_factor_rest);
    reveal(spec_factor);
    reveal(spec_term_rest);
    reveal(spec_term);
    reveal(spec_expr_rest);
    reveal(spec_expr);
    reveal(spec_list_rest);
    reveal(spec_list);
}

pub proof fn lemma_list_unfold(src: Src, k: nat)
    ensures
        spec_list(src, k) == {
            match spec_expr(src, k) {
                Err(e) => Err(e),
                Ok((f, k2)) => if k2 >= k {
                    spec_list_rest(src, f, k2)
                } else {
                    Err(k2)
                },
            }
        },
{
    reveal(spec_base);
    reveal(spec_args);
    reveal(spec_power);
    reveal(spec_power_signs);
    reveal(spec_factor_rest);
    reveal(spec_factor);
    reveal(spec_term_rest);
    reveal(spec_term);
    reveal(spec_expr_rest);
    reveal(spec_expr);
    reveal(spec_list_rest);
    reveal(spec_list);
}

/// `s1` is a state reached from `s0` by reading tokens of the same expression.
pub open spec fn advanced(s0: State, s1: State) -> bool {
    &&& s1.wf()
    &&& s1.start == s0.start
    &&& s1.lookup == s0.lookup
    &&& s1.k@ >= s0.k@
}

/// The parser returned what `p` describes, and stopped at the token `p` names.
pub open spec fn outcome(s1: State, r: Option<Expr>, p: Parse) -> bool {
    match p {
        Ok((e, k2)) => r matches Some(x) && x@ == e && s1.k@ == k2,
        Err(k2) => r is None && s1.k@ == k2,
    }
}

/// Whether `t` is the operator `o`.
fn tok_is_op(t: &Token, o: Operator) -> (r: bool)
    ensures
        r == is_op(t@, o),
{
    match t.target {
        Some(Target::Op(x)) => t.type_ == TOK_INFIX && x == o,
        _ => false,
    }
}

/// What the token `t` stands for.
fn tok_target(t: &Token) -> (r: Target)
    ensures
        r == target_of(t@),
{
    match t.target {
        Some(g) => g,
        None => Target::Op(Operator::Comma),
    }
}

/// The node `g(a)` of type `t`.
fn node1(t: i32, g: Target, a: Expr) -> (r: Expr)
    ensures
        r@ == (SpecExpr::Call { type_: t, target: g, params: seq![a@] }),
{
    let mut v: Vec<Expr> = Vec::new();
    proof {
        lemma_views_push(v@, a);
        assert(views(v@) =~= Seq::<SpecExpr>::empty());
    }
    v.push(a);
    let r = Expr::new_func(t, g, v);
    assert(views(v@) =~= seq![a@]);
    r
}

/// The node `g(a, b)` of type `t`.
fn node2(t: i32, g: Target, a: Expr, b: Expr) -> (r: Expr)
    ensures
        r@ == (SpecExpr::Call { type_: t, target: g, params: seq![a@, b@] }),
{
    let mut v: Vec<Expr> = Vec::new();
    proof {
        lemma_views_push(v@, a);
        assert(views(v@) =~= Seq::<SpecExpr>::empty());
    }
    v.push(a);
    proof {
        lemma_views_push(v@, b);
    }
    v.push(b);
    let r = Expr::new_func(t, g, v);
    assert(views(v@) =~= seq![a@, b@]);
    r
}

/// Parses a `base`: a number, a variable, a call, or a parenthesised list.
#[verifier::rlimit(40)]
fn base(s: &mut State) -> (r: Option<Expr>)
    requires
        old(s).wf(),
        old(s).k@ >= 0,
    ensures
        advanced(*old(s), *final(s)),
        outcome(*final(s), r, spec_base(old(s).src(), old(s).k@ as nat)),
    decreases meas(old(s).src(), old(s).k@ as nat), 0nat, 0nat,
{
    let ghost src = s.src();
    let ghost k = s.k@ as nat;
    proof {
        lemma_base_unfold(src, k);
    }
    let t = s.tok;
    let typ = type_mask(t.type_);
    if typ == TOK_NUMBER {
        let ret = Expr::new_constant(t.start, t.end);
        next_token(s);
        Some(ret)
    } else if typ == TOK_VARIABLE {
        let index = match t.target {
            Some(Target::Lookup(i)) => i,
            _ => 0,
        };
        let ret = Expr::new_variable(index);
        next_token(s);
        Some(ret)
    } else if typ == TE_FUNCTION0 || typ == TE_CLOSURE0 {
        let g = tok_target(&t);
        next_token(s);
        if s.tok.type_ == TOK_OPEN {
            next_token(s);
            if s.tok.type_ != TOK_CLOSE {
                return None;
            }
            next_token(s);
        }
        let ret = Expr::new_func(t.type_, g, Vec::new());
        assert(views(Seq::<Expr>::empty()) =~= Seq::<SpecExpr>::empty());
        Some(ret)
    } else if typ == TE_FUNCTION1 || typ == TE_CLOSURE1 {
        let g = tok_target(&t);
        next_token(s);
        proof {
            lemma_not_end(src, k);
        }
        match power(s) {
            Some(p) => Some(node1(t.type_, g, p)),
            None => None,
        }
    } else if (TE_FUNCTION2 <= typ && typ <= TE_FUNCTION7) || (TE_CLOSURE2 <= typ && typ
        <= TE_CLOSURE7) {
        let g = tok_target(&t);
        let ar = arity(t.type_);
        next_token(s);
        if s.tok.type_ != TOK_OPEN {
            return None;
        }
        proof {
            lemma_not_end(src, k);
        }
        let ghost s0 = *old(s);
        let mut params: Vec<Expr> = Vec::new();
        assert(views(params@) =~= Seq::<SpecExpr>::empty());
        let mut i: i32 = 0;
        while i < ar
            invariant
                advanced(s0, *s),
                s0 == *old(s),
                src == s.src(),
                s0.src() == src,
                k == s0.k@,
                0 <= i <= ar,
                ar == spec_arity(t.type_),
                s.k@ >= k + 1,
                meas(src, k + 1) < meas(src, k),
                spec_base(src, k) == match spec_args(src, k + 1, ar as nat, seq![]) {
                    Ok((ps, k2)) => Ok((call_of(t@, ps), k2)),
                    Err(e) => Err(e),
                },
                spec_args(src, k + 1, ar as nat, seq![]) == spec_args(
                    src,
                    s.k@ as nat,
                    (ar - i) as nat,
                    views(params@),
                ),
            decreases ar - i,
        {
            let ghost kc = s.k@ as nat;
            proof {
                lemma_args_unfold(src, kc, (ar - i) as nat, views(params@));
            }
            next_token(s);
            proof {
                lemma_meas_step(src, kc);
                lemma_meas_mono(src, k + 1, kc);
            }
            let e = match expr(s) {
                Some(e) => e,
                None => return None,
            };
            proof {
                lemma_views_push(params@, e);
            }
            params.push(e);
            if i + 1 < ar && s.tok.type_ != TOK_SEP {
                return None;
            }
            i = i + 1;
        }
        proof {
            lemma_args_unfold(src, s.k@ as nat, 0, views(params@));
        }
        if s.tok.type_ != TOK_CLOSE {
            return None;
        }
        next_token(s);
        Some(Expr::new_func(t.type_, g, params))
    } else if typ == TOK_OPEN {
        next_token(s);
        proof {
            lemma_not_end(src, k);
        }
        let ret = match list(s) {
            Some(e) => e,
            None => return None,
        };
        if s.tok.type_ != TOK_CLOSE {
            return None;
        }
        next_token(s);
        Some(ret)
    } else {
        None
    }
}

/// Parses a `power`: any run of `+` and `-` signs, then a base.
#[verifier::rlimit(40)]
fn power(s: &mut State) -> (r: Option<Expr>)
    requires
        old(s).wf(),
        old(s).k@ >= 0,
    ensures
        advanced(*old(s), *final(s)),
        outcome(*final(s), r, spec_power(old(s).src(), old(s).k@ as nat)),
    decreases meas(old(s).src(), old(s).k@ as nat), 2nat, 0nat,
{
    let ghost src = s.src();
    let ghost k = s.k@ as nat;
    proof {
        lemma_power_unfold(src, k);
        lemma_power_signs_unfold(src, k, false);
    }
    let ghost s0 = *old(s);
    let mut sign: i32 = 1;
    while tok_is_op(&s.tok, Operator::Add) || tok_is_op(&s.tok, Operator::Sub)
        invariant
            advanced(s0, *s),
            s0 == *old(s),
            src == s.src(),
            s0.src() == src,
            k == s0.k@,
            sign == 1 || sign == -1,
            meas(src, s.k@ as nat) <= meas(src, k),
            spec_power(src, k) == spec_power_signs(src, s.k@ as nat, sign == -1),
        decreases meas(src, s.k@ as nat),
    {
        let ghost kc = s.k@ as nat;
        proof {
            lemma_power_signs_unfold(src, kc, sign == -1);
        }
        if tok_is_op(&s.tok, Operator::Sub) {
            sign = -sign;
        }
        proof {
            lemma_not_end(src, kc);
        }
        next_token(s);
    }
    proof {
        lemma_power_signs_unfold(src, s.k@ as nat, sign == -1);
    }
    let b = match base(s) {
        Some(b) => b,
        None => return None,
    };
    if sign == 1 {
        Some(b)
    } else {
        Some(node1(TE_FUNCTION1 | TE_FLAG_PURE, Target::Op(Operator::Negate), b))
    }
}

/// Parses a `factor`: powers joined by `^`, grouped to the left.
#[verifier::rlimit(40)]
fn factor(s: &mut State) -> (r: Option<Expr>)
    requires
        old(s).wf(),
        old(s).k@ >= 0,
    ensures
        advanced(*old(s), *final(s)),
        outcome(*final(s), r, spec_factor(old(s).src(), old(s).k@ as nat)),
    decreases meas(old(s).src(), old(s).k@ as nat), 4nat, 0nat,
{
    let ghost src = s.src();
    let ghost k = s.k@ as nat;
    proof {
        lemma_factor_unfold(src, k);
    }
    let ghost s0 = *old(s);
    let mut ret = match power(s) {
        Some(p) => p,
        None => return None,
    };
    proof {
        lemma_meas_mono(src, k, s.k@ as nat);
    }
    while tok_is_op(&s.tok, Operator::Pow)
        invariant
            advanced(s0, *s),
            s0 == *old(s),
            src == s.src(),
            s0.src() == src,
            k == s0.k@,
            meas(src, s.k@ as nat) <= meas(src, k),
            spec_factor(src, k) == spec_factor_rest(src, ret@, s.k@ as nat),
        decreases meas(src, s.k@ as nat),
    {
        let ghost kc = s.k@ as nat;
        proof {
            lemma_factor_rest_unfold(src, ret@, kc);
        }
        next_token(s);
        proof {
            lemma_not_end(src, kc);
        }
        let p = match power(s) {
            Some(p) => p,
            None => return None,
        };
        proof {
            lemma_meas_mono(src, kc + 1, s.k@ as nat);
        }
        ret = node2(TE_FUNCTION2 | TE_FLAG_PURE, Target::Op(Operator::Pow), ret, p);
    }
    proof {
        lemma_factor_rest_unfold(src, ret@, s.k@ as nat);
    }
    Some(ret)
}

/// Parses a `term`: factors joined by `*`, `/` and `%`.
#[verifier::rlimit(40)]
fn term(s: &mut State) -> (r: Option<Expr>)
    requires
        old(s).wf(),
        old(s).k@ >= 0,
    ensures
        advanced(*old(s), *final(s)),
        outcome(*final(s), r, spec_term(old(s).src(), old(s).k@ as nat)),
    decreases meas(old(s).src(), old(s).k@ as nat), 6nat, 0nat,
{
    let ghost src = s.src();
    let ghost k = s.k@ as nat;
    proof {
        lemma_term_unfold(src, k);
    }
    let ghost s0 = *old(s);
    let mut ret = match factor(s) {
        Some(p) => p,
        None => return None,
    };
    proof {
        lemma_meas_mono(src, k, s.k@ as nat);
    }
    while tok_is_op(&s.tok, Operator::Mul) || tok_is_op(&s.tok, Operator::Divide) || tok_is_op(
        &s.tok,
        Operator::Fmod,
    )
        invariant
            advanced(s0, *s),
            s0 == *old(s),
            src == s.src(),
            s0.src() == src,
            k == s0.k@,
            meas(src, s.k@ as nat) <= meas(src, k),
            spec_term(src, k) == spec_term_rest(src, ret@, s.k@ as nat),
        decreases meas(src, s.k@ as nat),
    {
        let ghost kc = s.k@ as nat;
        proof {
            lemma_term_rest_unfold(src, ret@, kc);
        }
        let g = tok_target(&s.tok);
        next_token(s);
        proof {
            lemma_not_end(src, kc);
        }
        let f = match factor(s) {
            Some(f) => f,
            None => return None,
        };
        proof {
            lemma_meas_mono(src, kc + 1, s.k@ as nat);
        }
        ret = node2(TE_FUNCTION2 | TE_FLAG_PURE, g, ret, f);
    }
    proof {
        lemma_term_rest_unfold(src, ret@, s.k@ as nat);
    }
    Some(ret)
}

/// Parses an `expr`: terms joined by `+` and `-`.
#[verifier::rlimit(40)]
fn expr(s: &mut State) -> (r: Option<Expr>)
    requires
        old(s).wf(),
        old(s).k@ >= 0,
    ensures
        advanced(*old(s), *final(s)),
        outcome(*final(s), r, spec_expr(old(s).src(), old(s).k@ as nat)),
    decreases meas(old(s).src(), old(s).k@ as nat), 8nat, 0nat,
{
    let ghost src = s.src();
    let ghost k = s.k@ as nat;
    proof {
        lemma_expr_unfold(src, k);
    }
    let ghost s0 = *old(s);
    let mut ret = match term(s) {
        Some(p) => p,
        None => return None,
    };
    proof {
        lemma_meas_mono(src, k, s.k@ as nat);
    }
    while tok_is_op(&s.tok, Operator::Add) || tok_is_op(&s.tok, Operator::Sub)
        invariant
            advanced(s0, *s),
            s0 == *old(s),
            src == s.src(),
            s0.src() == src,
            k == s0.k@,
            meas(src, s.k@ as nat) <= meas(src, k),
            spec_expr(src, k) == spec_expr_rest(src, ret@, s.k@ as nat),
        decreases meas(src, s.k@ as nat),
    {
        let ghost kc = s.k@ as nat;
        proof {
            lemma_expr_rest_unfold(src, ret@, kc);
        }
        let g = tok_target(&s.tok);
        next_token(s);
        proof {
            lemma_not_end(src, kc);
        }
        let te = match term(s) {
            Some(f) => f,
            None => return None,
        };
        proof {
            lemma_meas_mono(src, kc + 1, s.k@ as nat);
        }
        ret = node2(TE_FUNCTION2 | TE_FLAG_PURE, g, ret, te);
    }
    proof {
        lemma_expr_rest_unfold(src, ret@, s.k@ as nat);
    }
    Some(ret)
}

/// Parses a `list`: exprs joined by `,`.
#[verifier::rlimit(40)]
fn list(s: &mut State) -> (r: Option<Expr>)
    requires
        old(s).wf(),
        old(s).k@ >= 0,
    ensures
        advanced(*old(s), *final(s)),
        outcome(*final(s), r, spec_list(old(s).src(), old(s).k@ as nat)),
    decreases meas(old(s).src(), old(s).k@ as nat), 10nat, 0nat,
{
    let ghost src = s.src();
    let ghost k = s.k@ as nat;
    proof {
        lemma_list_unfold(src, k);
    }
    let ghost s0 = *old(s);
    let mut ret = match expr(s) {
        Some(p) => p,
        None => return None,
    };
    proof {
        lemma_meas_mono(src, k, s.k@ as nat);
    }
    while s.tok.type_ == TOK_SEP
        invariant
            advanced(s0, *s),
            s0 == *old(s),
            src == s.src(),
            s0.src() == src,
            k == s0.k@,
            meas(src, s.k@ as nat) <= meas(src, k),
            spec_list(src, k) == spec_list_rest(src, ret@, s.k@ as nat),
        decreases meas(src, s.k@ as nat),
    {
        let ghost kc = s.k@ as nat;
        proof {
            lemma_list_rest_unfold(src, ret@, kc);
        }
        next_token(s);
        proof {
            lemma_not_end(src, kc);
        }
        let e = match expr(s) {
            Some(f) => f,
            None => return None,
        };
        proof {
            lemma_meas_mono(src, kc + 1, s.k@ as nat);
        }
        ret = node2(TE_FUNCTION2 | TE_FLAG_PURE, Target::Op(Operator::Comma), ret, e);
    }
    proof {
        lemma_list_rest_unfold(src, ret@, s.k@ as nat);
    }
    Some(ret)
}

/// `r` is the result `p` describes, with the tree given by its view.
pub open spec fn result_is(r: Result<Box<Expr>, i32>, p: Result<SpecExpr, i32>) -> bool {
    match p {
        Ok(e) => r matches Ok(x) && x@ == e,
        Err(c) => r == Err::<Box<Expr>, i32>(c),
    }
}

/// The bytes and bindings an expression is read from.
pub open spec fn source(expression: &str, variables: &[TeVariable]) -> Src {
    Src { bytes: expression.spec_bytes(), vars: variables@ }
}

/// Parses `expression` with the bindings `variables` into a tree, or
/// reports the 1-based position of the first error.  Nothing is folded
/// here; `crate::te_compile` folds the tree this returns.
pub fn te_compile(expression: &str, variables: &[TeVariable]) -> (r: Result<Box<Expr>, i32>)
    ensures
        result_is(r, spec_parse(source(expression, variables))),
{
    let mut s = State::new(expression, variables);
    next_token(&mut s);
    let root = list(&mut s);
    match root {
        Some(r) => {
            if s.tok.type_ != TOK_END {
                Err(error_code(s.tok.end))
            } else {
                Ok(Box::new(r))
            }
        },
        None => Err(error_code(s.tok.end)),
    }
}

fn error_code(next: usize) -> (r: i32)
    ensures
        r == (if next == 0 {
            1
        } else {
            next as i32
        }),
{
    if next == 0 {
        1
    } else {
        next as i32
    }
}

} // verus!
