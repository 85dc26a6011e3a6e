//! Properties of the library as a whole.
use vstd::prelude::*;
use vstd::string::StringSliceAdditionalSpecFns;
use crate::ast::{is_known, Operator, SpecExpr, Target};
use crate::functions::{
    binom, builtin_bytes, spec_factorial, lemma_binom_symmetric, lemma_find_builtin_unique, ncr_fits,
    ncr_side, spec_find_builtin, BUILTIN_COUNT,
};
use crate::lexer::{classify, ident_end, is_alpha, lemma_tok_bounds, next_tok, spec_find_lookup, tok, Src};
use crate::optimizer::{fold_args, known_prefix, lemma_fold_args, optimized};
use crate::parser::{
    is_op, lemma_power_signs_unfold, lemma_power_unfold, negation, spec_base, spec_parse, spec_power,
    spec_power_signs,
};
use crate::spec_compile;
use crate::validity::{lemma_parse_valid, valid_expr};

verus! {

/// Folding is idempotent: folding an already folded tree changes nothing.
pub proof fn law_fold_idempotent(e: SpecExpr)
    ensures
        optimized(optimized(e)) == optimized(e),
    decreases e,
{
    if let SpecExpr::Call { type_, target, params } = e {
        if crate::token::spec_is_pure(type_) {
            let n = crate::token::spec_arity(type_);
            let ps = fold_args(params, n);
            lemma_fold_args(params, n);
            lemma_fold_args(ps, n);
            assert forall|i: int| 0 <= i < ps.len() implies #[trigger] fold_args(ps, n)[i] == ps[i] by {
                if i < n {
                    law_fold_idempotent(params[i]);
                }
            }
            assert(fold_args(ps, n) =~= ps);
            if !known_prefix(ps, n) {
                assert(optimized(SpecExpr::Call { type_, target, params: ps }) == SpecExpr::Call {
                    type_,
                    target,
                    params: ps,
                });
            }
        }
    }
}

/// No pure call is left whose arguments are all known: every such call in
/// the folded tree has been folded, except inside calls that are not pure,
/// whose arguments folding leaves as they are.
pub open spec fn fully_folded(e: SpecExpr) -> bool
    decreases e,
{
    match e {
        SpecExpr::Call { type_, params, .. } => crate::token::spec_is_pure(type_) ==> {
            let n = crate::token::spec_arity(type_);
            &&& !known_prefix(params, n)
            &&& forall|i: int| 0 <= i < n && i < params.len() ==> fully_folded(#[trigger] params[i])
        },
        _ => true,
    }
}

/// Folding is complete: what it leaves has nothing more to fold.
pub proof fn law_fold_complete(e: SpecExpr)
    ensures
        fully_folded(optimized(e)),
    decreases e,
{
    if let SpecExpr::Call { type_, target, params } = e {
        if crate::token::spec_is_pure(type_) {
            let n = crate::token::spec_arity(type_);
            let ps = fold_args(params, n);
            lemma_fold_args(params, n);
            assert forall|i: int| 0 <= i < n && i < ps.len() implies fully_folded(#[trigger] ps[i]) by {
                law_fold_complete(params[i]);
            }
        }
    }
}

/// The computation a tree describes, with every folded node replaced by
/// the call it stands for.
pub open spec fn unfolded(e: SpecExpr) -> SpecExpr
    decreases e,
{
    match e {
        SpecExpr::Call { type_, target, params } => SpecExpr::Call {
            type_,
            target,
            params: unfolded_all(params),
        },
        SpecExpr::Folded { inner } => unfolded(*inner),
        _ => e,
    }
}

/// Each of `ps` unfolded.
pub open spec fn unfolded_all(ps: Seq<SpecExpr>) -> Seq<SpecExpr>
    decreases ps,
{
    if ps.len() == 0 {
        Seq::empty()
    } else {
        unfolded_all(ps.drop_last()).push(unfolded(ps.last()))
    }
}

proof fn lemma_unfolded_all(ps: Seq<SpecExpr>)
    ensures
        unfolded_all(ps).len() == ps.len(),
        forall|i: int| 0 <= i < ps.len() ==> #[trigger] unfolded_all(ps)[i] == unfolded(ps[i]),
    decreases ps.len(),
{
    if ps.len() > 0 {
        lemma_unfolded_all(ps.drop_last());
    }
}

/// Folding only marks the parts whose value is known: the computation the
/// tree describes is unchanged.
pub proof fn law_fold_keeps_computation(e: SpecExpr)
    ensures
        unfolded(optimized(e)) == unfolded(e),
    decreases e,
{
    if let SpecExpr::Call { type_, target, params } = e {
        if crate::token::spec_is_pure(type_) {
            let n = crate::token::spec_arity(type_);
            let ps = fold_args(params, n);
            lemma_fold_args(params, n);
            assert forall|i: int| 0 <= i < ps.len() implies #[trigger] unfolded(ps[i]) == unfolded(params[i]) by {
                if i < n {
                    law_fold_keeps_computation(params[i]);
                }
            }
            lemma_unfolded_all(ps);
            lemma_unfolded_all(params);
            assert(unfolded_all(ps) =~= unfolded_all(params));
            let c = SpecExpr::Call { type_, target, params: ps };
            assert(unfolded(c) == unfolded(e));
            if known_prefix(ps, n) {
                assert(optimized(e) == SpecExpr::Folded { inner: Box::new(c) });
                assert(unfolded(SpecExpr::Folded { inner: Box::new(c) }) == unfolded(c));
            } else {
                assert(optimized(e) == c);
            }
        }
    }
}

/// Without caller bindings every call in a valid tree is pure, so folding
/// leaves one known value.
proof fn lemma_closed_tree_folds(src: Src, e: SpecExpr)
    requires
        src.vars.len() == 0,
        valid_expr(src, e),
    ensures
        is_known(optimized(e)),
    decreases e,
{
    if let SpecExpr::Call { type_, target, params } = e {
        match target {
            Target::Op(o) => crate::token::lemma_operator_types(),
            Target::Builtin(j) => crate::functions::lemma_builtin_type(j as int),
            Target::Lookup(i) => {},
        }
        let n = crate::token::spec_arity(type_);
        lemma_fold_args(params, n);
        assert forall|i: int| 0 <= i < n && i < params.len() implies is_known(
            #[trigger] fold_args(params, n)[i],
        ) by {
            lemma_closed_tree_folds(src, params[i]);
        }
        assert(known_prefix(fold_args(params, n), n));
    }
}

/// An expression compiled without caller bindings folds to a single known
/// value: its root is a constant or a folded node.
pub proof fn law_closed_expressions_fold_to_a_value(src: Src)
    requires
        src.vars.len() == 0,
    ensures
        spec_compile(src) matches Ok(e) ==> is_known(e),
{
    lemma_parse_valid(src);
    if let Ok(e) = spec_parse(src) {
        lemma_closed_tree_folds(src, e);
    }
}

/// Whether token `i` is a sign: `+` or `-`.
pub open spec fn is_sign(src: Src, i: nat) -> bool {
    is_op(tok(src, i), Operator::Add) || is_op(tok(src, i), Operator::Sub)
}

/// How many of the `m` tokens from token `k` are `-`.
pub open spec fn minus_count(src: Src, k: nat, m: nat) -> nat
    decreases m,
{
    if m == 0 {
        0
    } else {
        (if is_op(tok(src, k), Operator::Sub) { 1nat } else { 0nat }) + minus_count(src, k + 1, (m - 1) as nat)
    }
}

/// The base read after `m` signs, negated once when `negative`.
pub open spec fn signed_base(src: Src, k: nat, m: nat, negative: bool) -> crate::parser::Parse {
    match spec_base(src, k + m) {
        Ok((b, k2)) => Ok((if negative { negation(b) } else { b }, k2)),
        Err(e) => Err(e),
    }
}

proof fn lemma_signs(src: Src, k: nat, m: nat, negative: bool)
    requires
        forall|i: nat| k <= i < k + m ==> is_sign(src, i),
        !is_sign(src, k + m),
    ensures
        spec_power_signs(src, k, negative) == signed_base(
            src,
            k,
            m,
            negative != (minus_count(src, k, m) % 2 == 1),
        ),
    decreases m,
{
    lemma_power_signs_unfold(src, k, negative);
    if m > 0 {
        assert(is_sign(src, k));
        let neg2 = if is_op(tok(src, k), Operator::Sub) { !negative } else { negative };
        assert forall|i: nat| k + 1 <= i < k + 1 + (m - 1) as nat implies is_sign(src, i) by {}
        lemma_signs(src, k + 1, (m - 1) as nat, neg2);
        assert(k + 1 + (m - 1) as nat == k + m);
    }
}

/// Any run of signs before a base folds into at most one negation: the base
/// is negated exactly when an odd number of the signs are `-`.
pub proof fn law_signs_fold_to_one_negation(src: Src, k: nat, m: nat)
    requires
        forall|i: nat| k <= i < k + m ==> is_sign(src, i),
        !is_sign(src, k + m),
    ensures
        spec_power(src, k) == signed_base(src, k, m, minus_count(src, k, m) % 2 == 1),
{
    lemma_power_unfold(src, k);
    lemma_signs(src, k, m, false);
}

/// A failed compilation reports a position within the expression: at least
/// 1, and at most its length (or 1 for an empty expression).
pub proof fn law_error_position_in_range(src: Src)
    requires
        src.bytes.len() <= i32::MAX,
    ensures
        spec_compile(src) matches Err(c) ==> 1 <= c && (c <= src.bytes.len() || c == 1),
{
    match crate::parser::spec_list(src, 0) {
        Ok((e, k)) => lemma_tok_bounds(src, k),
        Err(k) => lemma_tok_bounds(src, k),
    }
}

/// A name the caller binds stands for the first binding of that name, even
/// where it is also the name of a built-in function.
pub proof fn law_binding_shadows_builtin(src: Src, p: int, i: usize)
    requires
        0 <= p < src.bytes.len(),
        is_alpha(src.bytes[p]),
        spec_find_lookup(src.vars, src.bytes.subrange(p, ident_end(src.bytes, p + 1))) == Some(i),
    ensures
        next_tok(src, p) == classify(
            src.vars[i as int].type_,
            Target::Lookup(i),
            p,
            ident_end(src.bytes, p + 1),
        ),
{
    reveal(next_tok);
}

/// The built-in names are distinct, so a name finds the one built-in that
/// bears it, and only a built-in's name finds anything.
pub proof fn law_find_builtin_exact(name: Seq<u8>, j: usize)
    ensures
        spec_find_builtin(name) == Some(j) <==> (j < BUILTIN_COUNT && builtin_bytes(j as int) == name),
{
    if j < BUILTIN_COUNT && builtin_bytes(j as int) == name {
        lemma_find_builtin_unique(name, j as int);
    }
}

/// C(n, r) and C(n, n - r) agree, and so does whether `binomial` can
/// compute them.
pub proof fn law_binomial_symmetric(n: nat, r: nat)
    requires
        r <= n,
    ensures
        binom(n, r) == binom(n, (n - r) as nat),
        ncr_fits(n, r) == ncr_fits(n, (n - r) as nat),
{
    lemma_binom_symmetric(n, r);
    assert(ncr_side(n, r) == ncr_side(n, (n - r) as nat));
}


/// A tree whose value depends on nothing that can change: no variable is
/// read and every call (over the arguments its arity counts) is pure.
pub open spec fn closed(e: SpecExpr) -> bool
    decreases e,
{
    match e {
        SpecExpr::Constant { .. } => true,
        SpecExpr::Variable { .. } => false,
        SpecExpr::Call { type_, params, .. } => {
            &&& crate::token::spec_is_pure(type_)
            &&& forall|i: int|
                0 <= i < crate::token::spec_arity(type_) && i < params.len() ==> closed(#[trigger] params[i])
        },
        SpecExpr::Folded { inner } => closed(*inner),
    }
}

/// Every folded node of `e` is closed.
pub open spec fn folds_closed(e: SpecExpr) -> bool
    decreases e,
{
    match e {
        SpecExpr::Folded { inner } => closed(*inner),
        SpecExpr::Call { params, .. } => forall|i: int| 0 <= i < params.len() ==> folds_closed(#[trigger] params[i]),
        _ => true,
    }
}

/// Folding only ever folds what depends on nothing that can change: when
/// every folded node of a tree is closed, so is every folded node of the
/// folded tree.  A call reading a variable, or calling something that is
/// not pure, is never folded.
pub proof fn law_folded_nodes_are_closed(e: SpecExpr)
    requires
        folds_closed(e),
    ensures
        folds_closed(optimized(e)),
    decreases e,
{
    if let SpecExpr::Call { type_, target, params } = e {
        if crate::token::spec_is_pure(type_) {
            let n = crate::token::spec_arity(type_);
            let ps = fold_args(params, n);
            lemma_fold_args(params, n);
            assert forall|i: int| 0 <= i < ps.len() implies folds_closed(#[trigger] ps[i]) by {
                if i < n {
                    law_folded_nodes_are_closed(params[i]);
                }
            }
            if known_prefix(ps, n) {
                assert forall|i: int| 0 <= i < n && i < ps.len() implies closed(#[trigger] ps[i]) by {
                    law_folded_nodes_are_closed(params[i]);
                    assert(is_known(ps[i]));
                }
                assert(closed(SpecExpr::Call { type_, target, params: ps }));
            }
        }
    }
}

/// A node reading a variable is never part of a folded node: folding a
/// pure call with a variable among the arguments its arity counts leaves a
/// call, not a folded node.
pub proof fn law_calls_reading_variables_are_not_folded(type_: i32, target: Target, params: Seq<SpecExpr>, i: int)
    requires
        crate::token::spec_is_pure(type_),
        0 <= i < crate::token::spec_arity(type_),
        i < params.len(),
        params[i] is Variable,
    ensures
        optimized(SpecExpr::Call { type_, target, params }) is Call,
{
    lemma_fold_args(params, crate::token::spec_arity(type_));
    assert(!is_known(fold_args(params, crate::token::spec_arity(type_))[i]));
}

/// `binomial` succeeds exactly when every intermediate product of the
/// multiplicative evaluation of C(n, r) fits in 64 bits: with
/// s = min(r, n - r), when s = 0 or s * C(n, s) <= 2^64 - 1.
pub proof fn law_binomial_succeeds_when_products_fit(n: nat, r: nat)
    requires
        r <= n,
    ensures
        ncr_fits(n, r) <==> {
            let s = if r <= n - r { r } else { (n - r) as nat };
            s == 0 || s * binom(n, s) <= 18446744073709551615
        },
{
    let s = if r <= n - r { r } else { (n - r) as nat };
    if ncr_side(n, r) != s {
        // Both are r or n - r; they differ only when r == n - r.
        lemma_binom_symmetric(n, r);
    }
}

/// The end of the run of name characters (ASCII letters, digits and `_`)
/// starting at `i`.
pub open spec fn name_run_end(b: Seq<u8>, i: int) -> int
    decreases b.len() - i,
{
    if 0 <= i < b.len() && ((97 <= b[i] <= 122) || (65 <= b[i] <= 90) || (48 <= b[i] <= 57) || b[i] == 95) {
        name_run_end(b, i + 1)
    } else {
        i
    }
}

proof fn lemma_name_run_end(b: Seq<u8>, i: int)
    requires
        0 <= i,
    ensures
        ident_end(b, i) == name_run_end(b, i),
    decreases b.len() - i,
{
    if i < b.len() {
        lemma_name_run_end(b, i + 1);
    }
}

/// The token a name bound with type `t` stands for, over `p..e`: a
/// variable for variable kind (kind bits 0), a call of that type for a
/// function or closure kind (kind bits 8 to 23), an error otherwise.
pub open spec fn bound_name_token(t: i32, target: Target, p: int, e: int) -> crate::lexer::SpecTok {
    let kind = t & 31;
    if kind == 0 {
        crate::lexer::SpecTok { type_: crate::token::TOK_VARIABLE, start: p, end: e, target: Some(target) }
    } else if 8 <= kind <= 23 {
        crate::lexer::SpecTok { type_: t, start: p, end: e, target: Some(target) }
    } else {
        crate::lexer::SpecTok { type_: crate::token::TOK_ERROR, start: p, end: e, target: None }
    }
}

/// Every ASCII letter, lower or upper case, starts a name: the token at a
/// letter covers the whole run of letters, digits and underscores, and is
/// resolved through the caller's bindings first (the first binding of the
/// name wins), then the built-ins; a name bound nowhere is an error.
pub proof fn law_letters_start_names(src: Src, p: int)
    requires
        0 <= p < src.bytes.len(),
        (97 <= src.bytes[p] <= 122) || (65 <= src.bytes[p] <= 90),
    ensures
        next_tok(src, p) == ({
            let e = name_run_end(src.bytes, p + 1);
            let name = src.bytes.subrange(p, e);
            match spec_find_lookup(src.vars, name) {
                Some(i) => bound_name_token(src.vars[i as int].type_, Target::Lookup(i), p, e),
                None => match spec_find_builtin(name) {
                    Some(j) => bound_name_token(crate::functions::builtin_spec_type(j as int), Target::Builtin(j), p, e),
                    None => crate::lexer::SpecTok { type_: crate::token::TOK_ERROR, start: p, end: e, target: None },
                },
            }
        }),
{
    reveal(next_tok);
    lemma_name_run_end(src.bytes, p + 1);
    let e = name_run_end(src.bytes, p + 1);
    let name = src.bytes.subrange(p, e);
    match spec_find_lookup(src.vars, name) {
        Some(i) => lemma_classify_resolves(src.vars[i as int].type_, Target::Lookup(i), p, e),
        None => match spec_find_builtin(name) {
            Some(j) => lemma_classify_resolves(crate::functions::builtin_spec_type(j as int), Target::Builtin(j), p, e),
            None => {},
        },
    }
}

proof fn lemma_classify_resolves(t: i32, target: Target, p: int, e: int)
    ensures
        classify(t, target, p, e) == bound_name_token(t, target, p, e),
{
}

/// The first binding of a name: `spec_find_lookup` finds binding `i` exactly
/// when binding `i` has that name and no earlier one does, and finds nothing
/// exactly when no binding has it.
pub proof fn law_first_binding_of_a_name(vars: Seq<crate::ast::TeVariable>, name: Seq<u8>)
    requires
        vars.len() <= usize::MAX,
    ensures
        forall|i: usize| spec_find_lookup(vars, name) == Some(i) <==> {
            &&& i < vars.len()
            &&& vars[i as int].name.spec_bytes() == name
            &&& forall|j: int| 0 <= j < i ==> #[trigger] vars[j].name.spec_bytes() != name
        },
        spec_find_lookup(vars, name) is None <==> forall|j: int| 0 <= j < vars.len() ==> #[trigger] vars[j].name.spec_bytes() != name,
{
    lemma_find_lookup_from(vars, name, 0);
}

proof fn lemma_find_lookup_from(vars: Seq<crate::ast::TeVariable>, name: Seq<u8>, k: nat)
    requires
        k <= vars.len() <= usize::MAX,
        forall|j: int| 0 <= j < k ==> #[trigger] vars[j].name.spec_bytes() != name,
    ensures
        forall|i: usize| crate::lexer::find_lookup_from(vars, name, k) == Some(i) <==> {
            &&& i < vars.len()
            &&& vars[i as int].name.spec_bytes() == name
            &&& forall|j: int| 0 <= j < i ==> #[trigger] vars[j].name.spec_bytes() != name
        },
        crate::lexer::find_lookup_from(vars, name, k) is None <==> forall|j: int| 0 <= j < vars.len() ==> #[trigger] vars[j].name.spec_bytes() != name,
    decreases vars.len() - k,
{
    if k < vars.len() {
        if vars[k as int].name.spec_bytes() != name {
            lemma_find_lookup_from(vars, name, k + 1);
        } else {
            assert forall|i: usize| ({
                &&& i < vars.len()
                &&& vars[i as int].name.spec_bytes() == name
                &&& forall|j: int| 0 <= j < i ==> #[trigger] vars[j].name.spec_bytes() != name
            }) implies crate::lexer::find_lookup_from(vars, name, k) == Some(i) by {
                if i > k {
                    assert(vars[k as int].name.spec_bytes() != name);
                } else if i < k {
                    assert(vars[i as int].name.spec_bytes() != name);
                }
            }
        }
    }
}

/// C(n, r) counts what it should: C(n, r) * r! * (n - r)! == n!.
pub proof fn law_binomial_is_factorial_quotient(n: nat, r: nat)
    requires
        r <= n,
    ensures
        binom(n, r) * crate::functions::spec_factorial(r) * crate::functions::spec_factorial((n - r) as nat)
            == crate::functions::spec_factorial(n),
    decreases n,
{
    if r == 0 {
        crate::functions::lemma_binom_full(n);
        assert((n - r) as nat == n);
        assert(spec_factorial(0) == 1);
        let f = spec_factorial(n);
        assert(1 * 1 * f == f) by (nonlinear_arith);
    } else {
        law_binomial_is_factorial_quotient((n - 1) as nat, (r - 1) as nat);
        crate::functions::lemma_binom_absorb(n, r);
        let c = binom(n, r);
        let c1 = binom((n - 1) as nat, (r - 1) as nat);
        let fr1 = spec_factorial((r - 1) as nat);
        let fnr = spec_factorial((n - r) as nat);
        let fn1 = spec_factorial((n - 1) as nat);
        assert(((n - 1) - (r - 1)) as nat == (n - r) as nat);
        assert(spec_factorial(r) == r * fr1);
        assert(spec_factorial(n) == n * fn1);
        assert(c * (r * fr1) * fnr == n * fn1) by (nonlinear_arith)
            requires
                r * c == n * c1,
                c1 * fr1 * fnr == fn1;
        assert(c * spec_factorial(r) * fnr == c * (r * fr1) * fnr);
    }
}

} // verus!
