//! The table of built-in functions, its lookup, and the exact integer
//! cores of the combinatoric built-ins.
use vstd::prelude::*;
use vstd::string::StringSliceAdditionalSpecFns;
use crate::token::{TE_FUNCTION0, TE_FUNCTION1, TE_FUNCTION2, TE_FLAG_PURE};

verus! {

broadcast use vstd::string::is_ascii_spec_bytes;

/// Number of entries in the built-in table.
pub const BUILTIN_COUNT: usize = 24;

/// Names of the built-in functions, in strictly increasing byte order.
pub open spec fn builtin_chars(i: int) -> Seq<char> {
    if i == 0 { seq!['a', 'b', 's'] }
    else if i == 1 { seq!['a', 'c', 'o', 's'] }
    else if i == 2 { seq!['a', 's', 'i', 'n'] }
    else if i == 3 { seq!['a', 't', 'a', 'n'] }
    else if i == 4 { seq!['a', 't', 'a', 'n', '2'] }
    else if i == 5 { seq!['c', 'e', 'i', 'l'] }
    else if i == 6 { seq!['c', 'o', 's'] }
    else if i == 7 { seq!['c', 'o', 's', 'h'] }
    else if i == 8 { seq!['e'] }
    else if i == 9 { seq!['e', 'x', 'p'] }
    else if i == 10 { seq!['f', 'a', 'c'] }
    else if i == 11 { seq!['f', 'l', 'o', 'o', 'r'] }
    else if i == 12 { seq!['l', 'n'] }
    else if i == 13 { seq!['l', 'o', 'g'] }
    else if i == 14 { seq!['l', 'o', 'g', '1', '0'] }
    else if i == 15 { seq!['n', 'c', 'r'] }
    else if i == 16 { seq!['n', 'p', 'r'] }
    else if i == 17 { seq!['p', 'i'] }
    else if i == 18 { seq!['p', 'o', 'w'] }
    else if i == 19 { seq!['s', 'i', 'n'] }
    else if i == 20 { seq!['s', 'i', 'n', 'h'] }
    else if i == 21 { seq!['s', 'q', 'r', 't'] }
    else if i == 22 { seq!['t', 'a', 'n'] }
    else { seq!['t', 'a', 'n', 'h'] }
}

/// The bytes of the name of built-in `i`.
pub open spec fn builtin_bytes(i: int) -> Seq<u8> {
    Seq::new(builtin_chars(i).len(), |j: int| builtin_chars(i)[j] as u8)
}

/// The type of built-in `i`: every built-in is a pure function of arity 0, 1 or 2.
pub open spec fn builtin_spec_type(i: int) -> i32 {
    if i == 8 || i == 17 {
        TE_FUNCTION0 | TE_FLAG_PURE
    } else if i == 4 || i == 15 || i == 16 || i == 18 {
        TE_FUNCTION2 | TE_FLAG_PURE
    } else {
        TE_FUNCTION1 | TE_FLAG_PURE
    }
}

/// Built-in types are pure functions of arity 0, 1 or 2.
pub proof fn lemma_builtin_type(j: int)
    ensures
        8 <= crate::token::spec_type_mask(builtin_spec_type(j)) <= 10,
        crate::token::spec_arity(builtin_spec_type(j)) == crate::token::spec_type_mask(builtin_spec_type(j)) - 8,
        crate::token::spec_is_pure(builtin_spec_type(j)),
        !crate::token::spec_is_closure(builtin_spec_type(j)),
{
    assert((8i32 | 32i32) & 0x1F == 8 && (8i32 | 32i32) & (8i32 | 16i32) != 0 && (8i32 | 32i32) & 7 == 0
        && (8i32 | 32i32) & 32 != 0 && (8i32 | 32i32) & 16 == 0) by (bit_vector);
    assert((9i32 | 32i32) & 0x1F == 9 && (9i32 | 32i32) & (8i32 | 16i32) != 0 && (9i32 | 32i32) & 7 == 1
        && (9i32 | 32i32) & 32 != 0 && (9i32 | 32i32) & 16 == 0) by (bit_vector);
    assert((10i32 | 32i32) & 0x1F == 10 && (10i32 | 32i32) & (8i32 | 16i32) != 0 && (10i32 | 32i32) & 7 == 2
        && (10i32 | 32i32) & 32 != 0 && (10i32 | 32i32) & 16 == 0) by (bit_vector);
}

/// Three-way lexicographic comparison of byte strings: -1, 0 or 1.
pub open spec fn lex_order(a: Seq<u8>, b: Seq<u8>) -> int
    decreases a.len(),
{
    if a.len() == 0 {
        if b.len() == 0 { 0 } else { -1 }
    } else if b.len() == 0 {
        1
    } else if a[0] < b[0] {
        -1
    } else if a[0] > b[0] {
        1
    } else {
        lex_order(a.drop_first(), b.drop_first())
    }
}

/// The index of the built-in named `name`, if there is one.
pub open spec fn spec_find_builtin(name: Seq<u8>) -> Option<usize> {
    if exists|i: int| 0 <= i < BUILTIN_COUNT && #[trigger] builtin_bytes(i) == name {
        Some((choose|i: int| 0 <= i < BUILTIN_COUNT && #[trigger] builtin_bytes(i) == name) as usize)
    } else {
        None
    }
}

pub proof fn lemma_lex_order_zero(a: Seq<u8>, b: Seq<u8>)
    ensures
        (lex_order(a, b) == 0) == (a == b),
        -1 <= lex_order(a, b) <= 1,
    decreases a.len(),
{
    if a.len() > 0 && b.len() > 0 && a[0] == b[0] {
        lemma_lex_order_zero(a.drop_first(), b.drop_first());
        if a.drop_first() == b.drop_first() {
            assert(a =~= seq![a[0]] + a.drop_first());
            assert(b =~= seq![b[0]] + b.drop_first());
        }
    } else if a.len() > 0 && b.len() > 0 {
        assert(a[0] != b[0]);
        if a == b {
            assert(false);
        }
    } else if a.len() == 0 && b.len() == 0 {
        assert(a =~= b);
    }
}

pub proof fn lemma_lex_order_antisym(a: Seq<u8>, b: Seq<u8>)
    ensures
        lex_order(a, b) == -lex_order(b, a),
    decreases a.len(),
{
    if a.len() > 0 && b.len() > 0 && a[0] == b[0] {
        lemma_lex_order_antisym(a.drop_first(), b.drop_first());
    }
}

pub proof fn lemma_lex_order_trans(a: Seq<u8>, b: Seq<u8>, c: Seq<u8>)
    requires
        lex_order(a, b) < 0,
        lex_order(b, c) < 0,
    ensures
        lex_order(a, c) < 0,
    decreases a.len(),
{
    if a.len() > 0 && b.len() > 0 && c.len() > 0 && a[0] == b[0] && b[0] == c[0] {
        lemma_lex_order_trans(a.drop_first(), b.drop_first(), c.drop_first());
    }
}

proof fn lemma_builtin_adjacent(i: int)
    requires
        0 <= i < BUILTIN_COUNT - 1,
    ensures
        lex_order(builtin_bytes(i), builtin_bytes(i + 1)) < 0,
{
    reveal_with_fuel(lex_order, 6);
    let a = builtin_bytes(i);
    let b = builtin_bytes(i + 1);
    assert(a =~= builtin_bytes(i));
    if i == 0 { assert(a[0] == b[0] && a[1] < b[1]); }
    else if i == 1 { assert(a[1] < b[1]); }
    else if i == 2 { assert(a[1] < b[1]); }
    else if i == 3 { assert(a.drop_first().drop_first().drop_first().drop_first().len() == 0); }
    else if i == 4 { assert(a[0] < b[0]); }
    else if i == 5 { assert(a[1] < b[1]); }
    else if i == 6 { assert(a.drop_first().drop_first().drop_first().len() == 0); }
    else if i == 7 { assert(a[0] < b[0]); }
    else if i == 8 { assert(a.drop_first().len() == 0); }
    else if i == 9 { assert(a[0] < b[0]); }
    else if i == 10 { assert(a[1] < b[1]); }
    else if i == 11 { assert(a[0] < b[0]); }
    else if i == 12 { assert(a[1] < b[1]); }
    else if i == 13 { assert(a.drop_first().drop_first().drop_first().len() == 0); }
    else if i == 14 { assert(a[0] < b[0]); }
    else if i == 15 { assert(a[1] < b[1]); }
    else if i == 16 { assert(a[0] < b[0]); }
    else if i == 17 { assert(a[1] < b[1]); }
    else if i == 18 { assert(a[0] < b[0]); }
    else if i == 19 { assert(a.drop_first().drop_first().drop_first().len() == 0); }
    else if i == 20 { assert(a[1] < b[1]); }
    else if i == 21 { assert(a[0] < b[0]); }
    else { assert(a.drop_first().drop_first().drop_first().len() == 0); }
}

/// The built-in table is strictly sorted by name.
pub proof fn lemma_builtins_sorted(i: int, j: int)
    requires
        0 <= i < j < BUILTIN_COUNT,
    ensures
        lex_order(builtin_bytes(i), builtin_bytes(j)) < 0,
    decreases j - i,
{
    lemma_builtin_adjacent(j - 1);
    if i < j - 1 {
        lemma_builtins_sorted(i, j - 1);
        lemma_lex_order_trans(builtin_bytes(i), builtin_bytes(j - 1), builtin_bytes(j));
    }
}

/// Name of built-in `i`.
pub fn builtin_name(i: usize) -> (r: &'static str)
    requires
        i < BUILTIN_COUNT,
    ensures
        r@ == builtin_chars(i as int),
        r.spec_bytes() == builtin_bytes(i as int),
{
    proof {
        reveal_strlit("abs");
        reveal_strlit("acos");
        reveal_strlit("asin");
        reveal_strlit("atan");
        reveal_strlit("atan2");
        reveal_strlit("ceil");
        reveal_strlit("cos");
        reveal_strlit("cosh");
        reveal_strlit("e");
        reveal_strlit("exp");
        reveal_strlit("fac");
        reveal_strlit("floor");
        reveal_strlit("ln");
        reveal_strlit("log");
        reveal_strlit("log10");
        reveal_strlit("ncr");
        reveal_strlit("npr");
        reveal_strlit("pi");
        reveal_strlit("pow");
        reveal_strlit("sin");
        reveal_strlit("sinh");
        reveal_strlit("sqrt");
        reveal_strlit("tan");
        reveal_strlit("tanh");
    }
    let r = match i {
        0 => "abs",
        1 => "acos",
        2 => "asin",
        3 => "atan",
        4 => "atan2",
        5 => "ceil",
        6 => "cos",
        7 => "cosh",
        8 => "e",
        9 => "exp",
        10 => "fac",
        11 => "floor",
        12 => "ln",
        13 => "log",
        14 => "log10",
        15 => "ncr",
        16 => "npr",
        17 => "pi",
        18 => "pow",
        19 => "sin",
        20 => "sinh",
        21 => "sqrt",
        22 => "tan",
        _ => "tanh",
    };
    assert(vstd::string::is_ascii(r));
    assert(r.spec_bytes() =~= builtin_bytes(i as int));
    r
}

/// Type of built-in `i`.
pub fn builtin_type(i: usize) -> (r: i32)
    requires
        i < BUILTIN_COUNT,
    ensures
        r == builtin_spec_type(i as int),
{
    if i == 8 || i == 17 {
        TE_FUNCTION0 | TE_FLAG_PURE
    } else if i == 4 || i == 15 || i == 16 || i == 18 {
        TE_FUNCTION2 | TE_FLAG_PURE
    } else {
        TE_FUNCTION1 | TE_FLAG_PURE
    }
}

/// Lexicographic comparison of two byte strings: -1, 0 or 1.
pub fn compare_bytes(a: &[u8], b: &[u8]) -> (c: i32)
    ensures
        c == lex_order(a@, b@),
{
    let len = if a.len() < b.len() { a.len() } else { b.len() };
    let mut j: usize = 0;
    assert(a@.skip(0) =~= a@);
    assert(b@.skip(0) =~= b@);
    while j < len
        invariant
            len <= a@.len(),
            len <= b@.len(),
            len == a@.len() || len == b@.len(),
            j <= len,
            lex_order(a@, b@) == lex_order(a@.skip(j as int), b@.skip(j as int)),
        decreases len - j,
    {
        assert(a@.skip(j as int).drop_first() =~= a@.skip(j + 1));
        assert(b@.skip(j as int).drop_first() =~= b@.skip(j + 1));
        if a[j] < b[j] {
            return -1;
        } else if a[j] > b[j] {
            return 1;
        }
        j = j + 1;
    }
    if a.len() == b.len() {
        0
    } else if a.len() < b.len() {
        -1
    } else {
        1
    }
}

/// The index of the built-in named `name`, by binary search of the table.
pub fn find_builtin(name: &[u8]) -> (r: Option<usize>)
    ensures
        r == spec_find_builtin(name@),
{
    let mut imin: usize = 0;
    let mut imax: usize = BUILTIN_COUNT - 1;
    while imax >= imin
        invariant
            imin <= imax + 1,
            imax < BUILTIN_COUNT,
            forall|j: int| 0 <= j < imin ==> lex_order(#[trigger] builtin_bytes(j), name@) < 0,
            forall|j: int| imax < j < BUILTIN_COUNT ==> lex_order(name@, #[trigger] builtin_bytes(j)) < 0,
        decreases imax + 1 - imin,
    {
        let i = imin + (imax - imin) / 2;
        let f = builtin_name(i).as_bytes();
        let c = compare_bytes(name, f);
        proof {
            lemma_lex_order_zero(name@, builtin_bytes(i as int));
            lemma_lex_order_antisym(name@, builtin_bytes(i as int));
        }
        if c == 0 {
            proof {
                assert(builtin_bytes(i as int) == name@);
                lemma_find_builtin_unique(name@, i as int);
            }
            return Some(i);
        } else if c > 0 {
            proof {
                assert forall|j: int| 0 <= j < i + 1 implies lex_order(#[trigger] builtin_bytes(j), name@) < 0 by {
                    if j < i {
                        lemma_builtins_sorted(j, i as int);
                        lemma_lex_order_trans(builtin_bytes(j), builtin_bytes(i as int), name@);
                    }
                }
            }
            imin = i + 1;
        } else {
            proof {
                assert forall|j: int| i <= j < BUILTIN_COUNT implies lex_order(name@, #[trigger] builtin_bytes(j)) < 0 by {
                    if j > i {
                        lemma_builtins_sorted(i as int, j);
                        lemma_lex_order_trans(name@, builtin_bytes(i as int), builtin_bytes(j));
                    }
                }
            }
            if i == 0 {
                proof { lemma_find_builtin_none(name@); }
                return None;
            }
            imax = i - 1;
        }
    }
    proof { lemma_find_builtin_none(name@); }
    None
}

pub proof fn lemma_find_builtin_unique(name: Seq<u8>, i: int)
    requires
        0 <= i < BUILTIN_COUNT,
        builtin_bytes(i) == name,
    ensures
        spec_find_builtin(name) == Some(i as usize),
{
    let k = choose|k: int| 0 <= k < BUILTIN_COUNT && #[trigger] builtin_bytes(k) == name;
    assert(0 <= k < BUILTIN_COUNT && builtin_bytes(k) == name);
    if k < i {
        lemma_builtins_sorted(k, i);
        lemma_lex_order_zero(builtin_bytes(k), builtin_bytes(i));
    } else if i < k {
        lemma_builtins_sorted(i, k);
        lemma_lex_order_zero(builtin_bytes(i), builtin_bytes(k));
    }
}

proof fn lemma_find_builtin_none(name: Seq<u8>)
    requires
        forall|j: int| 0 <= j < BUILTIN_COUNT ==>
            lex_order(#[trigger] builtin_bytes(j), name) < 0 || lex_order(name, builtin_bytes(j)) < 0,
    ensures
        spec_find_builtin(name) == None::<usize>,
{
    assert forall|j: int| 0 <= j < BUILTIN_COUNT implies #[trigger] builtin_bytes(j) != name by {
        lemma_lex_order_zero(builtin_bytes(j), name);
        lemma_lex_order_zero(name, builtin_bytes(j));
    }
}


/// n! as a natural number.
pub open spec fn spec_factorial(n: nat) -> nat
    decreases n,
{
    if n == 0 {
        1
    } else {
        n * spec_factorial((n - 1) as nat)
    }
}

/// The binomial coefficient, by Pascal's rule.
pub open spec fn binom(n: nat, k: nat) -> nat
    decreases n,
{
    if k == 0 {
        1
    } else if n == 0 {
        0
    } else {
        binom((n - 1) as nat, (k - 1) as nat) + binom((n - 1) as nat, k)
    }
}

/// The smaller of `r` and `n - r`, chosen as `binomial` chooses it.
pub open spec fn ncr_side(n: nat, r: nat) -> nat {
    if r > n / 2 {
        (n - r) as nat
    } else {
        r
    }
}

/// Whether the multiplicative evaluation of C(n, r) stays within `u64`:
/// its largest intermediate product is `s * C(n, s)` for `s = ncr_side(n, r)`.
pub open spec fn ncr_fits(n: nat, r: nat) -> bool {
    let s = ncr_side(n, r);
    s == 0 || s * binom(n, s) <= u64::MAX
}

proof fn lemma_div_bound(x: int, d: int, m: int)
    requires
        d > 0,
        x >= 0,
        m >= 0,
    ensures
        (x > m / d) <==> (x * d > m),
{
    vstd::arithmetic::div_mod::lemma_fundamental_div_mod(m, d);
    vstd::arithmetic::div_mod::lemma_mod_pos_bound(m, d);
    let q = m / d;
    assert(d * q == q * d) by (nonlinear_arith);
    if x > q {
        assert(x * d >= (q + 1) * d) by (nonlinear_arith)
            requires x >= q + 1, d > 0;
        assert((q + 1) * d == q * d + d) by (nonlinear_arith);
    } else {
        assert(x * d <= q * d) by (nonlinear_arith)
            requires x <= q, d > 0;
    }
}

proof fn lemma_factorial_positive(n: nat)
    ensures
        spec_factorial(n) >= 1,
    decreases n,
{
    if n > 0 {
        lemma_factorial_positive((n - 1) as nat);
        assert(n * spec_factorial((n - 1) as nat) >= 1) by (nonlinear_arith)
            requires n >= 1, spec_factorial((n - 1) as nat) >= 1;
    }
}

proof fn lemma_factorial_monotone(m: nat, n: nat)
    requires
        m <= n,
    ensures
        spec_factorial(m) <= spec_factorial(n),
    decreases n,
{
    if m < n {
        lemma_factorial_monotone(m, (n - 1) as nat);
        lemma_factorial_positive((n - 1) as nat);
        let f = spec_factorial((n - 1) as nat);
        assert(n * f >= f) by (nonlinear_arith)
            requires n >= 1, f >= 1;
    }
}

/// The exact value of `n!` when it fits in a `u64`, `None` when it does not
/// (the integer core of the `fac` built-in).
pub fn factorial(n: u32) -> (r: Option<u64>)
    ensures
        r == (if spec_factorial(n as nat) <= u64::MAX {
            Some(spec_factorial(n as nat) as u64)
        } else {
            None::<u64>
        }),
{
    let mut result: u64 = 1;
    let mut i: u64 = 1;
    while i <= n as u64
        invariant
            1 <= i <= n as u64 + 1,
            result == spec_factorial((i - 1) as nat),
        decreases n as u64 + 1 - i,
    {
        proof {
            lemma_factorial_positive((i - 1) as nat);
            lemma_div_bound(i as int, result as int, u64::MAX as int);
            assert(spec_factorial(i as nat) == i * spec_factorial((i - 1) as nat));
            assert(i * result == result * i) by (nonlinear_arith);
        }
        if i > u64::MAX / result {
            proof {
                lemma_factorial_monotone(i as nat, n as nat);
            }
            return None;
        }
        result = result * i;
        i = i + 1;
    }
    Some(result)
}

proof fn lemma_binom_above(n: nat, k: nat)
    requires
        k > n,
    ensures
        binom(n, k) == 0,
    decreases n,
{
    if n > 0 {
        lemma_binom_above((n - 1) as nat, (k - 1) as nat);
        lemma_binom_above((n - 1) as nat, k);
    }
}

proof fn lemma_binom_one(n: nat)
    ensures
        binom(n, 1) == n,
    decreases n,
{
    if n > 0 {
        lemma_binom_one((n - 1) as nat);
        assert(binom((n - 1) as nat, 0) == 1);
    }
}

/// k * C(m, k) == m * C(m - 1, k - 1).
pub proof fn lemma_binom_absorb(m: nat, k: nat)
    requires
        m >= 1,
        k >= 1,
    ensures
        k * binom(m, k) == m * binom((m - 1) as nat, (k - 1) as nat),
    decreases m,
{
    if k == 1 {
        lemma_binom_one(m);
        assert(binom((m - 1) as nat, 0) == 1);
    } else if m == 1 {
        lemma_binom_above(1, k);
        lemma_binom_above(0, (k - 1) as nat);
    } else {
        let a = binom((m - 1) as nat, (k - 1) as nat);
        let b = binom((m - 1) as nat, k);
        let c = binom((m - 2) as nat, (k - 2) as nat);
        let d = binom((m - 2) as nat, (k - 1) as nat);
        assert(binom(m, k) == a + b);
        assert(a == c + d);
        lemma_binom_absorb((m - 1) as nat, k);
        lemma_binom_absorb((m - 1) as nat, (k - 1) as nat);
        assert(k * b == (m - 1) * d);
        assert((k - 1) * a == (m - 1) * c);
        assert(k * (a + b) == m * a) by (nonlinear_arith)
            requires
                k * b == (m - 1) * d,
                (k - 1) * a == (m - 1) * c,
                a == c + d;
    }
}

pub proof fn lemma_binom_symmetric(n: nat, k: nat)
    requires
        k <= n,
    ensures
        binom(n, k) == binom(n, (n - k) as nat),
    decreases n,
{
    if k == 0 {
        lemma_binom_full(n);
    } else if k == n {
        lemma_binom_full(n);
    } else {
        lemma_binom_symmetric((n - 1) as nat, (k - 1) as nat);
        lemma_binom_symmetric((n - 1) as nat, k);
        assert(binom(n, (n - k) as nat) == binom((n - 1) as nat, (n - k - 1) as nat) + binom(
            (n - 1) as nat,
            (n - k) as nat,
        ));
    }
}

pub proof fn lemma_binom_full(n: nat)
    ensures
        binom(n, n) == 1,
        binom(n, 0) == 1,
    decreases n,
{
    if n > 0 {
        lemma_binom_full((n - 1) as nat);
        lemma_binom_above((n - 1) as nat, n);
    }
}

/// i * C(a + i, i) grows with i.
proof fn lemma_ncr_products_grow(a: nat, i: nat, j: nat)
    requires
        1 <= i <= j,
    ensures
        i * binom(a + i, i) <= j * binom(a + j, j),
    decreases j - i,
{
    if i < j {
        lemma_ncr_products_grow(a, i, (j - 1) as nat);
        let jm = (j - 1) as nat;
        lemma_binom_absorb(a + j, j);
        assert((a + j - 1) as nat == a + jm);
        let c = binom(a + jm, jm);
        assert(j * binom(a + j, j) == (a + j) * c);
        assert((a + j) * c >= jm * c) by (nonlinear_arith)
            requires a + j >= jm, c >= 0;
    }
}

/// The exact value of C(n, r) computed multiplicatively, or `None` when an
/// intermediate product would leave `u64` (the integer core of the `ncr` built-in).
pub fn binomial(n: u32, r: u32) -> (res: Option<u64>)
    requires
        r <= n,
    ensures
        res == (if ncr_fits(n as nat, r as nat) {
            Some(binom(n as nat, r as nat) as u64)
        } else {
            None::<u64>
        }),
{
    let un = n as u64;
    let mut ur = r as u64;
    if ur > un / 2 {
        ur = un - ur;
    }
    let ghost s = ur as nat;
    let ghost a = (un - ur) as nat;
    assert(s == ncr_side(n as nat, r as nat));
    proof {
        lemma_binom_symmetric(n as nat, r as nat);
    }
    assert(binom(n as nat, s) == binom(n as nat, r as nat));
    let mut result: u64 = 1;
    let mut i: u64 = 1;
    while i <= ur
        invariant
            ur <= un <= u32::MAX,
            un == n,
            s == ur,
            s == ncr_side(n as nat, r as nat),
            a == un - ur,
            1 <= i <= ur + 1,
            result == binom((a + i - 1) as nat, (i - 1) as nat),
            i == 1 || (i - 1) * binom((a + i - 1) as nat, (i - 1) as nat) <= u64::MAX,
        decreases ur + 1 - i,
    {
        let m = un - ur + i;
        proof {
            lemma_binom_absorb((a + i) as nat, i as nat);
            assert((a + i - 1) as nat == a + i - 1);
            lemma_div_bound(result as int, m as int, u64::MAX as int);
            assert(result * m == m * result) by (nonlinear_arith);
        }
        if result > u64::MAX / m {
            proof {
                lemma_ncr_products_grow(a, i as nat, s);
                assert(a + s == n);
            }
            return None;
        }
        let prod = result * m;
        let ghost c = binom((a + i) as nat, i as nat);
        assert(prod == i * c);
        assert(prod / i == c) by (nonlinear_arith)
            requires prod == i * c, i >= 1;
        result = prod / i;
        i = i + 1;
    }
    proof {
        assert(a + s == n);
        if s == 0 {
            assert(binom(n as nat, 0) == 1);
        } else {
            assert(s * binom(n as nat, s) <= u64::MAX);
            assert(binom(n as nat, s) <= s * binom(n as nat, s)) by (nonlinear_arith)
                requires s >= 1;
        }
    }
    Some(result)
}

} // verus!
