//! Number tokens are the longest numeric literal where they start.
use vstd::prelude::*;
use crate::lexer::{
    all_digits, all_hex_digits, binary_exponent_end, binary_exponent_part, classify, decimal_literal,
    decimal_tok, digits_end, exponent_end, exponent_part, float_literal, hex_digits_end, hex_end,
    hex_literal, hex_mantissa, ident_tok, is_alpha, is_digit, is_hex_digit, is_space, lemma_binary_exponent_end,
    lemma_digits_end, lemma_exponent_end, lemma_hex_digits_end, lemma_hex_end, next_tok, number_literal,
    number_tok, op_tok, Src, DOT,
};
use crate::ast::Target;
use crate::token::{spec_type_mask, TOK_NUMBER};

verus! {

proof fn lemma_digit_run(b: Seq<u8>, a: int, c: int)
    requires
        0 <= a <= c <= b.len(),
        all_digits(b.subrange(a, c)),
    ensures
        c <= digits_end(b, a),
        c < b.len() && !is_digit(b[c]) ==> c == digits_end(b, a),
    decreases c - a,
{
    lemma_digits_end(b, a);
    if a < c {
        assert(b.subrange(a, c)[0] == b[a]);
        assert forall|i: int| 0 <= i < b.subrange(a + 1, c).len() implies is_digit(
            #[trigger] b.subrange(a + 1, c)[i],
        ) by {
            assert(b.subrange(a + 1, c)[i] == b.subrange(a, c)[i + 1]);
        }
        lemma_digit_run(b, a + 1, c);
    }
    if c < b.len() && !is_digit(b[c]) && c < digits_end(b, a) {
        assert(is_digit(b[c]));
    }
}

proof fn lemma_hex_digit_run(b: Seq<u8>, a: int, c: int)
    requires
        0 <= a <= c <= b.len(),
        all_hex_digits(b.subrange(a, c)),
    ensures
        c <= hex_digits_end(b, a),
        c < b.len() && !is_hex_digit(b[c]) ==> c == hex_digits_end(b, a),
    decreases c - a,
{
    lemma_hex_digits_end(b, a);
    if a < c {
        assert(b.subrange(a, c)[0] == b[a]);
        assert forall|i: int| 0 <= i < b.subrange(a + 1, c).len() implies is_hex_digit(
            #[trigger] b.subrange(a + 1, c)[i],
        ) by {
            assert(b.subrange(a + 1, c)[i] == b.subrange(a, c)[i + 1]);
        }
        lemma_hex_digit_run(b, a + 1, c);
    }
    if c < b.len() && !is_hex_digit(b[c]) && c < hex_digits_end(b, a) {
        assert(is_hex_digit(b[c]));
    }
}

/// Where the digits and point of a decimal number starting at `p` end.
pub open spec fn decimal_mantissa_end(b: Seq<u8>, p: int) -> int {
    let d = digits_end(b, p);
    if d < b.len() && b[d] == DOT {
        digits_end(b, d + 1)
    } else {
        d
    }
}

/// Where the digits and point of a hexadecimal number starting at `p` end.
pub open spec fn hex_mantissa_end(b: Seq<u8>, p: int) -> int {
    let h = hex_digits_end(b, p + 2);
    if h < b.len() && b[h] == DOT {
        hex_digits_end(b, h + 1)
    } else {
        h
    }
}

proof fn lemma_decimal_mantissa_within(b: Seq<u8>, p: int, q: int)
    requires
        0 <= p < q <= b.len(),
        decimal_literal(b.subrange(p, q)),
    ensures
        q <= decimal_mantissa_end(b, p),
        q < b.len() && !is_digit(b[q]) && b[q] != DOT ==> q == decimal_mantissa_end(b, p),
{
    let t = b.subrange(p, q);
    let d = digits_end(b, p);
    lemma_digits_end(b, p);
    if d < b.len() && b[d] == DOT {
        lemma_digits_end(b, d + 1);
    }
    if t.len() > 0 && all_digits(t) {
        lemma_digit_run(b, p, q);
    } else {
        let i = choose|i: int|
            0 <= i < t.len() && #[trigger] t[i] == DOT && t.len() >= 2 && all_digits(t.take(i)) && all_digits(
                t.skip(i + 1),
            );
        assert(t.take(i) =~= b.subrange(p, p + i));
        assert(t.skip(i + 1) =~= b.subrange(p + i + 1, q));
        assert(b[p + i] == DOT);
        lemma_digit_run(b, p, p + i);
        lemma_digit_run(b, p + i + 1, q);
    }
}

proof fn lemma_hex_mantissa_within(b: Seq<u8>, p: int, q: int)
    requires
        0 <= p,
        p + 2 < q <= b.len(),
        hex_mantissa(b.subrange(p + 2, q)),
    ensures
        q <= hex_mantissa_end(b, p),
        q < b.len() && !is_hex_digit(b[q]) && b[q] != DOT ==> q == hex_mantissa_end(b, p),
{
    let a = p + 2;
    let t = b.subrange(a, q);
    let h = hex_digits_end(b, a);
    lemma_hex_digits_end(b, a);
    if h < b.len() && b[h] == DOT {
        lemma_hex_digits_end(b, h + 1);
    }
    if t.len() > 0 && all_hex_digits(t) {
        lemma_hex_digit_run(b, a, q);
    } else {
        let i = choose|i: int|
            0 <= i < t.len() && #[trigger] t[i] == DOT && t.len() >= 2 && all_hex_digits(t.take(i))
                && all_hex_digits(t.skip(i + 1));
        assert(t.take(i) =~= b.subrange(a, a + i));
        assert(t.skip(i + 1) =~= b.subrange(a + i + 1, q));
        assert(b[a + i] == DOT);
        lemma_hex_digit_run(b, a, a + i);
        lemma_hex_digit_run(b, a + i + 1, q);
    }
}

proof fn lemma_exponent_within(b: Seq<u8>, m: int, e2: int)
    requires
        0 <= m < e2 <= b.len(),
        exponent_part(b.subrange(m, e2)),
    ensures
        e2 <= exponent_end(b, m),
{
    let x = b.subrange(m, e2);
    assert(x[0] == b[m] && x[1] == b[m + 1]);
    if all_digits(x.skip(1)) {
        assert(x.skip(1)[0] == x[1]);
        assert(x.skip(1) =~= b.subrange(m + 1, e2));
        lemma_digit_run(b, m + 1, e2);
    } else {
        assert(x.skip(2) =~= b.subrange(m + 2, e2));
        lemma_digit_run(b, m + 2, e2);
    }
}

proof fn lemma_binary_exponent_within(b: Seq<u8>, m: int, e2: int)
    requires
        0 <= m < e2 <= b.len(),
        binary_exponent_part(b.subrange(m, e2)),
    ensures
        e2 <= binary_exponent_end(b, m),
{
    let x = b.subrange(m, e2);
    assert(x[0] == b[m] && x[1] == b[m + 1]);
    if all_digits(x.skip(1)) {
        assert(x.skip(1)[0] == x[1]);
        assert(x.skip(1) =~= b.subrange(m + 1, e2));
        lemma_digit_run(b, m + 1, e2);
    } else {
        assert(x.skip(2) =~= b.subrange(m + 2, e2));
        lemma_digit_run(b, m + 2, e2);
    }
}

/// Text beginning `0x` (or `0X`) is at most the single digit `0` of a
/// decimal literal.
proof fn lemma_zero_x_decimal(t: Seq<u8>)
    requires
        t.len() >= 2,
        t[0] == crate::lexer::DIGIT_0,
        t[1] == crate::lexer::LOWER_X || t[1] == crate::lexer::UPPER_X,
    ensures
        !decimal_literal(t),
{
    if all_digits(t) {
        assert(is_digit(t[1]));
    }
    if exists|i: int|
        0 <= i < t.len() && #[trigger] t[i] == DOT && t.len() >= 2 && all_digits(t.take(i)) && all_digits(
            t.skip(i + 1),
        ) {
        let i = choose|i: int|
            0 <= i < t.len() && #[trigger] t[i] == DOT && t.len() >= 2 && all_digits(t.take(i)) && all_digits(
                t.skip(i + 1),
            );
        assert(i >= 2);
        assert(t.take(i)[1] == t[1]);
    }
}

/// Text beginning `0x` (or `0X`) is no decimal floating-point literal.
proof fn lemma_zero_x_float(t: Seq<u8>)
    requires
        t.len() >= 2,
        t[0] == crate::lexer::DIGIT_0,
        t[1] == crate::lexer::LOWER_X || t[1] == crate::lexer::UPPER_X,
    ensures
        !float_literal(t),
{
    lemma_zero_x_decimal(t);
    if exists|j: int| 0 < j < t.len() && decimal_literal(#[trigger] t.take(j)) && exponent_part(t.skip(j)) {
        let j = choose|j: int| 0 < j < t.len() && decimal_literal(#[trigger] t.take(j)) && exponent_part(t.skip(j));
        if j >= 2 {
            assert(t.take(j).len() >= 2 && t.take(j)[0] == t[0] && t.take(j)[1] == t[1]);
            lemma_zero_x_decimal(t.take(j));
        } else {
            assert(t.skip(j)[0] == t[1]);
        }
    }
}

/// Every numeric literal starting where a number token starts ends within
/// the token.
proof fn lemma_literal_within_token(b: Seq<u8>, p: int, e2: int)
    requires
        0 <= p < e2 <= b.len(),
        number_literal(b.subrange(p, e2)),
        number_tok(b, p).type_ == TOK_NUMBER,
    ensures
        e2 <= number_tok(b, p).end,
{
    let s = b.subrange(p, e2);
    lemma_hex_end(b, p);
    lemma_digits_end(b, p);
    if digits_end(b, p) < b.len() && b[digits_end(b, p)] == DOT {
        lemma_digits_end(b, digits_end(b, p) + 1);
    }
    lemma_exponent_end(b, decimal_mantissa_end(b, p));
    assert(s[0] == b[p]);
    if e2 > p + 1 {
        assert(s[1] == b[p + 1]);
    }
    if hex_end(b, p) is Some {
        let mh = hex_mantissa_end(b, p);
        lemma_hex_digits_end(b, p + 2);
        if hex_digits_end(b, p + 2) < b.len() && b[hex_digits_end(b, p + 2)] == DOT {
            lemma_hex_digits_end(b, hex_digits_end(b, p + 2) + 1);
        }
        lemma_binary_exponent_end(b, mh);
        assert(hex_end(b, p) == Some(binary_exponent_end(b, mh)));
        if float_literal(s) {
            if e2 > p + 1 {
                lemma_zero_x_float(s);
            }
        } else {
            assert(hex_literal(s));
            if hex_mantissa(s.skip(2)) {
                assert(s.skip(2) =~= b.subrange(p + 2, e2));
                lemma_hex_mantissa_within(b, p, e2);
            } else {
                let j = choose|j: int|
                    0 < j < s.len() - 2 && hex_mantissa(#[trigger] s.skip(2).take(j)) && binary_exponent_part(
                        s.skip(2).skip(j),
                    );
                let q = p + 2 + j;
                assert(s.skip(2).take(j) =~= b.subrange(p + 2, q));
                assert(s.skip(2).skip(j) =~= b.subrange(q, e2));
                assert(b[q] == s.skip(2).skip(j)[0]);
                lemma_hex_mantissa_within(b, p, q);
                lemma_binary_exponent_within(b, q, e2);
            }
        }
    } else {
        let m = decimal_mantissa_end(b, p);
        assert(number_tok(b, p) == decimal_tok(b, p));
        if hex_literal(s) {
            // A hexadecimal literal here would have made a hexadecimal token.
            let a = p + 2;
            lemma_hex_digits_end(b, a);
            let t = if hex_mantissa(s.skip(2)) {
                s.skip(2)
            } else {
                let j = choose|j: int|
                    0 < j < s.len() - 2 && hex_mantissa(#[trigger] s.skip(2).take(j)) && binary_exponent_part(
                        s.skip(2).skip(j),
                    );
                s.skip(2).take(j)
            };
            assert(hex_mantissa(t));
            assert(t.len() >= 1 && t[0] == b[a]);
            if t.len() > 0 && all_hex_digits(t) {
                assert(is_hex_digit(b[a]));
            } else {
                let i = choose|i: int|
                    0 <= i < t.len() && #[trigger] t[i] == DOT && t.len() >= 2 && all_hex_digits(t.take(i))
                        && all_hex_digits(t.skip(i + 1));
                if i == 0 {
                    assert(t.skip(1)[0] == t[1] && t[1] == b[a + 1]);
                    lemma_hex_digits_end(b, a + 1);
                } else {
                    assert(t.take(i)[0] == t[0]);
                }
            }
            assert(false);
        } else if decimal_literal(s) {
            lemma_decimal_mantissa_within(b, p, e2);
        } else {
            let j = choose|j: int| 0 < j < s.len() && decimal_literal(#[trigger] s.take(j)) && exponent_part(s.skip(j));
            let q = p + j;
            assert(s.take(j) =~= b.subrange(p, q));
            assert(s.skip(j) =~= b.subrange(q, e2));
            assert(b[q] == s.skip(j)[0]);
            lemma_decimal_mantissa_within(b, p, q);
            lemma_exponent_within(b, q, e2);
        }
    }
}

proof fn lemma_classify_not_number(t: i32, target: Target, p: int, e: int)
    ensures
        classify(t, target, p, e).type_ != TOK_NUMBER,
{
    let m = spec_type_mask(t);
    if m != crate::token::TE_VARIABLE && ((crate::token::TE_CLOSURE0 <= m <= crate::token::TE_CLOSURE7) || (
    crate::token::TE_FUNCTION0 <= m <= crate::token::TE_FUNCTION7)) {
        crate::token::lemma_callable_not_token(t);
    }
}

/// A number token is the longest numeric literal where it starts: no
/// longer stretch of the text from its start is a decimal or hexadecimal
/// literal, so every digit of its exponent and of its fraction is in it.
pub proof fn law_number_tokens_are_longest(src: Src, p: int)
    requires
        0 <= p <= src.bytes.len(),
    ensures
        next_tok(src, p).type_ == TOK_NUMBER ==> forall|e2: int|
            next_tok(src, p).end < e2 <= src.bytes.len() ==> !number_literal(
                #[trigger] src.bytes.subrange(next_tok(src, p).start, e2),
            ),
    decreases src.bytes.len() - p,
{
    reveal(next_tok);
    let b = src.bytes;
    crate::lexer::lemma_next_tok_bounds(src, p);
    if p < b.len() {
        if is_digit(b[p]) || b[p] == DOT {
            assert forall|e2: int| number_tok(b, p).type_ == TOK_NUMBER && number_tok(b, p).end < e2 <= b.len() implies !number_literal(
                #[trigger] b.subrange(p, e2),
            ) by {
                if number_tok(b, p).type_ == TOK_NUMBER && number_literal(b.subrange(p, e2)) {
                    lemma_literal_within_token(b, p, e2);
                }
            }
        } else if is_alpha(b[p]) {
            let t = ident_tok(src, p);
            let e = crate::lexer::ident_end(b, p + 1);
            let name = b.subrange(p, e);
            match crate::lexer::spec_find_lookup(src.vars, name) {
                Some(i) => lemma_classify_not_number(src.vars[i as int].type_, Target::Lookup(i), p, e),
                None => match crate::functions::spec_find_builtin(name) {
                    Some(j) => lemma_classify_not_number(
                        crate::functions::builtin_spec_type(j as int),
                        Target::Builtin(j),
                        p,
                        e,
                    ),
                    None => {},
                },
            }
        } else if is_space(b[p]) {
            law_number_tokens_are_longest(src, p + 1);
        }
    }
}

} // verus!
