//! The tokenizer: turns the bytes of an expression into tokens on demand.
use vstd::prelude::*;
use vstd::string::StringSliceAdditionalSpecFns;
use crate::ast::{Operator, Target, TeVariable};
use crate::functions::{
    builtin_spec_type, builtin_type, compare_bytes, find_builtin, lemma_lex_order_zero,
    spec_find_builtin, BUILTIN_COUNT,
};
use crate::token::{
    spec_type_mask, type_mask, TE_CLOSURE0, TE_CLOSURE7, TE_FUNCTION0, TE_FUNCTION7, TE_VARIABLE,
    TOK_CLOSE, TOK_END, TOK_ERROR, TOK_INFIX, TOK_NULL, TOK_NUMBER, TOK_OPEN, TOK_SEP,
    TOK_VARIABLE,
};

verus! {

// ASCII codes of the characters the tokenizer tells apart.
pub const DIGIT_0: u8 = 48;
pub const DIGIT_9: u8 = 57;
pub const LOWER_A: u8 = 97;
pub const LOWER_Z: u8 = 122;
pub const UPPER_A: u8 = 65;
pub const UPPER_Z: u8 = 90;
pub const UNDERSCORE: u8 = 95;
pub const SPACE: u8 = 32;
pub const TAB: u8 = 9;
pub const NEWLINE: u8 = 10;
pub const RETURN: u8 = 13;
pub const PLUS: u8 = 43;
pub const MINUS: u8 = 45;
pub const STAR: u8 = 42;
pub const SLASH: u8 = 47;
pub const CARET: u8 = 94;
pub const PERCENT: u8 = 37;
pub const OPEN_PAREN: u8 = 40;
pub const CLOSE_PAREN: u8 = 41;
pub const COMMA: u8 = 44;
pub const DOT: u8 = 46;
pub const LOWER_E: u8 = 101;
pub const UPPER_E: u8 = 69;
pub const LOWER_F: u8 = 102;
pub const UPPER_F: u8 = 70;
pub const LOWER_X: u8 = 120;
pub const UPPER_X: u8 = 88;
pub const LOWER_P: u8 = 112;
pub const UPPER_P: u8 = 80;

/// What the tokenizer reads: the bytes of the expression and the caller's bindings.
pub struct Src {
    pub bytes: Seq<u8>,
    pub vars: Seq<TeVariable>,
}

/// A token: its type, the bytes `start..end` it covers, and for operators
/// and names what they stand for.
#[derive(Clone, Copy)]
pub struct Token {
    pub type_: i32,
    pub start: usize,
    pub end: usize,
    pub target: Option<Target>,
}

/// The mathematical view of a token.
pub struct SpecTok {
    pub type_: i32,
    pub start: int,
    pub end: int,
    pub target: Option<Target>,
}

impl View for Token {
    type V = SpecTok;

    open spec fn view(&self) -> SpecTok {
        SpecTok { type_: self.type_, start: self.start as int, end: self.end as int, target: self.target }
    }
}

pub open spec fn is_digit(c: u8) -> bool {
    DIGIT_0 <= c <= DIGIT_9
}

pub open spec fn is_hex_digit(c: u8) -> bool {
    is_digit(c) || (LOWER_A <= c <= LOWER_F) || (UPPER_A <= c <= UPPER_F)
}

pub open spec fn is_alpha(c: u8) -> bool {
    (LOWER_A <= c <= LOWER_Z) || (UPPER_A <= c <= UPPER_Z)
}

pub open spec fn is_ident_char(c: u8) -> bool {
    is_alpha(c) || is_digit(c) || c == UNDERSCORE
}

pub open spec fn is_space(c: u8) -> bool {
    c == SPACE || c == TAB || c == NEWLINE || c == RETURN
}

/// The end of the run of digits starting at `i`.
pub open spec fn digits_end(b: Seq<u8>, i: int) -> int
    decreases b.len() - i,
{
    if 0 <= i < b.len() && is_digit(b[i]) {
        digits_end(b, i + 1)
    } else {
        i
    }
}

/// The end of the run of name characters starting at `i`.
pub open spec fn ident_end(b: Seq<u8>, i: int) -> int
    decreases b.len() - i,
{
    if 0 <= i < b.len() && is_ident_char(b[i]) {
        ident_end(b, i + 1)
    } else {
        i
    }
}

/// The end of a number whose digits and decimal point end at `m`: an
/// exponent (`e` or `E`, an optional sign, and at least one digit) is
/// taken in when one follows.
pub open spec fn exponent_end(b: Seq<u8>, m: int) -> int {
    if 0 <= m < b.len() && (b[m] == LOWER_E || b[m] == UPPER_E) {
        let q = if m + 1 < b.len() && (b[m + 1] == PLUS || b[m + 1] == MINUS) {
            m + 2
        } else {
            m + 1
        };
        let r = digits_end(b, q);
        if r > q {
            r
        } else {
            m
        }
    } else {
        m
    }
}

/// The end of the run of hexadecimal digits starting at `i`.
pub open spec fn hex_digits_end(b: Seq<u8>, i: int) -> int
    decreases b.len() - i,
{
    if 0 <= i < b.len() && is_hex_digit(b[i]) {
        hex_digits_end(b, i + 1)
    } else {
        i
    }
}

/// The end of a hexadecimal number whose digits and point end at `m`: a
/// binary exponent (`p` or `P`, an optional sign, and at least one decimal
/// digit) is taken in when one follows.
pub open spec fn binary_exponent_end(b: Seq<u8>, m: int) -> int {
    if 0 <= m < b.len() && (b[m] == LOWER_P || b[m] == UPPER_P) {
        let q = if m + 1 < b.len() && (b[m + 1] == PLUS || b[m + 1] == MINUS) {
            m + 2
        } else {
            m + 1
        };
        let r = digits_end(b, q);
        if r > q {
            r
        } else {
            m
        }
    } else {
        m
    }
}

/// The end of a hexadecimal number at `p`, if one starts there: `0x` or
/// `0X`, hexadecimal digits with at most one point (at least one digit in
/// all), then an optional binary exponent.
pub open spec fn hex_end(b: Seq<u8>, p: int) -> Option<int> {
    if 0 <= p && p + 1 < b.len() && b[p] == DIGIT_0 && (b[p + 1] == LOWER_X || b[p + 1] == UPPER_X) {
        let h = hex_digits_end(b, p + 2);
        let m = if h < b.len() && b[h] == DOT {
            hex_digits_end(b, h + 1)
        } else {
            h
        };
        if h > p + 2 || m > h + 1 {
            Some(binary_exponent_end(b, m))
        } else {
            None
        }
    } else {
        None
    }
}

/// The token of a decimal number starting at `p`: digits, optionally a
/// decimal point and more digits (at least one digit in all), then an
/// optional exponent.  A decimal point with no digit on either side is an
/// error.
pub open spec fn decimal_tok(b: Seq<u8>, p: int) -> SpecTok {
    let d = digits_end(b, p);
    let m = if d < b.len() && b[d] == DOT {
        digits_end(b, d + 1)
    } else {
        d
    };
    if d > p || m > d + 1 {
        SpecTok { type_: TOK_NUMBER, start: p, end: exponent_end(b, m), target: None }
    } else {
        SpecTok { type_: TOK_ERROR, start: p, end: p + 1, target: None }
    }
}

/// The token of a number starting at `p`: a hexadecimal number where one
/// starts there, a decimal number otherwise (so `0x` with no hexadecimal
/// digit after it is the number `0`).
pub open spec fn number_tok(b: Seq<u8>, p: int) -> SpecTok {
    match hex_end(b, p) {
        Some(e) => SpecTok { type_: TOK_NUMBER, start: p, end: e, target: None },
        None => decimal_tok(b, p),
    }
}

/// The first binding at or after `i` named `name`.
pub open spec fn find_lookup_from(vars: Seq<TeVariable>, name: Seq<u8>, i: nat) -> Option<usize>
    decreases vars.len() - i,
{
    if i >= vars.len() {
        None
    } else if vars[i as int].name.spec_bytes() == name {
        Some(i as usize)
    } else {
        find_lookup_from(vars, name, i + 1)
    }
}

/// The first binding named `name`.
pub open spec fn spec_find_lookup(vars: Seq<TeVariable>, name: Seq<u8>) -> Option<usize> {
    find_lookup_from(vars, name, 0)
}

/// The token for a name at `p..e` bound with type `t`: a variable, a
/// function or closure, or an error for any other kind.
pub open spec fn classify(t: i32, target: Target, p: int, e: int) -> SpecTok {
    let m = spec_type_mask(t);
    if m == TE_VARIABLE {
        SpecTok { type_: TOK_VARIABLE, start: p, end: e, target: Some(target) }
    } else if (TE_CLOSURE0 <= m <= TE_CLOSURE7) || (TE_FUNCTION0 <= m <= TE_FUNCTION7) {
        SpecTok { type_: t, start: p, end: e, target: Some(target) }
    } else {
        SpecTok { type_: TOK_ERROR, start: p, end: e, target: None }
    }
}

/// The token of a name starting at `p`: the caller's bindings are searched
/// first, then the built-ins; an unknown name is an error.
pub open spec fn ident_tok(src: Src, p: int) -> SpecTok {
    let e = ident_end(src.bytes, p + 1);
    let name = src.bytes.subrange(p, e);
    match spec_find_lookup(src.vars, name) {
        Some(i) => classify(src.vars[i as int].type_, Target::Lookup(i), p, e),
        None => match spec_find_builtin(name) {
            Some(j) => classify(builtin_spec_type(j as int), Target::Builtin(j), p, e),
            None => SpecTok { type_: TOK_ERROR, start: p, end: e, target: None },
        },
    }
}

/// The token of the single character `c` at `p`.
pub open spec fn op_tok(c: u8, p: int) -> SpecTok {
    let op = if c == PLUS {
        Some(Operator::Add)
    } else if c == MINUS {
        Some(Operator::Sub)
    } else if c == STAR {
        Some(Operator::Mul)
    } else if c == SLASH {
        Some(Operator::Divide)
    } else if c == CARET {
        Some(Operator::Pow)
    } else if c == PERCENT {
        Some(Operator::Fmod)
    } else {
        None
    };
    match op {
        Some(o) => SpecTok { type_: TOK_INFIX, start: p, end: p + 1, target: Some(Target::Op(o)) },
        None => SpecTok {
            type_: if c == OPEN_PAREN {
                TOK_OPEN
            } else if c == CLOSE_PAREN {
                TOK_CLOSE
            } else if c == COMMA {
                TOK_SEP
            } else {
                TOK_ERROR
            },
            start: p,
            end: p + 1,
            target: None,
        },
    }
}

/// The token that starts at or after position `p`, whitespace skipped.
#[verifier::opaque]
pub open spec fn next_tok(src: Src, p: int) -> SpecTok
    decreases src.bytes.len() - p,
{
    let b = src.bytes;
    if p < 0 || p >= b.len() {
        SpecTok { type_: TOK_END, start: p, end: p, target: None }
    } else if is_digit(b[p]) || b[p] == DOT {
        number_tok(b, p)
    } else if is_alpha(b[p]) {
        ident_tok(src, p)
    } else if is_space(b[p]) {
        next_tok(src, p + 1)
    } else {
        op_tok(b[p], p)
    }
}

/// The `k`-th token of the expression.
#[verifier::opaque]
pub open spec fn tok(src: Src, k: nat) -> SpecTok
    decreases k,
{
    if k == 0 {
        next_tok(src, 0)
    } else {
        next_tok(src, tok(src, (k - 1) as nat).end)
    }
}

/// What is left to read after token `k`: the bytes after it, plus one
/// unless it is the end.
#[verifier::opaque]
pub open spec fn meas(src: Src, k: nat) -> nat {
    let t = tok(src, k);
    let rest = src.bytes.len() - t.end;
    (if rest > 0 { rest } else { 0 }) as nat + (if t.type_ == TOK_END { 0nat } else { 1nat })
}

pub proof fn lemma_digits_end(b: Seq<u8>, i: int)
    requires
        0 <= i <= b.len(),
    ensures
        i <= digits_end(b, i) <= b.len(),
        forall|j: int| i <= j < digits_end(b, i) ==> is_digit(#[trigger] b[j]),
        digits_end(b, i) < b.len() ==> !is_digit(b[digits_end(b, i)]),
    decreases b.len() - i,
{
    if i < b.len() && is_digit(b[i]) {
        lemma_digits_end(b, i + 1);
    }
}

proof fn lemma_ident_end(b: Seq<u8>, i: int)
    requires
        0 <= i <= b.len(),
    ensures
        i <= ident_end(b, i) <= b.len(),
    decreases b.len() - i,
{
    if i < b.len() && is_ident_char(b[i]) {
        lemma_ident_end(b, i + 1);
    }
}

pub proof fn lemma_exponent_end(b: Seq<u8>, m: int)
    requires
        0 <= m <= b.len(),
    ensures
        m <= exponent_end(b, m) <= b.len(),
{
    if 0 <= m < b.len() && (b[m] == LOWER_E || b[m] == UPPER_E) {
        let q = if m + 1 < b.len() && (b[m + 1] == PLUS || b[m + 1] == MINUS) {
            m + 2
        } else {
            m + 1
        };
        lemma_digits_end(b, q);
    }
}

pub proof fn lemma_hex_digits_end(b: Seq<u8>, i: int)
    requires
        0 <= i <= b.len(),
    ensures
        i <= hex_digits_end(b, i) <= b.len(),
        forall|j: int| i <= j < hex_digits_end(b, i) ==> is_hex_digit(#[trigger] b[j]),
        hex_digits_end(b, i) < b.len() ==> !is_hex_digit(b[hex_digits_end(b, i)]),
    decreases b.len() - i,
{
    if i < b.len() && is_hex_digit(b[i]) {
        lemma_hex_digits_end(b, i + 1);
    }
}

pub proof fn lemma_binary_exponent_end(b: Seq<u8>, m: int)
    requires
        0 <= m <= b.len(),
    ensures
        m <= binary_exponent_end(b, m) <= b.len(),
{
    if 0 <= m < b.len() && (b[m] == LOWER_P || b[m] == UPPER_P) {
        let q = if m + 1 < b.len() && (b[m + 1] == PLUS || b[m + 1] == MINUS) {
            m + 2
        } else {
            m + 1
        };
        lemma_digits_end(b, q);
    }
}

pub proof fn lemma_hex_end(b: Seq<u8>, p: int)
    requires
        0 <= p < b.len(),
    ensures
        hex_end(b, p) matches Some(e) ==> p + 2 < e <= b.len(),
{
    if p + 1 < b.len() && b[p] == DIGIT_0 && (b[p + 1] == LOWER_X || b[p + 1] == UPPER_X) {
        lemma_hex_digits_end(b, p + 2);
        let h = hex_digits_end(b, p + 2);
        if h < b.len() && b[h] == DOT {
            lemma_hex_digits_end(b, h + 1);
            lemma_binary_exponent_end(b, hex_digits_end(b, h + 1));
        } else {
            lemma_binary_exponent_end(b, h);
        }
    }
}

proof fn lemma_classify_not_end(t: i32, target: Target, p: int, e: int)
    ensures
        classify(t, target, p, e).type_ != TOK_END,
        classify(t, target, p, e).start == p,
        classify(t, target, p, e).end == e,
{
    let m = spec_type_mask(t);
    if m != TE_VARIABLE && ((TE_CLOSURE0 <= m <= TE_CLOSURE7) || (TE_FUNCTION0 <= m <= TE_FUNCTION7)) {
        crate::token::lemma_callable_not_token(t);
    }
}

/// Tokens lie within the expression, and every token but the end moves forward.
pub proof fn lemma_next_tok_bounds(src: Src, p: int)
    requires
        0 <= p <= src.bytes.len(),
    ensures
        p <= next_tok(src, p).start <= next_tok(src, p).end <= src.bytes.len(),
        next_tok(src, p).type_ == TOK_END <==> next_tok(src, p).end == src.bytes.len()
            && next_tok(src, p).start == src.bytes.len(),
        next_tok(src, p).type_ != TOK_END ==> next_tok(src, p).start < next_tok(src, p).end,
    decreases src.bytes.len() - p,
{
    reveal(next_tok);
    let b = src.bytes;
    if p < b.len() {
        if is_digit(b[p]) || b[p] == DOT {
            lemma_hex_end(b, p);
            lemma_digits_end(b, p);
            let d = digits_end(b, p);
            if d < b.len() && b[d] == DOT {
                lemma_digits_end(b, d + 1);
                lemma_exponent_end(b, digits_end(b, d + 1));
            } else {
                lemma_exponent_end(b, d);
            }
        } else if is_alpha(b[p]) {
            lemma_ident_end(b, p + 1);
            let e = ident_end(b, p + 1);
            let t = ident_tok(src, p);
            assert(t.start == p && t.end == e);
            let name = b.subrange(p, e);
            match spec_find_lookup(src.vars, name) {
                Some(i) => lemma_classify_not_end(src.vars[i as int].type_, Target::Lookup(i), p, e),
                None => match spec_find_builtin(name) {
                    Some(j) => lemma_classify_not_end(builtin_spec_type(j as int), Target::Builtin(j), p, e),
                    None => {},
                },
            }
        } else if is_space(b[p]) {
            lemma_next_tok_bounds(src, p + 1);
        }
    }
}

pub proof fn lemma_tok_bounds(src: Src, k: nat)
    ensures
        0 <= tok(src, k).start <= tok(src, k).end <= src.bytes.len(),
        tok(src, k).type_ == TOK_END <==> tok(src, k).end == src.bytes.len()
            && tok(src, k).start == src.bytes.len(),
        tok(src, k).type_ != TOK_END ==> tok(src, k).start < tok(src, k).end,
    decreases k,
{
    reveal(tok);
    if k == 0 {
        lemma_next_tok_bounds(src, 0);
    } else {
        lemma_tok_bounds(src, (k - 1) as nat);
        lemma_next_tok_bounds(src, tok(src, (k - 1) as nat).end);
    }
}

/// Reading a token never increases what is left, and reading any token but
/// the end decreases it.
pub proof fn lemma_meas_step(src: Src, k: nat)
    ensures
        meas(src, k + 1) <= meas(src, k),
        tok(src, k).type_ != TOK_END ==> meas(src, k + 1) < meas(src, k),
        tok(src, k).type_ == TOK_END ==> tok(src, k + 1).type_ == TOK_END,
{
    reveal(tok);
    reveal(meas);
    lemma_tok_bounds(src, k);
    lemma_tok_bounds(src, k + 1);
    assert(tok(src, k + 1) == next_tok(src, tok(src, k).end));
    lemma_next_tok_bounds(src, tok(src, k).end);
}

pub proof fn lemma_meas_mono(src: Src, i: nat, j: nat)
    requires
        i <= j,
    ensures
        meas(src, j) <= meas(src, i),
    decreases j - i,
{
    if i < j {
        lemma_meas_mono(src, i, (j - 1) as nat);
        lemma_meas_step(src, (j - 1) as nat);
    }
}


/// The tokenizer's state: the expression, the caller's bindings, and the
/// current token, which is token number `k` of the expression
/// (`k` is -1 before the first token has been read).
pub struct State<'a> {
    pub start: &'a [u8],
    pub lookup: &'a [TeVariable],
    pub tok: Token,
    pub k: Ghost<int>,
}

impl<'a> State<'a> {
    pub open spec fn src(&self) -> Src {
        Src { bytes: self.start@, vars: self.lookup@ }
    }

    pub open spec fn wf(&self) -> bool {
        &&& self.k@ >= -1
        &&& self.k@ == -1 ==> self.tok.end == 0
        &&& self.k@ >= 0 ==> self.tok@ == tok(self.src(), self.k@ as nat)
    }

    /// A tokenizer positioned before the first token of `expression`.
    pub fn new(expression: &'a str, variables: &'a [TeVariable]) -> (s: Self)
        ensures
            s.wf(),
            s.k@ == -1,
            s.start@ == expression.spec_bytes(),
            s.lookup@ == variables@,
            s.tok@ == (SpecTok { type_: TOK_NULL, start: 0, end: 0, target: None }),
    {
        State {
            start: expression.as_bytes(),
            lookup: variables,
            tok: Token { type_: TOK_NULL, start: 0, end: 0, target: None },
            k: Ghost(-1),
        }
    }
}

/// The index of the first binding named `name`.
pub fn find_lookup(lookup: &[TeVariable], name: &[u8]) -> (r: Option<usize>)
    ensures
        r == spec_find_lookup(lookup@, name@),
{
    let mut i: usize = 0;
    while i < lookup.len()
        invariant
            i <= lookup@.len(),
            spec_find_lookup(lookup@, name@) == find_lookup_from(lookup@, name@, i as nat),
        decreases lookup.len() - i,
    {
        let c = compare_bytes(lookup[i].name.as_bytes(), name);
        proof {
            lemma_lex_order_zero(lookup@[i as int].name.spec_bytes(), name@);
        }
        if c == 0 {
            return Some(i);
        }
        i = i + 1;
    }
    None
}

fn scan_digits(b: &[u8], i: usize) -> (r: usize)
    requires
        i <= b@.len(),
    ensures
        r == digits_end(b@, i as int),
{
    let mut j = i;
    while j < b.len() && DIGIT_0 <= b[j] && b[j] <= DIGIT_9
        invariant
            i <= j <= b@.len(),
            digits_end(b@, i as int) == digits_end(b@, j as int),
        decreases b.len() - j,
    {
        j = j + 1;
    }
    j
}

fn scan_ident(b: &[u8], i: usize) -> (r: usize)
    requires
        i <= b@.len(),
    ensures
        r == ident_end(b@, i as int),
{
    let mut j = i;
    while j < b.len() && ((LOWER_A <= b[j] && b[j] <= LOWER_Z) || (UPPER_A <= b[j] && b[j] <= UPPER_Z)
        || (DIGIT_0 <= b[j] && b[j] <= DIGIT_9) || b[j] == UNDERSCORE)
        invariant
            i <= j <= b@.len(),
            ident_end(b@, i as int) == ident_end(b@, j as int),
        decreases b.len() - j,
    {
        j = j + 1;
    }
    j
}

fn scan_hex_digits(b: &[u8], i: usize) -> (r: usize)
    requires
        i <= b@.len(),
    ensures
        r == hex_digits_end(b@, i as int),
{
    let mut j = i;
    while j < b.len() && ((DIGIT_0 <= b[j] && b[j] <= DIGIT_9) || (LOWER_A <= b[j] && b[j] <= LOWER_F)
        || (UPPER_A <= b[j] && b[j] <= UPPER_F))
        invariant
            i <= j <= b@.len(),
            hex_digits_end(b@, i as int) == hex_digits_end(b@, j as int),
        decreases b.len() - j,
    {
        j = j + 1;
    }
    j
}

/// The end of the hexadecimal number at `p`, if one starts there.
fn scan_hex(b: &[u8], p: usize) -> (r: Option<usize>)
    requires
        p < b@.len(),
    ensures
        r matches Some(e) ==> hex_end(b@, p as int) == Some(e as int),
        r is None ==> hex_end(b@, p as int) is None,
{
    let len = b.len();
    if len - p > 1 && b[p] == DIGIT_0 && (b[p + 1] == LOWER_X || b[p + 1] == UPPER_X) {
        proof {
            lemma_hex_digits_end(b@, p + 2);
        }
        let h = scan_hex_digits(b, p + 2);
        let m = if h < b.len() && b[h] == DOT {
            proof {
                lemma_hex_digits_end(b@, h + 1);
            }
            scan_hex_digits(b, h + 1)
        } else {
            h
        };
        if h > p + 2 || (m > h && m - h > 1) {
            let mut end = m;
            if m < b.len() && (b[m] == LOWER_P || b[m] == UPPER_P) {
                let q = if m + 1 < b.len() && (b[m + 1] == PLUS || b[m + 1] == MINUS) {
                    m + 2
                } else {
                    m + 1
                };
                proof {
                    lemma_digits_end(b@, q as int);
                }
                let r = scan_digits(b, q);
                if r > q {
                    end = r;
                }
            }
            Some(end)
        } else {
            None
        }
    } else {
        None
    }
}

/// The token of the number starting at `p`.
fn scan_number(b: &[u8], p: usize) -> (t: Token)
    requires
        p < b@.len(),
    ensures
        t@ == number_tok(b@, p as int),
{
    if let Some(e) = scan_hex(b, p) {
        return Token { type_: TOK_NUMBER, start: p, end: e, target: None };
    }
    proof {
        lemma_digits_end(b@, p as int);
    }
    let d = scan_digits(b, p);
    let m = if d < b.len() && b[d] == DOT {
        proof {
            lemma_digits_end(b@, d + 1);
        }
        scan_digits(b, d + 1)
    } else {
        d
    };
    if d > p || m > d + 1 {
        let mut end = m;
        if m < b.len() && (b[m] == LOWER_E || b[m] == UPPER_E) {
            let q = if m + 1 < b.len() && (b[m + 1] == PLUS || b[m + 1] == MINUS) {
                m + 2
            } else {
                m + 1
            };
            proof {
                lemma_digits_end(b@, q as int);
            }
            let r = scan_digits(b, q);
            if r > q {
                end = r;
            }
        }
        Token { type_: TOK_NUMBER, start: p, end, target: None }
    } else {
        Token { type_: TOK_ERROR, start: p, end: p + 1, target: None }
    }
}

/// The token for a name at `p..e` bound with type `t`.
fn classify_name(t: i32, target: Target, p: usize, e: usize) -> (r: Token)
    ensures
        r@ == classify(t, target, p as int, e as int),
{
    let m = type_mask(t);
    if m == TE_VARIABLE {
        Token { type_: TOK_VARIABLE, start: p, end: e, target: Some(target) }
    } else if (TE_CLOSURE0 <= m && m <= TE_CLOSURE7) || (TE_FUNCTION0 <= m && m <= TE_FUNCTION7) {
        Token { type_: t, start: p, end: e, target: Some(target) }
    } else {
        Token { type_: TOK_ERROR, start: p, end: e, target: None }
    }
}

/// The token of the name starting at `p`.
fn scan_name(b: &[u8], lookup: &[TeVariable], p: usize) -> (t: Token)
    requires
        p < b@.len(),
    ensures
        t@ == ident_tok(Src { bytes: b@, vars: lookup@ }, p as int),
{
    // Slice lengths fit in a `usize`: so do `p + 1` and every binding index.
    let _bytes_len: usize = b.len();
    let _bindings_len: usize = lookup.len();
    proof {
        lemma_ident_end(b@, p + 1);
    }
    let e = scan_ident(b, p + 1);
    let name = vstd::slice::slice_subrange(b, p, e);
    match find_lookup(lookup, name) {
        Some(i) => {
            proof {
                lemma_find_lookup_bound(lookup@, name@, 0);
            }
            classify_name(lookup[i].type_, Target::Lookup(i), p, e)
        },
        None => match find_builtin(name) {
            Some(j) => {
                proof {
                    lemma_find_builtin_bound(name@);
                }
                classify_name(builtin_type(j), Target::Builtin(j), p, e)
            },
            None => Token { type_: TOK_ERROR, start: p, end: e, target: None },
        },
    }
}

proof fn lemma_find_lookup_bound(vars: Seq<TeVariable>, name: Seq<u8>, i: nat)
    requires
        vars.len() <= usize::MAX,
    ensures
        find_lookup_from(vars, name, i) matches Some(j) ==> i <= j < vars.len()
            && vars[j as int].name.spec_bytes() == name,
    decreases vars.len() - i,
{
    if i < vars.len() && vars[i as int].name.spec_bytes() != name {
        lemma_find_lookup_bound(vars, name, i + 1);
    }
}

proof fn lemma_find_builtin_bound(name: Seq<u8>)
    ensures
        spec_find_builtin(name) matches Some(j) ==> j < BUILTIN_COUNT,
{
}

/// The token of the single character at `p`.
fn scan_operator(c: u8, p: usize) -> (t: Token)
    requires
        p < usize::MAX,
    ensures
        t@ == op_tok(c, p as int),
{
    if c == PLUS {
        Token { type_: TOK_INFIX, start: p, end: p + 1, target: Some(Target::Op(Operator::Add)) }
    } else if c == MINUS {
        Token { type_: TOK_INFIX, start: p, end: p + 1, target: Some(Target::Op(Operator::Sub)) }
    } else if c == STAR {
        Token { type_: TOK_INFIX, start: p, end: p + 1, target: Some(Target::Op(Operator::Mul)) }
    } else if c == SLASH {
        Token { type_: TOK_INFIX, start: p, end: p + 1, target: Some(Target::Op(Operator::Divide)) }
    } else if c == CARET {
        Token { type_: TOK_INFIX, start: p, end: p + 1, target: Some(Target::Op(Operator::Pow)) }
    } else if c == PERCENT {
        Token { type_: TOK_INFIX, start: p, end: p + 1, target: Some(Target::Op(Operator::Fmod)) }
    } else if c == OPEN_PAREN {
        Token { type_: TOK_OPEN, start: p, end: p + 1, target: None }
    } else if c == CLOSE_PAREN {
        Token { type_: TOK_CLOSE, start: p, end: p + 1, target: None }
    } else if c == COMMA {
        Token { type_: TOK_SEP, start: p, end: p + 1, target: None }
    } else {
        Token { type_: TOK_ERROR, start: p, end: p + 1, target: None }
    }
}

/// Reads the next token, skipping whitespace.
pub fn next_token(s: &mut State)
    requires
        old(s).wf(),
    ensures
        final(s).wf(),
        final(s).k@ == old(s).k@ + 1,
        final(s).start == old(s).start,
        final(s).lookup == old(s).lookup,
        final(s).tok@ == next_tok(old(s).src(), old(s).tok.end as int),
{
    let ghost src = s.src();
    proof {
        reveal(next_tok);
        if s.k@ >= 0 {
            lemma_tok_bounds(src, s.k@ as nat);
        }
    }
    let b = s.start;
    let p0 = s.tok.end;
    let mut p = p0;
    while p < b.len() && (b[p] == SPACE || b[p] == TAB || b[p] == NEWLINE || b[p] == RETURN)
        invariant
            p0 <= p <= b@.len(),
            src.bytes == b@,
            next_tok(src, p0 as int) == next_tok(src, p as int),
        decreases b.len() - p,
    {
        proof {
            reveal(next_tok);
        }
        p = p + 1;
    }
    let t = if p >= b.len() {
        Token { type_: TOK_END, start: p, end: p, target: None }
    } else {
        let c = b[p];
        if (DIGIT_0 <= c && c <= DIGIT_9) || c == DOT {
            scan_number(b, p)
        } else if (LOWER_A <= c && c <= LOWER_Z) || (UPPER_A <= c && c <= UPPER_Z) {
            scan_name(b, s.lookup, p)
        } else {
            scan_operator(c, p)
        }
    };
    s.tok = t;
    s.k = Ghost(s.k@ + 1);
    proof {
        reveal(tok);
        if s.k@ > 0 {
            assert(tok(src, s.k@ as nat) == next_tok(src, tok(src, (s.k@ - 1) as nat).end));
        }
    }
}


/// Every byte of `s` is a decimal digit.
pub open spec fn all_digits(s: Seq<u8>) -> bool {
    forall|i: int| 0 <= i < s.len() ==> is_digit(#[trigger] s[i])
}

/// Digits with at most one decimal point and at least one digit:
/// `D+`, `D+ "." D*` or `D* "." D+`.
pub open spec fn decimal_literal(s: Seq<u8>) -> bool {
    ||| (s.len() > 0 && all_digits(s))
    ||| exists|i: int|
        0 <= i < s.len() && #[trigger] s[i] == DOT && s.len() >= 2 && all_digits(s.take(i))
            && all_digits(s.skip(i + 1))
}

/// An exponent: `e` or `E`, an optional sign, and at least one digit.
pub open spec fn exponent_part(s: Seq<u8>) -> bool {
    &&& s.len() >= 2
    &&& (s[0] == LOWER_E || s[0] == UPPER_E)
    &&& (all_digits(s.skip(1)) || (s.len() >= 3 && (s[1] == PLUS || s[1] == MINUS) && all_digits(
        s.skip(2),
    )))
}

/// The text of a floating-point literal without sign: a decimal literal
/// followed by an optional exponent.
pub open spec fn float_literal(s: Seq<u8>) -> bool {
    ||| decimal_literal(s)
    ||| exists|j: int| 0 < j < s.len() && decimal_literal(#[trigger] s.take(j)) && exponent_part(s.skip(j))
}

/// Every byte of `s` is a hexadecimal digit.
pub open spec fn all_hex_digits(s: Seq<u8>) -> bool {
    forall|i: int| 0 <= i < s.len() ==> is_hex_digit(#[trigger] s[i])
}

/// Hexadecimal digits with at most one point and at least one digit.
pub open spec fn hex_mantissa(s: Seq<u8>) -> bool {
    ||| (s.len() > 0 && all_hex_digits(s))
    ||| exists|i: int|
        0 <= i < s.len() && #[trigger] s[i] == DOT && s.len() >= 2 && all_hex_digits(s.take(i))
            && all_hex_digits(s.skip(i + 1))
}

/// A binary exponent: `p` or `P`, an optional sign, and at least one
/// decimal digit.
pub open spec fn binary_exponent_part(s: Seq<u8>) -> bool {
    &&& s.len() >= 2
    &&& (s[0] == LOWER_P || s[0] == UPPER_P)
    &&& (all_digits(s.skip(1)) || (s.len() >= 3 && (s[1] == PLUS || s[1] == MINUS) && all_digits(
        s.skip(2),
    )))
}

/// The text of a hexadecimal floating-point literal without sign: `0x` or
/// `0X`, a hexadecimal mantissa, and an optional binary exponent.
pub open spec fn hex_literal(s: Seq<u8>) -> bool {
    &&& s.len() >= 3
    &&& s[0] == DIGIT_0
    &&& (s[1] == LOWER_X || s[1] == UPPER_X)
    &&& {
        ||| hex_mantissa(s.skip(2))
        ||| exists|j: int|
            0 < j < s.len() - 2 && hex_mantissa(#[trigger] s.skip(2).take(j)) && binary_exponent_part(
                s.skip(2).skip(j),
            )
    }
}

/// The text of a numeric literal: decimal or hexadecimal.
pub open spec fn number_literal(s: Seq<u8>) -> bool {
    float_literal(s) || hex_literal(s)
}

/// The built-in operators an infix token can stand for.
pub open spec fn infix_op(o: Operator) -> bool {
    o == Operator::Add || o == Operator::Sub || o == Operator::Mul || o == Operator::Divide
        || o == Operator::Pow || o == Operator::Fmod
}

/// What the parser may rely on about a token of `src`.
pub open spec fn token_ok(src: Src, t: SpecTok) -> bool {
    &&& (24 <= t.type_ <= 32 || 8 <= spec_type_mask(t.type_) <= 23)
    &&& t.type_ == TOK_NUMBER ==> 0 <= t.start < t.end <= src.bytes.len() && number_literal(
        src.bytes.subrange(t.start, t.end),
    )
    &&& t.type_ == TOK_VARIABLE ==> (t.target matches Some(Target::Lookup(i)) && i < src.vars.len()
        && spec_type_mask(src.vars[i as int].type_) == TE_VARIABLE)
    &&& t.type_ == TOK_INFIX ==> (t.target matches Some(Target::Op(o)) && infix_op(o))
    &&& 8 <= spec_type_mask(t.type_) <= 23 ==> match t.target {
        Some(Target::Lookup(i)) => i < src.vars.len() && src.vars[i as int].type_ == t.type_,
        Some(Target::Builtin(j)) => j < BUILTIN_COUNT && builtin_spec_type(j as int) == t.type_,
        _ => false,
    }
}

proof fn lemma_digits_take(b: Seq<u8>, p: int, q: int)
    requires
        0 <= p <= q <= b.len(),
        forall|j: int| p <= j < q ==> is_digit(#[trigger] b[j]),
    ensures
        all_digits(b.subrange(p, q)),
{
    assert forall|i: int| 0 <= i < b.subrange(p, q).len() implies is_digit(#[trigger] b.subrange(p, q)[i]) by {
        assert(b.subrange(p, q)[i] == b[p + i]);
    }
}

/// A decimal number token covers the text of a floating-point literal.
proof fn lemma_decimal_tok_ok(b: Seq<u8>, p: int)
    requires
        0 <= p < b.len(),
        decimal_tok(b, p).type_ == TOK_NUMBER,
    ensures
        p < decimal_tok(b, p).end <= b.len(),
        float_literal(b.subrange(p, decimal_tok(b, p).end)),
{
    lemma_digits_end(b, p);
    let d = digits_end(b, p);
    let dot = d < b.len() && b[d] == DOT;
    let m = if dot {
        digits_end(b, d + 1)
    } else {
        d
    };
    if dot {
        lemma_digits_end(b, d + 1);
    }
    let mant = b.subrange(p, m);
    assert(decimal_literal(mant)) by {
        if dot {
            lemma_digits_take(b, p, d);
            lemma_digits_take(b, d + 1, m);
            assert(mant.take(d - p) =~= b.subrange(p, d));
            assert(mant.skip(d - p + 1) =~= b.subrange(d + 1, m));
            assert(mant[d - p] == DOT);
        } else {
            lemma_digits_take(b, p, d);
            assert(mant =~= b.subrange(p, d));
        }
    }
    let end = exponent_end(b, m);
    lemma_exponent_end(b, m);
    if end > m {
        let q = if m + 1 < b.len() && (b[m + 1] == PLUS || b[m + 1] == MINUS) {
            m + 2
        } else {
            m + 1
        };
        lemma_digits_end(b, q);
        lemma_digits_take(b, q, end);
        let lit = b.subrange(p, end);
        let ex = lit.skip(m - p);
        assert(ex =~= b.subrange(m, end));
        if q == m + 2 {
            assert(ex.skip(2) =~= b.subrange(q, end));
        } else {
            assert(ex.skip(1) =~= b.subrange(q, end));
        }
        assert(exponent_part(ex));
        assert(lit.take(m - p) =~= mant);
        assert(decimal_literal(lit.take(m - p)));
    } else {
        assert(b.subrange(p, end) =~= mant);
    }
}

proof fn lemma_hex_digits_take(b: Seq<u8>, p: int, q: int)
    requires
        0 <= p <= q <= b.len(),
        forall|j: int| p <= j < q ==> is_hex_digit(#[trigger] b[j]),
    ensures
        all_hex_digits(b.subrange(p, q)),
{
    assert forall|i: int| 0 <= i < b.subrange(p, q).len() implies is_hex_digit(
        #[trigger] b.subrange(p, q)[i],
    ) by {
        assert(b.subrange(p, q)[i] == b[p + i]);
    }
}

/// A hexadecimal number covers the text of a hexadecimal literal.
proof fn lemma_hex_tok_ok(b: Seq<u8>, p: int)
    requires
        0 <= p < b.len(),
        hex_end(b, p) is Some,
    ensures
        hex_literal(b.subrange(p, hex_end(b, p)->0)),
{
    let h = hex_digits_end(b, p + 2);
    lemma_hex_digits_end(b, p + 2);
    let dot = h < b.len() && b[h] == DOT;
    let m = if dot {
        hex_digits_end(b, h + 1)
    } else {
        h
    };
    if dot {
        lemma_hex_digits_end(b, h + 1);
    }
    let q0 = p + 2;
    let mant = b.subrange(q0, m);
    assert(hex_mantissa(mant)) by {
        if dot {
            lemma_hex_digits_take(b, q0, h);
            lemma_hex_digits_take(b, h + 1, m);
            assert(mant.take(h - q0) =~= b.subrange(q0, h));
            assert(mant.skip(h - q0 + 1) =~= b.subrange(h + 1, m));
            assert(mant[h - q0] == DOT);
        } else {
            lemma_hex_digits_take(b, q0, h);
            assert(mant =~= b.subrange(q0, h));
        }
    }
    let end = binary_exponent_end(b, m);
    lemma_binary_exponent_end(b, m);
    let lit = b.subrange(p, end);
    assert(lit[0] == b[p] && lit[1] == b[p + 1]);
    if end > m {
        let q = if m + 1 < b.len() && (b[m + 1] == PLUS || b[m + 1] == MINUS) {
            m + 2
        } else {
            m + 1
        };
        lemma_digits_end(b, q);
        lemma_digits_take(b, q, end);
        let ex = lit.skip(2).skip(m - q0);
        assert(ex =~= b.subrange(m, end));
        if q == m + 2 {
            assert(ex.skip(2) =~= b.subrange(q, end));
        } else {
            assert(ex.skip(1) =~= b.subrange(q, end));
        }
        assert(binary_exponent_part(ex));
        assert(lit.skip(2).take(m - q0) =~= mant);
        assert(hex_mantissa(lit.skip(2).take(m - q0)));
    } else {
        assert(lit.skip(2) =~= mant);
    }
}

/// A number token covers the text of a numeric literal.
proof fn lemma_number_tok_ok(b: Seq<u8>, p: int)
    requires
        0 <= p < b.len(),
        number_tok(b, p).type_ == TOK_NUMBER,
    ensures
        p < number_tok(b, p).end <= b.len(),
        number_literal(b.subrange(p, number_tok(b, p).end)),
{
    lemma_hex_end(b, p);
    if hex_end(b, p) is Some {
        lemma_hex_tok_ok(b, p);
    } else {
        lemma_decimal_tok_ok(b, p);
    }
}

proof fn lemma_classify_ok(src: Src, t: i32, target: Target, p: int, e: int)
    requires
        match target {
            Target::Lookup(i) => i < src.vars.len() && src.vars[i as int].type_ == t,
            Target::Builtin(j) => j < BUILTIN_COUNT && builtin_spec_type(j as int) == t,
            _ => false,
        },
    ensures
        token_ok(src, classify(t, target, p, e)),
{
    crate::token::lemma_type_mask_range(t);
    crate::token::lemma_token_masks();
    if 8 <= spec_type_mask(t) <= 23 {
        crate::token::lemma_callable_not_token(t);
    }
    if let Target::Builtin(j) = target {
        crate::functions::lemma_builtin_type(j as int);
    }
}

/// Every token the tokenizer produces is one the parser can rely on.
pub proof fn lemma_next_tok_ok(src: Src, p: int)
    requires
        0 <= p <= src.bytes.len(),
        src.vars.len() <= usize::MAX,
    ensures
        token_ok(src, next_tok(src, p)),
    decreases src.bytes.len() - p,
{
    reveal(next_tok);
    crate::token::lemma_token_masks();
    let b = src.bytes;
    if p < b.len() {
        if is_digit(b[p]) || b[p] == DOT {
            if number_tok(b, p).type_ == TOK_NUMBER {
                lemma_number_tok_ok(b, p);
            }
        } else if is_alpha(b[p]) {
            lemma_ident_end(b, p + 1);
            let e = ident_end(b, p + 1);
            let name = b.subrange(p, e);
            match spec_find_lookup(src.vars, name) {
                Some(i) => {
                    lemma_find_lookup_bound(src.vars, name, 0);
                    lemma_classify_ok(src, src.vars[i as int].type_, Target::Lookup(i), p, e);
                },
                None => match spec_find_builtin(name) {
                    Some(j) => {
                        lemma_find_builtin_bound(name);
                        lemma_classify_ok(src, builtin_spec_type(j as int), Target::Builtin(j), p, e);
                    },
                    None => {},
                },
            }
        } else if is_space(b[p]) {
            lemma_next_tok_ok(src, p + 1);
        }
    }
}

pub proof fn lemma_tok_ok(src: Src, k: nat)
    requires
        src.vars.len() <= usize::MAX,
    ensures
        token_ok(src, tok(src, k)),
{
    reveal(tok);
    if k == 0 {
        lemma_next_tok_ok(src, 0);
    } else {
        lemma_tok_bounds(src, (k - 1) as nat);
        lemma_next_tok_ok(src, tok(src, (k - 1) as nat).end);
    }
}

} // verus!
