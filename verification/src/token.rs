//! Token kinds used by the lexer and parser, and the node-type encoding
//! shared by variable bindings and expression nodes.
use vstd::prelude::*;

verus! {

pub const TOK_NULL: i32 = 24;
pub const TOK_ERROR: i32 = 25;
pub const TOK_END: i32 = 26;
pub const TOK_SEP: i32 = 27;
pub const TOK_OPEN: i32 = 28;
pub const TOK_CLOSE: i32 = 29;
pub const TOK_NUMBER: i32 = 30;
pub const TOK_VARIABLE: i32 = 31;
pub const TOK_INFIX: i32 = 32;

pub const TE_VARIABLE: i32 = 0;
pub const TE_CONSTANT: i32 = 1;

pub const TE_FUNCTION0: i32 = 8;
pub const TE_FUNCTION1: i32 = 9;
pub const TE_FUNCTION2: i32 = 10;
pub const TE_FUNCTION3: i32 = 11;
pub const TE_FUNCTION4: i32 = 12;
pub const TE_FUNCTION5: i32 = 13;
pub const TE_FUNCTION6: i32 = 14;
pub const TE_FUNCTION7: i32 = 15;

pub const TE_CLOSURE0: i32 = 16;
pub const TE_CLOSURE1: i32 = 17;
pub const TE_CLOSURE2: i32 = 18;
pub const TE_CLOSURE3: i32 = 19;
pub const TE_CLOSURE4: i32 = 20;
pub const TE_CLOSURE5: i32 = 21;
pub const TE_CLOSURE6: i32 = 22;
pub const TE_CLOSURE7: i32 = 23;

pub const TE_FLAG_PURE: i32 = 32;

/// The kind bits of a type: its low five bits.
pub open spec fn spec_type_mask(t: i32) -> i32 {
    t & 0x1F
}

/// A type is pure when its `TE_FLAG_PURE` bit is set.
pub open spec fn spec_is_pure(t: i32) -> bool {
    t & TE_FLAG_PURE != 0
}

pub open spec fn spec_is_function(t: i32) -> bool {
    t & TE_FUNCTION0 != 0
}

pub open spec fn spec_is_closure(t: i32) -> bool {
    t & TE_CLOSURE0 != 0
}

/// Number of arguments of a function or closure type; zero for anything else.
pub open spec fn spec_arity(t: i32) -> int {
    if t & (TE_FUNCTION0 | TE_CLOSURE0) != 0 {
        (t & 7) as int
    } else {
        0
    }
}

pub proof fn lemma_type_mask_range(t: i32)
    ensures
        0 <= spec_type_mask(t) < 32,
{
    assert(0 <= t & 0x1F < 32) by (bit_vector);
}

/// For a type whose kind is a function or closure of arity `n`,
/// `spec_arity` gives `n` and the closure flag tells the two apart.
pub proof fn lemma_callable_kind(t: i32)
    requires
        8 <= spec_type_mask(t) <= 23,
    ensures
        spec_arity(t) == (spec_type_mask(t) & 7),
        spec_is_closure(t) <==> spec_type_mask(t) >= 16,
        spec_is_function(t) <==> (8 <= spec_type_mask(t) <= 15),
        0 <= spec_arity(t) <= 7,
{
    assert(8 <= t & 0x1F <= 23 ==> (t & (8i32 | 16i32) != 0 && (t & 7) == ((t & 0x1F) & 7)))
        by (bit_vector);
    assert(8 <= t & 0x1F <= 23 ==> ((t & 16 != 0) <==> (t & 0x1F) >= 16)) by (bit_vector);
    assert(8 <= t & 0x1F <= 23 ==> ((t & 8 != 0) <==> (t & 0x1F) <= 15)) by (bit_vector);
    assert(0 <= t & 7 <= 7) by (bit_vector);
}

/// A function or closure type is none of the token types.
pub proof fn lemma_callable_not_token(t: i32)
    requires
        8 <= spec_type_mask(t) <= 23,
    ensures
        !(24 <= t <= 32),
{
    assert(8 <= t & 0x1F <= 23 ==> !(24 <= t <= 32)) by (bit_vector);
}

/// The kind bits of the token types are the token types themselves,
/// but for `TOK_INFIX`, whose kind bits are those of a variable.
pub proof fn lemma_token_masks()
    ensures
        forall|t: i32| 24 <= t <= 31 ==> #[trigger] spec_type_mask(t) == t,
        spec_type_mask(TOK_INFIX) == TE_VARIABLE,
{
    assert forall|t: i32| 24 <= t <= 31 implies #[trigger] spec_type_mask(t) == t by {
        assert(24 <= t <= 31 ==> t & 0x1F == t) by (bit_vector);
    }
    assert(32i32 & 0x1F == 0) by (bit_vector);
}

/// The types of operator nodes: pure functions of one and two arguments.
pub proof fn lemma_operator_types()
    ensures
        spec_arity(TE_FUNCTION1 | TE_FLAG_PURE) == 1,
        spec_arity(TE_FUNCTION2 | TE_FLAG_PURE) == 2,
        spec_is_pure(TE_FUNCTION1 | TE_FLAG_PURE),
        spec_is_pure(TE_FUNCTION2 | TE_FLAG_PURE),
        spec_type_mask(TE_FUNCTION1 | TE_FLAG_PURE) == TE_FUNCTION1,
        spec_type_mask(TE_FUNCTION2 | TE_FLAG_PURE) == TE_FUNCTION2,
{
    assert((9i32 | 32i32) & (8i32 | 16i32) != 0 && (9i32 | 32i32) & 7 == 1 && (9i32 | 32i32) & 32 != 0
        && (9i32 | 32i32) & 0x1F == 9) by (bit_vector);
    assert((10i32 | 32i32) & (8i32 | 16i32) != 0 && (10i32 | 32i32) & 7 == 2 && (10i32 | 32i32) & 32
        != 0 && (10i32 | 32i32) & 0x1F == 10) by (bit_vector);
}

/// The kind bits of `t`.
pub fn type_mask(t: i32) -> (r: i32)
    ensures
        r == spec_type_mask(t),
        0 <= r < 32,
{
    proof {
        lemma_type_mask_range(t);
    }
    t & 0x1F
}

/// Whether `t` carries the pure flag.
pub fn is_pure(t: i32) -> (r: bool)
    ensures
        r == spec_is_pure(t),
{
    (t & TE_FLAG_PURE) != 0
}

/// Whether `t` has the function bit.
pub fn is_function(t: i32) -> (r: bool)
    ensures
        r == spec_is_function(t),
{
    (t & TE_FUNCTION0) != 0
}

/// Whether `t` has the closure bit.
pub fn is_closure(t: i32) -> (r: bool)
    ensures
        r == spec_is_closure(t),
{
    (t & TE_CLOSURE0) != 0
}

/// Number of arguments a function or closure of type `t` takes.
pub fn arity(t: i32) -> (r: i32)
    ensures
        r == spec_arity(t),
        0 <= r <= 7,
{
    assert(0 <= t & 7 <= 7) by (bit_vector);
    if (t & (TE_FUNCTION0 | TE_CLOSURE0)) != 0 {
        t & 0x0000_0007
    } else {
        0
    }
}

} // verus!
