//! A small recursive-descent compiler for mathematical expressions: it reads
//! an expression such as `sqrt(x^2 + y^2)` with a list of caller bindings,
//! builds the expression tree, and folds its constant parts.
use vstd::prelude::*;

pub mod token;
pub mod error;
pub mod ast;
pub mod functions;
pub mod lexer;
pub mod parser;
pub mod optimizer;
pub mod validity;
pub mod laws;
pub mod failure;
pub mod grammar;
pub mod calls;
pub mod literals;
pub mod parse_trees;
pub mod order;

pub use ast::{Expr, Operator, SpecExpr, Target, TeVariable};
pub use error::{TeError, TeResult};
pub use functions::{binomial, builtin_name, builtin_type, factorial, find_builtin, BUILTIN_COUNT};
pub use token::{
    arity, is_closure, is_function, is_pure, type_mask, TE_CLOSURE0, TE_CLOSURE1, TE_CLOSURE2,
    TE_CLOSURE3, TE_CLOSURE4, TE_CLOSURE5, TE_CLOSURE6, TE_CLOSURE7, TE_CONSTANT, TE_FLAG_PURE,
    TE_FUNCTION0, TE_FUNCTION1, TE_FUNCTION2, TE_FUNCTION3, TE_FUNCTION4, TE_FUNCTION5,
    TE_FUNCTION6, TE_FUNCTION7, TE_VARIABLE, TOK_CLOSE, TOK_END, TOK_ERROR, TOK_INFIX, TOK_NULL,
    TOK_NUMBER, TOK_OPEN, TOK_SEP, TOK_VARIABLE,
};

use crate::lexer::Src;
use crate::optimizer::{optimize, optimized};
use crate::parser::{result_is, source, spec_parse};
use crate::validity::{lemma_optimized_valid, lemma_parse_valid, lemma_valid_foldable, valid_expr};

verus! {

/// What compiling `src` gives: the folded tree of the expression, or the
/// 1-based position of the first error.
pub open spec fn spec_compile(src: Src) -> Result<SpecExpr, i32> {
    match spec_parse(src) {
        Ok(e) => Ok(optimized(e)),
        Err(c) => Err(c),
    }
}

/// Compiles `expression` with the caller's bindings `variables`: parses it
/// and folds its constant parts.  On failure the error is the 1-based
/// position at which reading stopped.  Every tree returned is valid: each
/// call has as many arguments as its arity, each name refers to a binding
/// of the right kind and each constant is a literal of the expression; and
/// every folded node depends on nothing that can change (no variable, only
/// pure calls).
pub fn te_compile(expression: &str, variables: &[TeVariable]) -> (r: Result<Box<Expr>, i32>)
    ensures
        result_is(r, spec_compile(source(expression, variables))),
        r matches Ok(b) ==> valid_expr(source(expression, variables), b@),
        r matches Ok(b) ==> crate::laws::folds_closed(b@),
{
    let ghost src = source(expression, variables);
    // A slice length fits in a `usize`, as the validity lemma needs.
    let _bindings_len: usize = variables.len();
    proof {
        lemma_parse_valid(src);
        crate::parse_trees::lemma_parse_plain(src);
    }
    match parser::te_compile(expression, variables) {
        Ok(root) => {
            proof {
                lemma_valid_foldable(src, root@);
                lemma_optimized_valid(src, root@);
                crate::laws::law_folded_nodes_are_closed(root@);
            }
            let mut root = *root;
            optimize(&mut root);
            Ok(Box::new(root))
        },
        Err(c) => Err(c),
    }
}

} // verus!
