//! Errors of the expression compiler.
use vstd::prelude::*;

verus! {

/// An error of the expression compiler.
#[derive(Debug, Clone, Copy, PartialEq, Eq, Structural)]
pub enum TeError {
    /// Parse error at the given 1-based character offset.
    ParseError(i32),
    /// Internal failure.
    Internal,
}

impl TeError {
    /// The offset of a parse error; `None` for an internal failure.
    pub fn offset(self) -> (r: Option<i32>)
        ensures
            r == (match self {
                TeError::ParseError(o) => Some(o),
                TeError::Internal => None::<i32>,
            }),
    {
        match self {
            TeError::ParseError(o) => Some(o),
            TeError::Internal => None,
        }
    }
}

pub type TeResult<T> = Result<T, TeError>;

} // verus!
