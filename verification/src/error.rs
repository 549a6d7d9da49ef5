use vstd::prelude::*;

verus! {

/// Why an expression could not be evaluated.
#[derive(Debug, Clone, Copy, PartialEq, Eq, Structural)]
pub enum EvaluationError {
    /// A character outside the grammar, or the second decimal point of a number.
    UnexpectedCharacter(char),
    /// A parenthesis without its partner.
    MismatchedParentheses,
    /// The tokens do not make up exactly one expression.
    MalformedExpression,
}

} // verus!
