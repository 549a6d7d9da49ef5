use crate::lexer::{is_binary_symbol, Token, TokenView};
use vstd::prelude::*;

verus! {

/// Binary operators and signs.
pub open spec fn is_operator(t: TokenView) -> bool {
    t is Operator || t is UnaryOperator
}

/// How tightly an operator binds: `+ -` 1, `* /` 2, `^` 3, a sign 10;
/// 0 for what is no operator.
pub open spec fn precedence_of(t: TokenView) -> nat {
    match t {
        TokenView::Operator(op) => {
            if op == '+' || op == '-' {
                1
            } else if op == '*' || op == '/' {
                2
            } else if op == '^' {
                3
            } else {
                0
            }
        },
        TokenView::UnaryOperator(_) => 10,
        _ => 0,
    }
}

/// The tokens that have an associativity: a binary operator with one of its
/// symbols, and a sign.
pub open spec fn has_associativity(t: TokenView) -> bool {
    match t {
        TokenView::Operator(op) => is_binary_symbol(op),
        TokenView::UnaryOperator(_) => true,
        _ => false,
    }
}

/// `+ - * /` group from the left; `^` and the signs from the right.
pub open spec fn left_associative(t: TokenView) -> bool {
    match t {
        TokenView::Operator(op) => op == '+' || op == '-' || op == '*' || op == '/',
        _ => false,
        }
}

/// Whether the operator `top`, waiting on the stack, is applied before the
/// binary operator `op` that arrives: it binds tighter, or as tightly and
/// groups from the left.
pub open spec fn yields_to(top: TokenView, op: TokenView) -> bool {
    is_operator(top) && (precedence_of(top) > precedence_of(op) || (precedence_of(top)
        == precedence_of(op) && left_associative(top)))
}

/// How tightly the token binds: see [`precedence_of`].
pub fn precedence(tkn: &Token) -> (p: u16)
    ensures
        p == precedence_of(tkn@),
{
    match tkn {
        Token::Operator(op) => {
            if *op == '+' || *op == '-' {
                1
            } else if *op == '*' || *op == '/' {
                2
            } else if *op == '^' {
                3
            } else {
                0
            }
        },
        Token::UnaryOperator(_) => 10,
        _ => 0,
    }
}

/// Whether the operator groups from the left: see [`left_associative`].
pub fn is_left_associative(tkn: &Token) -> (left: bool)
    requires
        has_associativity(tkn@),
    ensures
        left == left_associative(tkn@),
{
    match tkn {
        Token::Operator(op) => *op != '^',
        _ => false,
    }
}

} // verus!
