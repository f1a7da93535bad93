//! The closed expression representation that the evaluator interprets:
//! literals, column identifiers, truth tests, and unary and binary
//! operators.

use vstd::prelude::*;

use crate::table::Literal;

verus! {

/// A binary operator.
#[derive(Debug, Clone, Copy, PartialEq, Eq, Structural)]
pub enum Binary {
    Plus,
    Minus,
    Mul,
    Div,
    Rem,
    Eq,
    Lt,
    Gt,
    LtEq,
    GtEq,
    NotEq,
}

/// Is `op` one of the arithmetic operators?
pub open spec fn is_arith(op: Binary) -> bool {
    op is Plus || op is Minus || op is Mul || op is Div || op is Rem
}

/// A unary operator.
#[derive(Debug, Clone, Copy, PartialEq, Eq, Structural)]
pub enum Unary {
    Not,
    Plus,
    Minus,
}

/// A column reference: one named column, or all of them.
#[derive(Debug, PartialEq)]
pub enum Ident {
    Wildcard,
    Named(String),
}

impl Clone for Ident {
    fn clone(&self) -> (r: Self)
        ensures
            r == *self,
    {
        match self {
            Ident::Wildcard => Ident::Wildcard,
            Ident::Named(s) => Ident::Named(s.clone()),
        }
    }
}

/// An expression tree. `NoPredicate` is the sentinel for a statement that
/// carries no filter at all; evaluating it directly is an error.
#[derive(Debug, PartialEq)]
pub enum Expression {
    Literal(Literal),
    Ident(Ident),
    IsFalse(Box<Expression>),
    IsTrue(Box<Expression>),
    IsNull(Box<Expression>),
    IsNotNull(Box<Expression>),
    Unary { operator: Unary, expression: Box<Expression> },
    Binary { operator: Binary, left: Box<Expression>, right: Box<Expression> },
    NoPredicate,
}

} // verus!
