//! Expression trees built from tokens.
use crate::tokens::{LiteralValue, Token};
use vstd::prelude::*;

verus! {

pub enum Expr {
    Binary(Binary),
    Grouping(Grouping),
    Literal(Literal),
    Unary(Unary),
}

pub struct Binary {
    pub left: Box<Expr>,
    pub operator: Token,
    pub right: Box<Expr>,
}

pub struct Grouping {
    pub expression: Box<Expr>,
}

pub struct Literal {
    pub value: LiteralValue,
}

pub struct Unary {
    pub operator: Token,
    pub right: Box<Expr>,
}

} // verus!
