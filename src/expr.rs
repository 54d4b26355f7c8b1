use crate::token::{Token, TokenView};
use vstd::prelude::*;

verus! {

/// The shape of an expression: a leaf holds the text of a number, an inner node
/// the operator token between its two operands.
pub enum Tree {
    Leaf(Seq<char>),
    Node(Box<Tree>, TokenView, Box<Tree>),
}

/// An expression tree; every node owns its operands.
#[derive(Debug, PartialEq)]
pub enum Expr<'a> {
    Binary(Binary<'a>),
    Literal(Literal),
}

/// A number of the source, kept as its decimal text; turning it into a
/// floating-point value is left to whoever evaluates the tree.
#[derive(Debug, PartialEq, Clone)]
pub struct Literal {
    pub value: LiteralValue,
}

#[derive(Debug, PartialEq, Clone)]
pub enum LiteralValue {
    Number(String),
}

/// An operator applied to two operands.
#[derive(Debug, PartialEq)]
pub struct Binary<'a> {
    pub left: Box<Expr<'a>>,
    pub op: Token<'a>,
    pub right: Box<Expr<'a>>,
}

impl View for LiteralValue {
    type V = Seq<char>;

    open spec fn view(&self) -> Seq<char> {
        match self {
            LiteralValue::Number(text) => text@,
        }
    }
}

impl<'a> Expr<'a> {
    /// The shape of the expression.
    pub open spec fn tree(&self) -> Tree
        decreases self,
    {
        match self {
            Expr::Binary(b) => Tree::Node(Box::new(b.left.tree()), b.op@, Box::new(b.right.tree())),
            Expr::Literal(l) => Tree::Leaf(l.value@),
        }
    }
}

impl<'a> Binary<'a> {
    pub fn new(left: Expr<'a>, op: Token<'a>, right: Expr<'a>) -> (r: Self)
        ensures
            *r.left == left,
            r.op == op,
            *r.right == right,
    {
        Binary { left: Box::new(left), op, right: Box::new(right) }
    }
}

impl Literal {
    pub fn new(value: LiteralValue) -> (r: Self)
        ensures
            r.value == value,
    {
        Literal { value }
    }
}

} // verus!
