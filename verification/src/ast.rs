//! Expression trees and their evaluation.

use vstd::prelude::*;
use crate::decimal::{Decimal, DecimalView};

verus! {

/// An expression: a number, the negation of an expression, or the sum,
/// difference or product of two.
#[derive(Debug, PartialEq, Eq)]
pub enum Ast {
    Literal(Decimal),
    Negate(Box<Ast>),
    Add(Box<Ast>, Box<Ast>),
    Subtract(Box<Ast>, Box<Ast>),
    Multiply(Box<Ast>, Box<Ast>),
}

/// The mathematical content of an [`Ast`].
pub ghost enum AstView {
    Literal(DecimalView),
    Negate(Box<AstView>),
    Add(Box<AstView>, Box<AstView>),
    Subtract(Box<AstView>, Box<AstView>),
    Multiply(Box<AstView>, Box<AstView>),
}

impl AstView {
    /// The number that the expression stands for.
    pub open spec fn value(self) -> real
        decreases self,
    {
        match self {
            AstView::Literal(d) => d.value(),
            AstView::Negate(a) => -a.value(),
            AstView::Add(a, b) => a.value() + b.value(),
            AstView::Subtract(a, b) => a.value() - b.value(),
            AstView::Multiply(a, b) => a.value() * b.value(),
        }
    }
}

impl Ast {
    /// The expression as a mathematical tree.
    pub open spec fn tree(self) -> AstView
        decreases self,
    {
        match self {
            Ast::Literal(d) => AstView::Literal(d@),
            Ast::Negate(a) => AstView::Negate(Box::new((*a).tree())),
            Ast::Add(a, b) => AstView::Add(Box::new((*a).tree()), Box::new((*b).tree())),
            Ast::Subtract(a, b) => AstView::Subtract(Box::new((*a).tree()), Box::new((*b).tree())),
            Ast::Multiply(a, b) => AstView::Multiply(Box::new((*a).tree()), Box::new((*b).tree())),
        }
    }
}

impl View for Ast {
    type V = AstView;

    open spec fn view(&self) -> AstView {
        self.tree()
    }
}

/// Computes the number that an expression stands for. The result is exact.
pub fn evaluate(input: &Ast) -> (r: Decimal)
    ensures
        r@.canonical(),
        r@.value() == input@.value(),
    decreases input,
{
    match input {
        Ast::Literal(d) => d.clone(),
        Ast::Negate(a) => evaluate(a).negate(),
        Ast::Add(a, b) => evaluate(a).plus(&evaluate(b)),
        Ast::Subtract(a, b) => evaluate(a).minus(&evaluate(b)),
        Ast::Multiply(a, b) => evaluate(a).times(&evaluate(b)),
    }
}

} // verus!
