//! Abstract syntax tree for dice expressions.
//!
//! The tree is a closed set of node kinds gathered in the [`Expr`] sum type;
//! every consumer (evaluator, pretty-printer, graph writers) walks it by
//! exhaustive pattern matching. Child order is fixed: binary nodes are
//! left-then-right, a roll is count-then-sides-then-selection, and a
//! selection is count-then-next.

use vstd::prelude::*;

verus! {

/// Selections that can be made over dice rolls.
#[derive(Debug, PartialEq, Eq, Clone, Copy, Structural)]
pub enum Selection {
    /// Keep the lowest *n* dice.
    KeepLowest,
    /// Keep the highest *n* dice.
    KeepHighest,
    /// Discard the lowest *n* dice.
    DropLowest,
    /// Discard the highest *n* dice.
    DropHighest,
    /// Reroll the previous pool and keep the higher total.
    Advantage,
    /// Reroll the previous pool and keep the lower total.
    Disadvantage,
}

/// Node that represents a literal integer value.
#[derive(Debug)]
pub struct Lit {
    pub value: i32,
}

/// A node that represents rolling some number of particular dice.
///
/// `count` and `sides` are themselves nodes so that the parser's defaulting
/// rules can be expressed as literals.
#[derive(Debug)]
pub struct Roll {
    pub count: Box<Expr>,
    pub sides: Box<Expr>,
    pub select: Option<Box<Expr>>,
}

/// A node that specifies some selection over previously rolled dice.
#[derive(Debug)]
pub struct Select {
    pub selection: Selection,
    pub count: Option<Box<Expr>>,
    pub next: Option<Box<Expr>>,
}

/// A node that represents the unary negation operation.
#[derive(Debug)]
pub struct Neg {
    pub right: Box<Expr>,
}

/// A node that represents the addition operation.
#[derive(Debug)]
pub struct Add {
    pub left: Box<Expr>,
    pub right: Box<Expr>,
}

/// A node that represents the subtraction operation.
#[derive(Debug)]
pub struct Sub {
    pub left: Box<Expr>,
    pub right: Box<Expr>,
}

/// A node that represents the multiplication operation.
#[derive(Debug)]
pub struct Mul {
    pub left: Box<Expr>,
    pub right: Box<Expr>,
}

/// A node that represents the division operation.
#[derive(Debug)]
pub struct Div {
    pub left: Box<Expr>,
    pub right: Box<Expr>,
}

/// An expression node: one of the closed set of AST node kinds.
#[derive(Debug)]
pub enum Expr {
    Lit(Lit),
    Roll(Roll),
    Select(Select),
    Neg(Neg),
    Add(Add),
    Sub(Sub),
    Mul(Mul),
    Div(Div),
}

impl Expr {
    /// Structural equality of two trees: same node shapes and the same
    /// literal values throughout.
    pub fn same_as(&self, other: &Expr) -> (r: bool)
        ensures
            r == (self == other),
        decreases self,
    {
        match (self, other) {
            (Expr::Lit(a), Expr::Lit(b)) => a.value == b.value,
            (Expr::Roll(a), Expr::Roll(b)) => a.count.same_as(&b.count)
                && a.sides.same_as(&b.sides)
                && same_as_opt(&a.select, &b.select),
            (Expr::Select(a), Expr::Select(b)) => a.selection == b.selection
                && same_as_opt(&a.count, &b.count)
                && same_as_opt(&a.next, &b.next),
            (Expr::Neg(a), Expr::Neg(b)) => a.right.same_as(&b.right),
            (Expr::Add(a), Expr::Add(b)) => a.left.same_as(&b.left) && a.right.same_as(&b.right),
            (Expr::Sub(a), Expr::Sub(b)) => a.left.same_as(&b.left) && a.right.same_as(&b.right),
            (Expr::Mul(a), Expr::Mul(b)) => a.left.same_as(&b.left) && a.right.same_as(&b.right),
            (Expr::Div(a), Expr::Div(b)) => a.left.same_as(&b.left) && a.right.same_as(&b.right),
            _ => false,
        }
    }
}

/// Structural equality of two optional child nodes.
fn same_as_opt(a: &Option<Box<Expr>>, b: &Option<Box<Expr>>) -> (r: bool)
    ensures
        r == (a == b),
    decreases a,
{
    match (a, b) {
        (None, None) => true,
        (Some(x), Some(y)) => x.same_as(y),
        _ => false,
    }
}

} // verus!
