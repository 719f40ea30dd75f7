//! A small language of tabletop dice expressions: a scanner, a
//! recursive-descent parser producing an abstract syntax tree, and a
//! tree-walking evaluator that rolls dice, applies pool selections
//! (keep/drop highest/lowest, advantage/disadvantage) and arithmetic.

use vstd::prelude::*;

pub mod ast;
pub mod dot;
pub mod eval;
pub mod graph;
pub mod laws;
pub mod lexer;
pub mod lookahead;
pub mod parser;
pub mod pp;
pub mod text;

verus! {

/// The die sides the language accepts.
pub open spec fn valid_sides(s: i32) -> bool {
    s == 4 || s == 6 || s == 8 || s == 10 || s == 12 || s == 20 || s == 100
}

/// Executable check that a sides value is one of the legal die types.
pub fn is_valid_sides(s: i32) -> (r: bool)
    ensures
        r == valid_sides(s),
{
    s == 4 || s == 6 || s == 8 || s == 10 || s == 12 || s == 20 || s == 100
}

} // verus!
