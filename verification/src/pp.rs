//! A pretty-printer for dice expressions: renders a tree back to the
//! textual notation.
//!
//! The canonical form makes defaults explicit (`d6` prints as `1d6`), and
//! re-parsing the canonical form of a parsed expression yields a
//! structurally equivalent tree: sums and terms print with spaces around
//! their operators, a sum inside a product is parenthesized, and a
//! selection without a count is separated from a chained selection by a
//! space so the two words do not run together.

use vstd::prelude::*;

use crate::ast::{Expr, Selection};
use crate::text::{dec_str_i32, push_char, push_i32_dec};

verus! {

/// The word a selection kind prints as.
pub open spec fn selection_word(kind: Selection) -> Seq<char> {
    match kind {
        Selection::KeepHighest => seq!['k', 'h'],
        Selection::KeepLowest => seq!['k', 'l'],
        Selection::DropHighest => seq!['d', 'h'],
        Selection::DropLowest => seq!['d', 'l'],
        Selection::Advantage => seq!['a', 'd', 'v'],
        Selection::Disadvantage => seq!['d', 'i', 's'],
    }
}

/// The canonical text of a node; `prod` tells whether the node stands
/// inside a product, in which case a sum is parenthesized.
pub open spec fn pp_expr(e: Expr, prod: bool) -> Seq<char>
    decreases e,
{
    match e {
        Expr::Lit(l) => dec_str_i32(l.value as int),
        Expr::Roll(ro) => pp_expr(*ro.count, prod) + seq!['d'] + pp_expr(*ro.sides, prod) + (
        match ro.select {
            Some(sel) => pp_expr(*sel, prod),
            None => Seq::empty(),
        }),
        Expr::Select(sel) => selection_word(sel.selection) + (
        match sel.count {
            Some(c) => pp_expr(*c, prod),
            None => {
                match sel.next {
                    Some(_) => seq![' '],
                    None => Seq::empty(),
                }
            },
        }) + (
        match sel.next {
            Some(nx) => pp_expr(*nx, prod),
            None => Seq::empty(),
        }),
        Expr::Neg(n) => seq!['-'] + pp_expr(*n.right, true),
        Expr::Add(b) => {
            let body = pp_expr(*b.left, false) + seq![' ', '+', ' '] + pp_expr(*b.right, false);
            if prod {
                seq!['('] + body + seq![')']
            } else {
                body
            }
        },
        Expr::Sub(b) => {
            let body = pp_expr(*b.left, false) + seq![' ', '-', ' '] + pp_expr(*b.right, false);
            if prod {
                seq!['('] + body + seq![')']
            } else {
                body
            }
        },
        Expr::Mul(b) => pp_expr(*b.left, true) + seq![' ', '\u{d7}', ' '] + pp_expr(
            *b.right,
            true,
        ),
        Expr::Div(b) => pp_expr(*b.left, true) + seq![' ', '/', ' '] + pp_expr(*b.right, true),
    }
}

/// The canonical text of a whole expression.
pub open spec fn pp_root(e: Expr) -> Seq<char> {
    pp_expr(e, false)
}

/// A pretty-printer for dice expressions; text accumulates in an internal
/// buffer.
pub struct PP {
    out: String,
}

impl PP {
    /// The text written so far.
    pub closed spec fn text(&self) -> Seq<char> {
        self.out@
    }

    /// A pretty-printer with an empty buffer.
    pub fn new() -> (r: PP)
        ensures
            r.text() == Seq::<char>::empty(),
    {
        PP { out: String::new() }
    }

    /// Append the canonical text of an expression.
    pub fn write(&mut self, node: &Expr)
        ensures
            final(self).text() == old(self).text() + pp_root(*node),
    {
        write_expr(&mut self.out, node, false)
    }

    /// The accumulated text.
    pub fn output(self) -> (s: String)
        ensures
            s@ == self.text(),
    {
        self.out
    }
}

/// Append the canonical text of a node.
#[verifier::rlimit(100)]
fn write_expr(out: &mut String, e: &Expr, prod: bool)
    ensures
        final(out)@ == old(out)@ + pp_expr(*e, prod),
    decreases e,
{
    let ghost before = out@;
    match e {
        Expr::Lit(l) => {
            push_i32_dec(out, l.value);
        },
        Expr::Roll(ro) => {
            write_expr(out, &ro.count, prod);
            push_char(out, 'd');
            write_expr(out, &ro.sides, prod);
            if let Some(sel) = &ro.select {
                write_expr(out, sel, prod);
            }
            proof {
                assert(out@ =~= before + pp_expr(*e, prod));
            }
        },
        Expr::Select(sel) => {
            match sel.selection {
                Selection::KeepHighest => {
                    push_char(out, 'k');
                    push_char(out, 'h');
                },
                Selection::KeepLowest => {
                    push_char(out, 'k');
                    push_char(out, 'l');
                },
                Selection::DropHighest => {
                    push_char(out, 'd');
                    push_char(out, 'h');
                },
                Selection::DropLowest => {
                    push_char(out, 'd');
                    push_char(out, 'l');
                },
                Selection::Advantage => {
                    push_char(out, 'a');
                    push_char(out, 'd');
                    push_char(out, 'v');
                },
                Selection::Disadvantage => {
                    push_char(out, 'd');
                    push_char(out, 'i');
                    push_char(out, 's');
                },
            }
            proof {
                assert(out@ =~= before + selection_word(sel.selection));
            }
            match &sel.count {
                Some(c) => {
                    write_expr(out, c, prod);
                },
                None => {
                    if sel.next.is_some() {
                        push_char(out, ' ');
                    }
                },
            }
            if let Some(nx) = &sel.next {
                write_expr(out, nx, prod);
            }
            proof {
                assert(out@ =~= before + pp_expr(*e, prod));
            }
        },
        Expr::Neg(n) => {
            push_char(out, '-');
            write_expr(out, &n.right, true);
            proof {
                assert(out@ =~= before + pp_expr(*e, prod));
            }
        },
        Expr::Add(b) => {
            if prod {
                push_char(out, '(');
            }
            write_expr(out, &b.left, false);
            push_char(out, ' ');
            push_char(out, '+');
            push_char(out, ' ');
            write_expr(out, &b.right, false);
            if prod {
                push_char(out, ')');
            }
            proof {
                assert(out@ =~= before + pp_expr(*e, prod));
            }
        },
        Expr::Sub(b) => {
            if prod {
                push_char(out, '(');
            }
            write_expr(out, &b.left, false);
            push_char(out, ' ');
            push_char(out, '-');
            push_char(out, ' ');
            write_expr(out, &b.right, false);
            if prod {
                push_char(out, ')');
            }
            proof {
                assert(out@ =~= before + pp_expr(*e, prod));
            }
        },
        Expr::Mul(b) => {
            write_expr(out, &b.left, true);
            push_char(out, ' ');
            push_char(out, '\u{d7}');
            push_char(out, ' ');
            write_expr(out, &b.right, true);
            proof {
                assert(out@ =~= before + pp_expr(*e, prod));
            }
        },
        Expr::Div(b) => {
            write_expr(out, &b.left, true);
            push_char(out, ' ');
            push_char(out, '/');
            push_char(out, ' ');
            write_expr(out, &b.right, true);
            proof {
                assert(out@ =~= before + pp_expr(*e, prod));
            }
        },
    }
}

} // verus!
