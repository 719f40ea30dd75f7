//! Writes a graph of the AST in the Graphviz DOT format.
//!
//! Every node of the tree gets one `node` line with a fresh identifier and
//! a label, followed by its children's subtrees and one edge line per
//! child.

use vstd::prelude::*;
use vstd::string::StringExecFns;

use crate::ast::{Expr, Selection};
use crate::text::{dec_str_i32, hex04, push_i32_dec, push_u64_hex04};

verus! {

/// The next node identifier after `id`.
pub open spec fn bump(id: u64) -> u64 {
    vstd::wrapping::u64_specs::wrapping_add(id, 1)
}

/// The identifier text of a node: `node` and four or more hex digits.
pub open spec fn node_id(id: u64) -> Seq<char> {
    "node"@ + hex04(id as int)
}

/// The label of a node.
pub open spec fn node_label(e: Expr) -> Seq<char> {
    match e {
        Expr::Lit(l) => dec_str_i32(l.value as int),
        Expr::Roll(_) => "Roll"@,
        Expr::Select(sel) => match sel.selection {
            Selection::KeepHighest => "Keep Highest"@,
            Selection::KeepLowest => "Keep Lowest"@,
            Selection::DropHighest => "Drop Highest"@,
            Selection::DropLowest => "Drop Lowest"@,
            Selection::Advantage => "Advantage"@,
            Selection::Disadvantage => "Disadvantage"@,
        },
        Expr::Neg(_) => "-"@,
        Expr::Add(_) => "Add"@,
        Expr::Sub(_) => "Subtract"@,
        Expr::Mul(_) => "Multiply"@,
        Expr::Div(_) => "Divide"@,
    }
}

/// One DOT node line.
pub open spec fn dot_node_line(id: u64, label: Seq<char>) -> Seq<char> {
    "    "@ + node_id(id) + " [label=\""@ + label + "\"]\n"@
}

/// One DOT edge line.
pub open spec fn dot_edge_line(parent: Seq<char>, child: Seq<char>, label: Seq<char>) -> Seq<
    char,
> {
    "    "@ + parent + " -- "@ + child + " [label=\""@ + label + "\"]\n"@
}

/// The DOT text of one subtree, starting identifiers at `id`: the text,
/// the next free identifier, and this node's identifier text. For a roll
/// and for the binary operations this dialect labels the two child edges
/// with each other's names; the labels are cosmetic and consumers go by
/// the child order.
pub open spec fn dot_visit(e: Expr, id: u64) -> (Seq<char>, u64, Seq<char>)
    decreases e,
{
    let me = node_id(id);
    let line = dot_node_line(id, node_label(e));
    let n1 = bump(id);
    match e {
        Expr::Lit(_) => (line, n1, me),
        Expr::Neg(n) => {
            let (o, n2, rid) = dot_visit(*n.right, n1);
            (line + o + dot_edge_line(me, rid, "right"@), n2, me)
        },
        Expr::Add(b) => {
            let (o1, n2, lid) = dot_visit(*b.left, n1);
            let (o2, n3, rid) = dot_visit(*b.right, n2);
            (
                line + o1 + o2 + dot_edge_line(me, rid, "left"@) + dot_edge_line(
                    me,
                    lid,
                    "right"@,
                ),
                n3,
                me,
            )
        },
        Expr::Sub(b) => {
            let (o1, n2, lid) = dot_visit(*b.left, n1);
            let (o2, n3, rid) = dot_visit(*b.right, n2);
            (
                line + o1 + o2 + dot_edge_line(me, rid, "left"@) + dot_edge_line(
                    me,
                    lid,
                    "right"@,
                ),
                n3,
                me,
            )
        },
        Expr::Mul(b) => {
            let (o1, n2, lid) = dot_visit(*b.left, n1);
            let (o2, n3, rid) = dot_visit(*b.right, n2);
            (
                line + o1 + o2 + dot_edge_line(me, rid, "left"@) + dot_edge_line(
                    me,
                    lid,
                    "right"@,
                ),
                n3,
                me,
            )
        },
        Expr::Div(b) => {
            let (o1, n2, lid) = dot_visit(*b.left, n1);
            let (o2, n3, rid) = dot_visit(*b.right, n2);
            (
                line + o1 + o2 + dot_edge_line(me, rid, "left"@) + dot_edge_line(
                    me,
                    lid,
                    "right"@,
                ),
                n3,
                me,
            )
        },
        Expr::Roll(ro) => {
            let (o1, n2, cid) = dot_visit(*ro.count, n1);
            let (o2, n3, sid) = dot_visit(*ro.sides, n2);
            let base = line + o1 + o2 + dot_edge_line(me, sid, "count"@) + dot_edge_line(
                me,
                cid,
                "sides"@,
            );
            match ro.select {
                None => (base, n3, me),
                Some(sel) => {
                    let (o3, n4, selid) = dot_visit(*sel, n3);
                    (base + o3 + dot_edge_line(me, selid, "select"@), n4, me)
                },
            }
        },
        Expr::Select(sel) => {
            let (o1, n2) = match sel.count {
                None => (Seq::<char>::empty(), n1),
                Some(c) => {
                    let (o, n2, cid) = dot_visit(*c, n1);
                    (o + dot_edge_line(me, cid, "count"@), n2)
                },
            };
            let (o2, n3) = match sel.next {
                None => (Seq::<char>::empty(), n2),
                Some(nx) => {
                    let (o, n3, nid) = dot_visit(*nx, n2);
                    (o + dot_edge_line(me, nid, "next"@), n3)
                },
            };
            (line + o1 + o2, n3, me)
        },
    }
}

/// The whole DOT document for a tree.
pub open spec fn dot_document(e: Expr, id: u64) -> (Seq<char>, u64) {
    let header = "graph {\n"@ + "    node [shape=\"rect\"]\n"@ + "    edge [fontsize=\"10\"]\n"@;
    let (o, n2, _) = dot_visit(e, id);
    (header + o + "}\n"@, n2)
}

/// A writer that renders an AST as a Graphviz DOT document into an
/// internal buffer.
pub struct DotWriter {
    out: String,
    next_id: u64,
}

impl DotWriter {
    /// The text written so far.
    pub closed spec fn text(&self) -> Seq<char> {
        self.out@
    }

    /// The next node identifier to be assigned.
    pub closed spec fn counter(&self) -> u64 {
        self.next_id
    }

    /// A writer with an empty buffer, numbering nodes from 1.
    pub fn new() -> (r: DotWriter)
        ensures
            r.text() == Seq::<char>::empty(),
            r.counter() == 1u64,
    {
        DotWriter { out: String::new(), next_id: 1 }
    }

    /// Append the DOT document of a tree.
    pub fn write(&mut self, root: &Expr)
        ensures
            final(self).text() == old(self).text() + dot_document(*root, old(self).counter()).0,
            final(self).counter() == dot_document(*root, old(self).counter()).1,
    {
        self.out.append("graph {\n");
        self.out.append("    node [shape=\"rect\"]\n");
        self.out.append("    edge [fontsize=\"10\"]\n");
        let id = self.next_id;
        let walked = dot_walk(&mut self.out, id, root);
        self.next_id = walked.0;
        self.out.append("}\n");
        proof {
            assert(self.out@ =~= old(self).out@ + dot_document(*root, id).0);
        }
    }

    /// The accumulated text.
    pub fn output(self) -> (s: String)
        ensures
            s@ == self.text(),
    {
        self.out
    }
}

/// Append the identifier text of a node.
fn push_node_id(out: &mut String, id: u64)
    ensures
        final(out)@ == old(out)@ + node_id(id),
{
    out.append("node");
    push_u64_hex04(out, id);
    proof {
        assert(out@ =~= old(out)@ + node_id(id));
    }
}

/// Append one node line.
fn push_node_line(out: &mut String, id: u64, e: &Expr)
    ensures
        final(out)@ == old(out)@ + dot_node_line(id, node_label(*e)),
{
    out.append("    ");
    push_node_id(out, id);
    out.append(" [label=\"");
    push_label(out, e);
    out.append("\"]\n");
    proof {
        assert(out@ =~= old(out)@ + dot_node_line(id, node_label(*e)));
    }
}

/// Append the label of a node.
fn push_label(out: &mut String, e: &Expr)
    ensures
        final(out)@ == old(out)@ + node_label(*e),
{
    match e {
        Expr::Lit(l) => push_i32_dec(out, l.value),
        Expr::Roll(_) => out.append("Roll"),
        Expr::Select(sel) => {
            match sel.selection {
                Selection::KeepHighest => out.append("Keep Highest"),
                Selection::KeepLowest => out.append("Keep Lowest"),
                Selection::DropHighest => out.append("Drop Highest"),
                Selection::DropLowest => out.append("Drop Lowest"),
                Selection::Advantage => out.append("Advantage"),
                Selection::Disadvantage => out.append("Disadvantage"),
            }
        },
        Expr::Neg(_) => out.append("-"),
        Expr::Add(_) => out.append("Add"),
        Expr::Sub(_) => out.append("Subtract"),
        Expr::Mul(_) => out.append("Multiply"),
        Expr::Div(_) => out.append("Divide"),
    }
}

/// Append one edge line.
fn push_edge_line(out: &mut String, parent: &String, child: &String, label: &str)
    ensures
        final(out)@ == old(out)@ + dot_edge_line(parent@, child@, label@),
{
    out.append("    ");
    out.append(parent.as_str());
    out.append(" -- ");
    out.append(child.as_str());
    out.append(" [label=\"");
    out.append(label);
    out.append("\"]\n");
    proof {
        assert(out@ =~= old(out)@ + dot_edge_line(parent@, child@, label@));
    }
}

/// Append the DOT text of one subtree; returns the next free identifier
/// and this node's identifier text.
fn dot_walk(out: &mut String, id: u64, e: &Expr) -> (r: (u64, String))
    ensures
        final(out)@ == old(out)@ + dot_visit(*e, id).0,
        r.0 == dot_visit(*e, id).1,
        r.1@ == dot_visit(*e, id).2,
    decreases e, 1int,
{
    match e {
        Expr::Lit(_) => {
            let mut me = String::new();
            push_node_id(&mut me, id);
            push_node_line(out, id, e);
            (id.wrapping_add(1), me)
        },
        Expr::Neg(n) => dot_walk_neg(out, e, id, &n.right),
        Expr::Add(b) => dot_walk_binary(out, e, id, &b.left, &b.right),
        Expr::Sub(b) => dot_walk_binary(out, e, id, &b.left, &b.right),
        Expr::Mul(b) => dot_walk_binary(out, e, id, &b.left, &b.right),
        Expr::Div(b) => dot_walk_binary(out, e, id, &b.left, &b.right),
        Expr::Roll(ro) => dot_walk_roll(out, e, id, ro),
        Expr::Select(sel) => dot_walk_select(out, e, id, sel),
    }
}

/// Append the DOT text of a negation node.
#[verifier::rlimit(100)]
fn dot_walk_neg(out: &mut String, e: &Expr, id: u64, right: &Expr) -> (r: (u64, String))
    requires
        *e matches Expr::Neg(n) && *n.right == *right,
        decreases_to!(*e => *right),
    ensures
        final(out)@ == old(out)@ + dot_visit(*e, id).0,
        r.0 == dot_visit(*e, id).1,
        r.1@ == dot_visit(*e, id).2,
    decreases e, 0int,
{
    let ghost before = out@;
    let mut me = String::new();
    push_node_id(&mut me, id);
    push_node_line(out, id, e);
    let n1 = id.wrapping_add(1);
    let (n2, rid) = dot_walk(out, n1, right);
    push_edge_line(out, &me, &rid, "right");
    proof {
        assert(out@ =~= before + dot_visit(*e, id).0);
    }
    (n2, me)
}

/// Whether a node is a binary arithmetic node over the given operands.
pub open spec fn binary_node(e: Expr, l: Expr, r: Expr) -> bool {
    match e {
        Expr::Add(b) => *b.left == l && *b.right == r,
        Expr::Sub(b) => *b.left == l && *b.right == r,
        Expr::Mul(b) => *b.left == l && *b.right == r,
        Expr::Div(b) => *b.left == l && *b.right == r,
        _ => false,
    }
}

/// Append the DOT text of a binary arithmetic node.
#[verifier::rlimit(100)]
fn dot_walk_binary(out: &mut String, e: &Expr, id: u64, left: &Expr, right: &Expr) -> (r: (
    u64,
    String,
))
    requires
        binary_node(*e, *left, *right),
        decreases_to!(*e => *left),
        decreases_to!(*e => *right),
    ensures
        final(out)@ == old(out)@ + dot_visit(*e, id).0,
        r.0 == dot_visit(*e, id).1,
        r.1@ == dot_visit(*e, id).2,
    decreases e, 0int,
{
    let ghost before = out@;
    let mut me = String::new();
    push_node_id(&mut me, id);
    push_node_line(out, id, e);
    let n1 = id.wrapping_add(1);
    let (n2, lid) = dot_walk(out, n1, left);
    let (n3, rid) = dot_walk(out, n2, right);
    push_edge_line(out, &me, &rid, "left");
    push_edge_line(out, &me, &lid, "right");
    proof {
        assert(out@ =~= before + dot_visit(*e, id).0);
    }
    (n3, me)
}

/// Append the DOT text of a roll node.
#[verifier::rlimit(100)]
fn dot_walk_roll(out: &mut String, e: &Expr, id: u64, ro: &crate::ast::Roll) -> (r: (u64, String))
    requires
        *e == Expr::Roll(*ro),
        decreases_to!(*e => *ro.count),
        decreases_to!(*e => *ro.sides),
        ro.select is Some ==> decreases_to!(*e => *ro.select.get_Some_0()),
    ensures
        final(out)@ == old(out)@ + dot_visit(*e, id).0,
        r.0 == dot_visit(*e, id).1,
        r.1@ == dot_visit(*e, id).2,
    decreases e, 0int,
{
    let ghost before = out@;
    let mut me = String::new();
    push_node_id(&mut me, id);
    push_node_line(out, id, e);
    let n1 = id.wrapping_add(1);
    let (n2, cid) = dot_walk(out, n1, &ro.count);
    let (n3, sid) = dot_walk(out, n2, &ro.sides);
    push_edge_line(out, &me, &sid, "count");
    push_edge_line(out, &me, &cid, "sides");
    match &ro.select {
        None => {
            proof {
                assert(out@ =~= before + dot_visit(*e, id).0);
            }
            (n3, me)
        },
        Some(sel) => {
            let (n4, selid) = dot_walk(out, n3, sel);
            push_edge_line(out, &me, &selid, "select");
            proof {
                assert(out@ =~= before + dot_visit(*e, id).0);
            }
            (n4, me)
        },
    }
}

/// Append the DOT text of a selection node.
#[verifier::rlimit(100)]
fn dot_walk_select(out: &mut String, e: &Expr, id: u64, sel: &crate::ast::Select) -> (r: (
    u64,
    String,
))
    requires
        *e == Expr::Select(*sel),
        sel.count is Some ==> decreases_to!(*e => *sel.count.get_Some_0()),
        sel.next is Some ==> decreases_to!(*e => *sel.next.get_Some_0()),
    ensures
        final(out)@ == old(out)@ + dot_visit(*e, id).0,
        r.0 == dot_visit(*e, id).1,
        r.1@ == dot_visit(*e, id).2,
    decreases e, 0int,
{
    let ghost before = out@;
    let mut me = String::new();
    push_node_id(&mut me, id);
    push_node_line(out, id, e);
    let n1 = id.wrapping_add(1);
    let n2 = match &sel.count {
        None => n1,
        Some(c) => {
            let (n2, cid) = dot_walk(out, n1, c);
            push_edge_line(out, &me, &cid, "count");
            n2
        },
    };
    let n3 = match &sel.next {
        None => n2,
        Some(nx) => {
            let (n3, nid) = dot_walk(out, n2, nx);
            push_edge_line(out, &me, &nid, "next");
            n3
        },
    };
    proof {
        assert(out@ =~= before + dot_visit(*e, id).0);
    }
    (n3, me)
}

} // verus!
