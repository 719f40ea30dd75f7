//! Writes a graph of the AST in the Graphviz DOT or Mermaid format.
//!
//! Every node of the tree gets one node line with a fresh identifier and a
//! label, followed by its children's subtrees and one edge line per child.

use vstd::prelude::*;
use vstd::string::StringExecFns;

use crate::ast::Expr;
use crate::dot::{bump, node_id, node_label};
use crate::text::{push_i32_dec, push_u64_hex04};

verus! {

/// The language in which to write the graph.
#[derive(Debug, PartialEq, Eq, Clone, Copy, Structural)]
pub enum GraphLang {
    Dot,
    Mermaid,
}

/// One node line.
pub open spec fn g_node_line(lang: GraphLang, id: u64, label: Seq<char>) -> Seq<char> {
    match lang {
        GraphLang::Dot => "    "@ + node_id(id) + " [label=\""@ + label + "\"]\n"@,
        GraphLang::Mermaid => "    "@ + node_id(id) + "(\""@ + label + "\")\n"@,
    }
}

/// One edge line.
pub open spec fn g_edge_line(
    lang: GraphLang,
    parent: Seq<char>,
    child: Seq<char>,
    label: Seq<char>,
) -> Seq<char> {
    match lang {
        GraphLang::Dot => "    "@ + parent + " -- "@ + child + " [label=\""@ + label + "\"]\n"@,
        GraphLang::Mermaid => "    "@ + parent + " --"@ + label + "--- "@ + child + "\n"@,
    }
}

/// The graph text of one subtree, starting identifiers at `id`: the text,
/// the next free identifier, and this node's identifier text.
pub open spec fn g_visit(lang: GraphLang, e: Expr, id: u64) -> (Seq<char>, u64, Seq<char>)
    decreases e,
{
    let me = node_id(id);
    let line = g_node_line(lang, id, node_label(e));
    let n1 = bump(id);
    match e {
        Expr::Lit(_) => (line, n1, me),
        Expr::Neg(n) => {
            let (o, n2, rid) = g_visit(lang, *n.right, n1);
            (line + o + g_edge_line(lang, me, rid, "right"@), n2, me)
        },
        Expr::Add(b) => {
            let (o1, n2, lid) = g_visit(lang, *b.left, n1);
            let (o2, n3, rid) = g_visit(lang, *b.right, n2);
            (
                line + o1 + o2 + g_edge_line(lang, me, lid, "left"@) + g_edge_line(
                    lang,
                    me,
                    rid,
                    "right"@,
                ),
                n3,
                me,
            )
        },
        Expr::Sub(b) => {
            let (o1, n2, lid) = g_visit(lang, *b.left, n1);
            let (o2, n3, rid) = g_visit(lang, *b.right, n2);
            (
                line + o1 + o2 + g_edge_line(lang, me, lid, "left"@) + g_edge_line(
                    lang,
                    me,
                    rid,
                    "right"@,
                ),
                n3,
                me,
            )
        },
        Expr::Mul(b) => {
            let (o1, n2, lid) = g_visit(lang, *b.left, n1);
            let (o2, n3, rid) = g_visit(lang, *b.right, n2);
            (
                line + o1 + o2 + g_edge_line(lang, me, lid, "left"@) + g_edge_line(
                    lang,
                    me,
                    rid,
                    "right"@,
                ),
                n3,
                me,
            )
        },
        Expr::Div(b) => {
            let (o1, n2, lid) = g_visit(lang, *b.left, n1);
            let (o2, n3, rid) = g_visit(lang, *b.right, n2);
            (
                line + o1 + o2 + g_edge_line(lang, me, lid, "left"@) + g_edge_line(
                    lang,
                    me,
                    rid,
                    "right"@,
                ),
                n3,
                me,
            )
        },
        Expr::Roll(ro) => {
            let (o1, n2, cid) = g_visit(lang, *ro.count, n1);
            let (o2, n3, sid) = g_visit(lang, *ro.sides, n2);
            let base = line + o1 + o2 + g_edge_line(lang, me, cid, "count"@) + g_edge_line(
                lang,
                me,
                sid,
                "sides"@,
            );
            match ro.select {
                None => (base, n3, me),
                Some(sel) => {
                    let (o3, n4, selid) = g_visit(lang, *sel, n3);
                    (base + o3 + g_edge_line(lang, me, selid, "select"@), n4, me)
                },
            }
        },
        Expr::Select(sel) => {
            let (o1, n2) = match sel.count {
                None => (Seq::<char>::empty(), n1),
                Some(c) => {
                    let (o, n2, cid) = g_visit(lang, *c, n1);
                    (o + g_edge_line(lang, me, cid, "count"@), n2)
                },
            };
            let (o2, n3) = match sel.next {
                None => (Seq::<char>::empty(), n2),
                Some(nx) => {
                    let (o, n3, nid) = g_visit(lang, *nx, n2);
                    (o + g_edge_line(lang, me, nid, "next"@), n3)
                },
            };
            (line + o1 + o2, n3, me)
        },
    }
}

/// The whole graph document for a tree: header, nodes and edges, and for
/// DOT the closing brace.
pub open spec fn g_document(lang: GraphLang, e: Expr, id: u64) -> (Seq<char>, u64) {
    let header = match lang {
        GraphLang::Dot => "graph {\n"@ + "    graph [rankdir=TB]\n"@ + "    node [shape=rect]\n"@
            + "    edge [fontsize=10]\n"@,
        GraphLang::Mermaid => "graph TB\n"@,
    };
    let footer = match lang {
        GraphLang::Dot => "}\n"@,
        GraphLang::Mermaid => Seq::<char>::empty(),
    };
    let (o, n2, _) = g_visit(lang, e, id);
    (header + o + footer, n2)
}

/// A writer that renders an AST as a graph document, in the Graphviz DOT
/// or the Mermaid dialect, into an internal buffer.
pub struct GraphWriter {
    out: String,
    next_id: u64,
    lang: GraphLang,
}

impl GraphWriter {
    /// The text written so far.
    pub closed spec fn text(&self) -> Seq<char> {
        self.out@
    }

    /// The next node identifier to be assigned.
    pub closed spec fn counter(&self) -> u64 {
        self.next_id
    }

    /// The dialect this writer emits.
    pub closed spec fn dialect(&self) -> GraphLang {
        self.lang
    }

    /// A writer for the Graphviz DOT dialect.
    pub fn new_dot() -> (r: GraphWriter)
        ensures
            r.text() == Seq::<char>::empty(),
            r.counter() == 1u64,
            r.dialect() == GraphLang::Dot,
    {
        GraphWriter { out: String::new(), next_id: 1, lang: GraphLang::Dot }
    }

    /// A writer for the Mermaid dialect.
    pub fn new_mermaid() -> (r: GraphWriter)
        ensures
            r.text() == Seq::<char>::empty(),
            r.counter() == 1u64,
            r.dialect() == GraphLang::Mermaid,
    {
        GraphWriter { out: String::new(), next_id: 1, lang: GraphLang::Mermaid }
    }

    /// Append the graph document of a tree.
    pub fn write(&mut self, root: &Expr)
        ensures
            final(self).text() == old(self).text() + g_document(
                old(self).dialect(),
                *root,
                old(self).counter(),
            ).0,
            final(self).counter() == g_document(
                old(self).dialect(),
                *root,
                old(self).counter(),
            ).1,
            final(self).dialect() == old(self).dialect(),
    {
        match self.lang {
            GraphLang::Dot => {
                self.out.append("graph {\n");
                self.out.append("    graph [rankdir=TB]\n");
                self.out.append("    node [shape=rect]\n");
                self.out.append("    edge [fontsize=10]\n");
            },
            GraphLang::Mermaid => {
                self.out.append("graph TB\n");
            },
        }
        let id = self.next_id;
        let lang = self.lang;
        let walked = g_walk(&mut self.out, lang, id, root);
        self.next_id = walked.0;
        match self.lang {
            GraphLang::Dot => {
                self.out.append("}\n");
            },
            GraphLang::Mermaid => {},
        }
        proof {
            assert(self.out@ =~= old(self).out@ + g_document(old(self).lang, *root, id).0);
        }
    }

    /// The accumulated text.
    pub fn output(self) -> (s: String)
        ensures
            s@ == self.text(),
    {
        self.out
    }
}

/// Append the identifier text of a node.
fn g_push_node_id(out: &mut String, id: u64)
    ensures
        final(out)@ == old(out)@ + node_id(id),
{
    out.append("node");
    push_u64_hex04(out, id);
    proof {
        assert(out@ =~= old(out)@ + node_id(id));
    }
}

/// Append one node line.
fn g_push_node_line(out: &mut String, lang: GraphLang, id: u64, e: &Expr)
    ensures
        final(out)@ == old(out)@ + g_node_line(lang, id, node_label(*e)),
{
    out.append("    ");
    g_push_node_id(out, id);
    match lang {
        GraphLang::Dot => {
            out.append(" [label=\"");
            g_push_label(out, e);
            out.append("\"]\n");
        },
        GraphLang::Mermaid => {
            out.append("(\"");
            g_push_label(out, e);
            out.append("\")\n");
        },
    }
    proof {
        assert(out@ =~= old(out)@ + g_node_line(lang, id, node_label(*e)));
    }
}

/// Append the label of a node.
fn g_push_label(out: &mut String, e: &Expr)
    ensures
        final(out)@ == old(out)@ + node_label(*e),
{
    match e {
        Expr::Lit(l) => push_i32_dec(out, l.value),
        Expr::Roll(_) => out.append("Roll"),
        Expr::Select(sel) => {
            match sel.selection {
                crate::ast::Selection::KeepHighest => out.append("Keep Highest"),
                crate::ast::Selection::KeepLowest => out.append("Keep Lowest"),
                crate::ast::Selection::DropHighest => out.append("Drop Highest"),
                crate::ast::Selection::DropLowest => out.append("Drop Lowest"),
                crate::ast::Selection::Advantage => out.append("Advantage"),
                crate::ast::Selection::Disadvantage => out.append("Disadvantage"),
            }
        },
        Expr::Neg(_) => out.append("-"),
        Expr::Add(_) => out.append("Add"),
        Expr::Sub(_) => out.append("Subtract"),
        Expr::Mul(_) => out.append("Multiply"),
        Expr::Div(_) => out.append("Divide"),
    }
}

/// Append one edge line.
fn g_push_edge_line(out: &mut String, lang: GraphLang, parent: &String, child: &String, label: &str)
    ensures
        final(out)@ == old(out)@ + g_edge_line(lang, parent@, child@, label@),
{
    match lang {
        GraphLang::Dot => {
            out.append("    ");
            out.append(parent.as_str());
            out.append(" -- ");
            out.append(child.as_str());
            out.append(" [label=\"");
            out.append(label);
            out.append("\"]\n");
        },
        GraphLang::Mermaid => {
            out.append("    ");
            out.append(parent.as_str());
            out.append(" --");
            out.append(label);
            out.append("--- ");
            out.append(child.as_str());
            out.append("\n");
        },
    }
    proof {
        assert(out@ =~= old(out)@ + g_edge_line(lang, parent@, child@, label@));
    }
}

/// Append the graph text of one subtree; returns the next free identifier
/// and this node's identifier text.
fn g_walk(out: &mut String, lang: GraphLang, id: u64, e: &Expr) -> (r: (u64, String))
    ensures
        final(out)@ == old(out)@ + g_visit(lang, *e, id).0,
        r.0 == g_visit(lang, *e, id).1,
        r.1@ == g_visit(lang, *e, id).2,
    decreases e, 1int,
{
    match e {
        Expr::Lit(_) => {
            let mut me = String::new();
            g_push_node_id(&mut me, id);
            g_push_node_line(out, lang, id, e);
            (id.wrapping_add(1), me)
        },
        Expr::Neg(n) => g_walk_neg(out, lang, e, id, &n.right),
        Expr::Add(b) => g_walk_binary(out, lang, e, id, &b.left, &b.right),
        Expr::Sub(b) => g_walk_binary(out, lang, e, id, &b.left, &b.right),
        Expr::Mul(b) => g_walk_binary(out, lang, e, id, &b.left, &b.right),
        Expr::Div(b) => g_walk_binary(out, lang, e, id, &b.left, &b.right),
        Expr::Roll(ro) => g_walk_roll(out, lang, e, id, ro),
        Expr::Select(sel) => g_walk_select(out, lang, e, id, sel),
    }
}

/// Appending several pieces one at a time or grouped is the same.
proof fn lemma_regroup5(p: Seq<char>, a: Seq<char>, b: Seq<char>, c: Seq<char>, d: Seq<char>, e: Seq<char>)
    ensures
        p + (a + b + c + d + e) == p + a + b + c + d + e,
{
    assert(p + (a + b + c + d + e) =~= p + a + b + c + d + e);
}

/// Appending several pieces one at a time or grouped is the same.
proof fn lemma_regroup7(
    p: Seq<char>,
    a: Seq<char>,
    b: Seq<char>,
    c: Seq<char>,
    d: Seq<char>,
    e: Seq<char>,
    f: Seq<char>,
    g: Seq<char>,
)
    ensures
        p + (a + b + c + d + e + f + g) == p + a + b + c + d + e + f + g,
{
    assert(p + (a + b + c + d + e + f + g) =~= p + a + b + c + d + e + f + g);
}

/// Appending two grouped pairs or their pieces one at a time is the same.
proof fn lemma_regroup_pairs(p: Seq<char>, a: Seq<char>, b: Seq<char>, c: Seq<char>, d: Seq<char>)
    ensures
        p + (a + (b + c) + d) == p + a + b + c + d,
        p + (a + (b + c)) == p + a + b + c,
        p + (a + b) == p + a + b,
{
    assert(p + (a + (b + c) + d) =~= p + a + b + c + d);
    assert(p + (a + (b + c)) =~= p + a + b + c);
    assert(p + (a + b) =~= p + a + b);
}

/// Append the graph text of a negation node.
#[verifier::rlimit(100)]
fn g_walk_neg(out: &mut String, lang: GraphLang, e: &Expr, id: u64, right: &Expr) -> (r: (
    u64,
    String,
))
    requires
        *e matches Expr::Neg(n) && *n.right == *right,
        decreases_to!(*e => *right),
    ensures
        final(out)@ == old(out)@ + g_visit(lang, *e, id).0,
        r.0 == g_visit(lang, *e, id).1,
        r.1@ == g_visit(lang, *e, id).2,
    decreases e, 0int,
{
    let ghost before = out@;
    let mut me = String::new();
    g_push_node_id(&mut me, id);
    g_push_node_line(out, lang, id, e);
    let n1 = id.wrapping_add(1);
    let (n2, rid) = g_walk(out, lang, n1, right);
    g_push_edge_line(out, lang, &me, &rid, "right");
    proof {
        assert(out@ =~= before + g_visit(lang, *e, id).0);
    }
    (n2, me)
}

/// Append the graph text of a binary arithmetic node.
#[verifier::rlimit(100)]
#[verifier::spinoff_prover]
fn g_walk_binary(out: &mut String, lang: GraphLang, e: &Expr, id: u64, left: &Expr, right: &Expr) -> (r: (
    u64,
    String,
))
    requires
        crate::dot::binary_node(*e, *left, *right),
        decreases_to!(*e => *left),
        decreases_to!(*e => *right),
    ensures
        final(out)@ == old(out)@ + g_visit(lang, *e, id).0,
        r.0 == g_visit(lang, *e, id).1,
        r.1@ == g_visit(lang, *e, id).2,
    decreases e, 0int,
{
    let ghost before = out@;
    let mut me = String::new();
    g_push_node_id(&mut me, id);
    g_push_node_line(out, lang, id, e);
    let n1 = id.wrapping_add(1);
    let (n2, lid) = g_walk(out, lang, n1, left);
    let (n3, rid) = g_walk(out, lang, n2, right);
    g_push_edge_line(out, lang, &me, &lid, "left");
    g_push_edge_line(out, lang, &me, &rid, "right");
    proof {
        let me_s = node_id(id);
        let line = g_node_line(lang, id, node_label(*e));
        let v1 = g_visit(lang, *left, n1);
        let v2 = g_visit(lang, *right, v1.1);
        let e1 = g_edge_line(lang, me_s, v1.2, "left"@);
        let e2 = g_edge_line(lang, me_s, v2.2, "right"@);
        assert(g_visit(lang, *e, id).0 == line + v1.0 + v2.0 + e1 + e2);
        lemma_regroup5(before, line, v1.0, v2.0, e1, e2);
        assert(out@ == before + line + v1.0 + v2.0 + e1 + e2);
    }
    (n3, me)
}

/// How the graph text of a roll node decomposes.
#[verifier::rlimit(100)]
proof fn lemma_g_visit_roll(lang: GraphLang, e: Expr, ro: crate::ast::Roll, id: u64)
    requires
        e == Expr::Roll(ro),
    ensures
        ({
            let me = node_id(id);
            let line = g_node_line(lang, id, node_label(e));
            let v1 = g_visit(lang, *ro.count, bump(id));
            let v2 = g_visit(lang, *ro.sides, v1.1);
            let e1 = g_edge_line(lang, me, v1.2, "count"@);
            let e2 = g_edge_line(lang, me, v2.2, "sides"@);
            match ro.select {
                None => g_visit(lang, e, id) == (line + v1.0 + v2.0 + e1 + e2, v2.1, me),
                Some(sel) => {
                    let v3 = g_visit(lang, *sel, v2.1);
                    let e3 = g_edge_line(lang, me, v3.2, "select"@);
                    g_visit(lang, e, id) == (
                        line + v1.0 + v2.0 + e1 + e2 + v3.0 + e3,
                        v3.1,
                        me,
                    )
                },
            }
        }),
{
}

/// How the graph text of a selection node decomposes.
#[verifier::rlimit(100)]
proof fn lemma_g_visit_select(lang: GraphLang, e: Expr, sel: crate::ast::Select, id: u64)
    requires
        e == Expr::Select(sel),
    ensures
        ({
            let me = node_id(id);
            let line = g_node_line(lang, id, node_label(e));
            let p1: (Seq<char>, u64) = match sel.count {
                None => (Seq::<char>::empty(), bump(id)),
                Some(c) => {
                    let v = g_visit(lang, *c, bump(id));
                    (v.0 + g_edge_line(lang, me, v.2, "count"@), v.1)
                },
            };
            let p2: (Seq<char>, u64) = match sel.next {
                None => (Seq::<char>::empty(), p1.1),
                Some(nx) => {
                    let v = g_visit(lang, *nx, p1.1);
                    (v.0 + g_edge_line(lang, me, v.2, "next"@), v.1)
                },
            };
            g_visit(lang, e, id) == (line + p1.0 + p2.0, p2.1, me)
        }),
{
}

/// Append the graph text of a roll node.
#[verifier::rlimit(100)]
#[verifier::spinoff_prover]
fn g_walk_roll(out: &mut String, lang: GraphLang, e: &Expr, id: u64, ro: &crate::ast::Roll) -> (r: (
    u64,
    String,
))
    requires
        *e == Expr::Roll(*ro),
        decreases_to!(*e => *ro.count),
        decreases_to!(*e => *ro.sides),
        ro.select is Some ==> decreases_to!(*e => *ro.select.get_Some_0()),
    ensures
        final(out)@ == old(out)@ + g_visit(lang, *e, id).0,
        r.0 == g_visit(lang, *e, id).1,
        r.1@ == g_visit(lang, *e, id).2,
    decreases e, 0int,
{
    let ghost before = out@;
    let mut me = String::new();
    g_push_node_id(&mut me, id);
    g_push_node_line(out, lang, id, e);
    let n1 = id.wrapping_add(1);
    let (n2, cid) = g_walk(out, lang, n1, &ro.count);
    let (n3, sid) = g_walk(out, lang, n2, &ro.sides);
    g_push_edge_line(out, lang, &me, &cid, "count");
    g_push_edge_line(out, lang, &me, &sid, "sides");
    let ghost me_s = node_id(id);
    let ghost line = g_node_line(lang, id, node_label(*e));
    let ghost v1 = g_visit(lang, *ro.count, n1);
    let ghost v2 = g_visit(lang, *ro.sides, v1.1);
    let ghost e1 = g_edge_line(lang, me_s, v1.2, "count"@);
    let ghost e2 = g_edge_line(lang, me_s, v2.2, "sides"@);
    match &ro.select {
        None => {
            proof {
                lemma_g_visit_roll(lang, *e, *ro, id);
                lemma_regroup5(before, line, v1.0, v2.0, e1, e2);
                assert(out@ == before + line + v1.0 + v2.0 + e1 + e2);
            }
            (n3, me)
        },
        Some(sel) => {
            let (n4, selid) = g_walk(out, lang, n3, sel);
            g_push_edge_line(out, lang, &me, &selid, "select");
            proof {
                lemma_g_visit_roll(lang, *e, *ro, id);
                let v3 = g_visit(lang, **sel, v2.1);
                let e3 = g_edge_line(lang, me_s, v3.2, "select"@);
                lemma_regroup7(before, line, v1.0, v2.0, e1, e2, v3.0, e3);
                assert(out@ == before + line + v1.0 + v2.0 + e1 + e2 + v3.0 + e3);
            }
            (n4, me)
        },
    }
}

/// Append the graph text of a selection node.
#[verifier::rlimit(100)]
#[verifier::spinoff_prover]
fn g_walk_select(out: &mut String, lang: GraphLang, e: &Expr, id: u64, sel: &crate::ast::Select) -> (r: (
    u64,
    String,
))
    requires
        *e == Expr::Select(*sel),
        sel.count is Some ==> decreases_to!(*e => *sel.count.get_Some_0()),
        sel.next is Some ==> decreases_to!(*e => *sel.next.get_Some_0()),
    ensures
        final(out)@ == old(out)@ + g_visit(lang, *e, id).0,
        r.0 == g_visit(lang, *e, id).1,
        r.1@ == g_visit(lang, *e, id).2,
    decreases e, 0int,
{
    let ghost before = out@;
    let mut me = String::new();
    g_push_node_id(&mut me, id);
    g_push_node_line(out, lang, id, e);
    let n1 = id.wrapping_add(1);
    let n2 = match &sel.count {
        None => n1,
        Some(c) => {
            let (n2, cid) = g_walk(out, lang, n1, c);
            g_push_edge_line(out, lang, &me, &cid, "count");
            n2
        },
    };
    let n3 = match &sel.next {
        None => n2,
        Some(nx) => {
            let (n3, nid) = g_walk(out, lang, n2, nx);
            g_push_edge_line(out, lang, &me, &nid, "next");
            n3
        },
    };
    proof {
        let me_s = node_id(id);
        let line = g_node_line(lang, id, node_label(*e));
        let p1: (Seq<char>, u64) = match &sel.count {
            None => (Seq::<char>::empty(), n1),
            Some(c) => {
                let v = g_visit(lang, **c, n1);
                (v.0 + g_edge_line(lang, me_s, v.2, "count"@), v.1)
            },
        };
        let p2: (Seq<char>, u64) = match &sel.next {
            None => (Seq::<char>::empty(), p1.1),
            Some(nx) => {
                let v = g_visit(lang, **nx, p1.1);
                (v.0 + g_edge_line(lang, me_s, v.2, "next"@), v.1)
            },
        };
        lemma_g_visit_select(lang, *e, *sel, id);
        match (&sel.count, &sel.next) {
            (None, None) => {
                assert(p1.0 =~= Seq::<char>::empty());
                assert(p2.0 =~= Seq::<char>::empty());
                assert(out@ =~= before + (line + p1.0 + p2.0));
            },
            (Some(c), None) => {
                assert(p2.0 =~= Seq::<char>::empty());
                let v = g_visit(lang, **c, n1);
                let ec = g_edge_line(lang, me_s, v.2, "count"@);
                lemma_regroup_pairs(before, line, v.0, ec, p2.0);
                assert(out@ =~= before + (line + p1.0 + p2.0));
            },
            (None, Some(nx)) => {
                assert(p1.0 =~= Seq::<char>::empty());
                let v = g_visit(lang, **nx, p1.1);
                let en = g_edge_line(lang, me_s, v.2, "next"@);
                assert(out@ =~= before + (line + p1.0 + p2.0));
            },
            (Some(c), Some(nx)) => {
                let vc = g_visit(lang, **c, n1);
                let ec = g_edge_line(lang, me_s, vc.2, "count"@);
                let vn = g_visit(lang, **nx, p1.1);
                let en = g_edge_line(lang, me_s, vn.2, "next"@);
                lemma_regroup_pairs(before, line, vc.0, ec, vn.0 + en);
                assert(out@ =~= before + (line + p1.0 + p2.0));
            },
        }
    }
    (n3, me)
}

} // verus!
