//! Serialization back to the textual grammar: leaves print as their name,
//! single-child nodes as `name = value`, anything else as a `name = { ... }`
//! block, two spaces of indentation per nesting level. A root named `root`
//! gets no block header of its own.

use vstd::prelude::*;
use vstd::string::*;

use crate::node::{Node, NodeModel, lemma_node_model};
use crate::parser::root_name;
use crate::tree::Tree;

verus! {

/// Two spaces for every level of nesting.
pub open spec fn indent_seq(depth: nat) -> Seq<char>
    decreases depth,
{
    if depth == 0 {
        Seq::empty()
    } else {
        indent_seq((depth - 1) as nat) + seq![' ', ' ']
    }
}

/// The text a node prints as, at the given nesting depth.
pub open spec fn ser_node(n: NodeModel, depth: nat) -> Seq<char>
    decreases n, 1nat,
{
    if n.children.len() == 0 {
        indent_seq(depth) + n.name + seq!['\n']
    } else if n.children.len() == 1 && n.name != root_name() {
        indent_seq(depth) + n.name + seq![' ', '=', ' '] + n.children[0].name + seq!['\n']
    } else {
        let header = if n.name != root_name() {
            indent_seq(depth) + n.name + seq![' ', '=', ' ', '{', '\n']
        } else {
            Seq::<char>::empty()
        };
        let footer = if n.name != root_name() {
            indent_seq(depth) + seq!['}', '\n']
        } else {
            Seq::<char>::empty()
        };
        header + ser_children(n.children, depth + 1) + footer
    }
}

/// The text a run of sibling nodes prints as.
pub open spec fn ser_children(cs: Seq<NodeModel>, depth: nat) -> Seq<char>
    decreases cs, 0nat,
{
    if cs.len() == 0 {
        Seq::empty()
    } else {
        ser_node(cs[0], depth) + ser_children(cs.subrange(1, cs.len() as int), depth)
    }
}

pub proof fn lemma_ser_children_snoc(cs: Seq<NodeModel>, x: NodeModel, depth: nat)
    ensures
        ser_children(cs.push(x), depth) == ser_children(cs, depth) + ser_node(x, depth),
    decreases cs.len(),
{
    let p = cs.push(x);
    if cs.len() == 0 {
        assert(p[0] == x);
        assert(p.subrange(1, p.len() as int) =~= Seq::<NodeModel>::empty());
        assert(ser_children(Seq::<NodeModel>::empty(), depth) == Seq::<char>::empty());
        assert(ser_children(p, depth) == ser_node(x, depth) + ser_children(
            p.subrange(1, p.len() as int),
            depth,
        ));
        assert(ser_node(x, depth) + Seq::<char>::empty() =~= ser_node(x, depth));
        assert(ser_children(cs, depth) + ser_node(x, depth) =~= ser_node(x, depth));
    } else {
        assert(p[0] == cs[0]);
        assert(p.subrange(1, p.len() as int) =~= cs.subrange(1, cs.len() as int).push(x));
        lemma_ser_children_snoc(cs.subrange(1, cs.len() as int), x, depth);
        assert(ser_node(cs[0], depth) + (ser_children(cs.subrange(1, cs.len() as int), depth)
            + ser_node(x, depth)) =~= (ser_node(cs[0], depth) + ser_children(
            cs.subrange(1, cs.len() as int),
            depth,
        )) + ser_node(x, depth));
    }
}

/// Append `node`'s serialization to `out`; `indent` holds the printed form
/// of `depth` levels of indentation.
fn serialize_node(node: &Node, out: &mut String, indent: &String, Ghost(depth): Ghost<nat>)
    requires
        indent@ == indent_seq(depth),
    ensures
        final(out)@ == old(out)@ + ser_node(node@, depth),
    decreases *node,
{
    proof {
        lemma_node_model(*node);
        reveal_strlit("root");
        reveal_strlit(" = ");
        reveal_strlit(" = {");
        reveal_strlit("}");
        reveal_strlit("\n");
        reveal_strlit("  ");
        assert("root"@ =~= root_name());
        assert(" = "@ =~= seq![' ', '=', ' ']);
        assert(" = {"@ =~= seq![' ', '=', ' ', '{']);
        assert("}"@ =~= seq!['}']);
        assert("\n"@ =~= seq!['\n']);
        assert("  "@ =~= seq![' ', ' ']);
    }
    let is_root_name = crate::text::str_eq(node.name.as_str(), "root");
    if node.children.len() == 0 {
        out.append(indent.as_str());
        out.append(node.name.as_str());
        out.append("\n");
        proof {
            assert(out@ =~= old(out)@ + ser_node(node@, depth));
        }
    } else if node.children.len() == 1 && !is_root_name {
        out.append(indent.as_str());
        out.append(node.name.as_str());
        out.append(" = ");
        out.append(node.children[0].name.as_str());
        out.append("\n");
        proof {
            lemma_node_model(node.children@[0]);
            assert(node@.children[0].name == node.children@[0].name@);
            assert(out@ =~= old(out)@ + ser_node(node@, depth));
        }
    } else {
        if !is_root_name {
            out.append(indent.as_str());
            out.append(node.name.as_str());
            out.append(" = {");
            out.append("\n");
        }
        let ghost header_done = out@;
        proof {
            if node@.name != root_name() {
                assert(header_done =~= old(out)@ + (indent_seq(depth) + node@.name + seq![
                    ' ',
                    '=',
                    ' ',
                    '{',
                    '\n',
                ]));
            }
        }
        let mut child_indent = indent.clone();
        child_indent.append("  ");
        proof {
            assert(child_indent@ == indent_seq(depth + 1));
        }
        let mut i: usize = 0;
        proof {
            assert(node@.children.subrange(0, 0) =~= Seq::<NodeModel>::empty());
        }
        while i < node.children.len()
            invariant
                i <= node.children@.len(),
                node@.children.len() == node.children@.len(),
                forall|j: int|
                    0 <= j < node.children@.len() ==> node@.children[j] == node.children@[j]@,
                child_indent@ == indent_seq(depth + 1),
                out@ == header_done + ser_children(node@.children.subrange(0, i as int), depth + 1),
            decreases node.children@.len() - i,
        {
            proof {
                assert(decreases_to!(*node => node.children@[i as int]));
                assert(node@.children.subrange(0, i + 1) =~= node@.children.subrange(
                    0,
                    i as int,
                ).push(node@.children[i as int]));
                lemma_ser_children_snoc(
                    node@.children.subrange(0, i as int),
                    node@.children[i as int],
                    depth + 1,
                );
            }
            serialize_node(&node.children[i], out, &child_indent, Ghost(depth + 1));
            proof {
                assert(out@ =~= header_done + ser_children(
                    node@.children.subrange(0, i + 1),
                    depth + 1,
                ));
            }
            i += 1;
        }
        proof {
            assert(node@.children.subrange(0, node@.children.len() as int) =~= node@.children);
        }
        if !is_root_name {
            out.append(indent.as_str());
            out.append("}");
            out.append("\n");
        }
        proof {
            assert(out@ =~= old(out)@ + ser_node(node@, depth));
        }
    }
}

impl Tree {
    /// Print the whole tree back to text. A stable inverse of parsing for
    /// trees the parser itself produced; comments and original whitespace
    /// are not reproduced.
    pub fn serialize(&self) -> (r: String)
        ensures
            r@ == ser_node(self@.root, 0),
    {
        let mut out = String::new();
        let indent = String::new();
        proof {
            crate::tree::lemma_tree_model(*self);
            assert(indent@ == indent_seq(0));
        }
        serialize_node(&self.root, &mut out, &indent, Ghost(0nat));
        proof {
            assert(Seq::<char>::empty() + ser_node(self@.root, 0) =~= ser_node(self@.root, 0));
        }
        out
    }
}

} // verus!
