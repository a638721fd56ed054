//! Batch helpers: parse many documents, merge many trees into one logical
//! namespace, and dump a tree's names for inspection.

use vstd::prelude::*;
use vstd::string::*;

use crate::node::{Node, NodeModel, lemma_node_model};
use crate::parser::{Parser, parse_result, strs_views};
use crate::serialize::indent_seq;
use crate::tree::{Tree, TreeModel, TreeError, lemma_tree_model, renumber_tops};

verus! {

/// The name dump of a node: its name on an indented line, then its
/// children, one level deeper.
pub open spec fn stringify_node(n: NodeModel, depth: nat) -> Seq<char>
    decreases n, 1nat,
{
    indent_seq(depth) + n.name + seq!['\n'] + stringify_children(n.children, depth + 1)
}

pub open spec fn stringify_children(cs: Seq<NodeModel>, depth: nat) -> Seq<char>
    decreases cs, 0nat,
{
    if cs.len() == 0 {
        Seq::empty()
    } else {
        stringify_node(cs[0], depth) + stringify_children(cs.subrange(1, cs.len() as int), depth)
    }
}

proof fn lemma_stringify_children_snoc(cs: Seq<NodeModel>, x: NodeModel, depth: nat)
    ensures
        stringify_children(cs.push(x), depth) == stringify_children(cs, depth) + stringify_node(
            x,
            depth,
        ),
    decreases cs.len(),
{
    let p = cs.push(x);
    if cs.len() == 0 {
        assert(p[0] == x);
        assert(p.subrange(1, p.len() as int) =~= Seq::<NodeModel>::empty());
        assert(stringify_children(Seq::<NodeModel>::empty(), depth) == Seq::<char>::empty());
        assert(stringify_children(p, depth) == stringify_node(x, depth) + stringify_children(
            p.subrange(1, p.len() as int),
            depth,
        ));
        assert(stringify_node(x, depth) + Seq::<char>::empty() =~= stringify_node(x, depth));
        assert(stringify_children(cs, depth) + stringify_node(x, depth) =~= stringify_node(
            x,
            depth,
        ));
    } else {
        assert(p[0] == cs[0]);
        assert(p.subrange(1, p.len() as int) =~= cs.subrange(1, cs.len() as int).push(x));
        lemma_stringify_children_snoc(cs.subrange(1, cs.len() as int), x, depth);
        assert(stringify_node(cs[0], depth) + (stringify_children(
            cs.subrange(1, cs.len() as int),
            depth,
        ) + stringify_node(x, depth)) =~= (stringify_node(cs[0], depth) + stringify_children(
            cs.subrange(1, cs.len() as int),
            depth,
        )) + stringify_node(x, depth));
    }
}

fn stringify_node_impl(node: &Node, out: &mut String, indent: &String, Ghost(depth): Ghost<nat>)
    requires
        indent@ == indent_seq(depth),
    ensures
        final(out)@ == old(out)@ + stringify_node(node@, depth),
    decreases *node,
{
    proof {
        lemma_node_model(*node);
        reveal_strlit("\n");
        assert("\n"@ =~= seq!['\n']);
        reveal_strlit("  ");
        assert("  "@ =~= seq![' ', ' ']);
    }
    out.append(indent.as_str());
    out.append(node.name.as_str());
    out.append("\n");
    let ghost header_done = out@;
    let mut child_indent = indent.clone();
    child_indent.append("  ");
    proof {
        assert(child_indent@ == indent_seq(depth + 1));
        assert(node@.children.subrange(0, 0) =~= Seq::<NodeModel>::empty());
        assert(header_done + Seq::<char>::empty() =~= header_done);
    }
    let mut i: usize = 0;
    while i < node.children.len()
        invariant
            i <= node.children@.len(),
            node@.children.len() == node.children@.len(),
            forall|j: int|
                0 <= j < node.children@.len() ==> node@.children[j] == node.children@[j]@,
            child_indent@ == indent_seq(depth + 1),
            out@ == header_done + stringify_children(
                node@.children.subrange(0, i as int),
                depth + 1,
            ),
        decreases node.children@.len() - i,
    {
        proof {
            assert(decreases_to!(*node => node.children@[i as int]));
            assert(node@.children.subrange(0, i + 1) =~= node@.children.subrange(0, i as int).push(
                node@.children[i as int],
            ));
            lemma_stringify_children_snoc(
                node@.children.subrange(0, i as int),
                node@.children[i as int],
                depth + 1,
            );
        }
        stringify_node_impl(&node.children[i], out, &child_indent, Ghost(depth + 1));
        proof {
            assert(out@ =~= header_done + stringify_children(
                node@.children.subrange(0, i + 1),
                depth + 1,
            ));
        }
        i += 1;
    }
    proof {
        assert(node@.children.subrange(0, node@.children.len() as int) =~= node@.children);
        assert(old(out)@ + (indent_seq(depth) + node@.name + seq!['\n']) + stringify_children(
            node@.children,
            depth + 1,
        ) =~= old(out)@ + stringify_node(node@, depth));
    }
}

/// A names-only dump of the subtree under `node`, each name on its own
/// line, indented two spaces per level below `depth`.
pub fn stringify_tree(node: &Node, depth: usize) -> (r: String)
    ensures
        r@ == stringify_node(node@, depth as nat),
{
    let mut indent = String::new();
    let mut d: usize = 0;
    proof {
        assert(indent@ == indent_seq(0));
        reveal_strlit("  ");
        assert("  "@ =~= seq![' ', ' ']);
    }
    while d < depth
        invariant
            d <= depth,
            indent@ == indent_seq(d as nat),
            "  "@ == seq![' ', ' '],
        decreases depth - d,
    {
        indent.append("  ");
        d += 1;
    }
    let mut out = String::new();
    stringify_node_impl(node, &mut out, &indent, Ghost(depth as nat));
    proof {
        assert(Seq::<char>::empty() + stringify_node(node@, depth as nat) =~= stringify_node(
            node@,
            depth as nat,
        ));
    }
    out
}

/// What `merge` yields, at the level of models.
pub open spec fn merge_model(a: TreeModel, b: TreeModel) -> TreeModel {
    TreeModel {
        root: NodeModel {
            name: a.root.name,
            id: a.root.id,
            children: a.root.children + renumber_tops(b.root.children, a.highest_id),
        },
        highest_id: a.highest_id + b.root.children.len(),
    }
}

/// The model of the stand-in tree returned for an empty merge input.
pub open spec fn empty_merge_model() -> TreeModel {
    TreeModel {
        root: NodeModel { name: seq!['e', 'm', 'p', 't', 'y'], id: 0, children: Seq::empty() },
        highest_id: 1,
    }
}

/// Folding `merge` left to right over a sequence of trees.
pub open spec fn merge_fold(ts: Seq<TreeModel>) -> TreeModel
    decreases ts.len(),
{
    if ts.len() == 0 {
        empty_merge_model()
    } else if ts.len() == 1 {
        ts[0]
    } else {
        merge_model(merge_fold(ts.drop_last()), ts.last())
    }
}

proof fn lemma_merge_fold_prefix_le(ts: Seq<TreeModel>, i: int)
    requires
        1 <= i <= ts.len(),
    ensures
        merge_fold(ts.subrange(0, i)).highest_id <= merge_fold(ts).highest_id,
    decreases ts.len(),
{
    if i == ts.len() {
        assert(ts.subrange(0, i) =~= ts);
    } else {
        assert(ts.len() > 1);
        assert(ts.drop_last() =~= ts.subrange(0, ts.len() - 1));
        assert(ts.subrange(0, ts.len() - 1).subrange(0, i) =~= ts.subrange(0, i));
        lemma_merge_fold_prefix_le(ts.subrange(0, ts.len() - 1), i);
    }
}

/// The models of a vector of trees.
pub open spec fn tree_views(ts: Seq<Tree>) -> Seq<TreeModel> {
    Seq::new(ts.len(), |i: int| ts[i]@)
}

/// Merge many trees into one, left to right. An empty input yields a
/// stand-in tree whose root is named `empty`.
pub fn merge_trees(trees: &[Tree]) -> (r: Tree)
    requires
        merge_fold(tree_views(trees@)).highest_id <= usize::MAX,
    ensures
        r@ == merge_fold(tree_views(trees@)),
{
    let ghost tv = tree_views(trees@);
    if trees.len() == 0 {
        proof {
            reveal_strlit("empty");
        }
        let root = Node::new(String::from_str("empty"), 0);
        let r = Tree::new(root, 1);
        proof {
            lemma_tree_model(r);
            assert("empty"@ =~= seq!['e', 'm', 'p', 't', 'y']);
            assert(r@.root.children =~= Seq::<NodeModel>::empty());
            assert(r@ =~= empty_merge_model());
        }
        return r;
    }
    let mut new_tree = trees[0].hard_clone();
    let mut i: usize = 1;
    proof {
        assert(tv.subrange(0, 1) =~= seq![tv[0]]);
        assert(seq![tv[0]].len() == 1);
    }
    while i < trees.len()
        invariant
            tv == tree_views(trees@),
            tv.len() == trees@.len(),
            1 <= i <= tv.len(),
            new_tree@ == merge_fold(tv.subrange(0, i as int)),
            merge_fold(tv).highest_id <= usize::MAX,
        decreases tv.len() - i,
    {
        proof {
            assert(tv.subrange(0, i + 1).drop_last() =~= tv.subrange(0, i as int));
            assert(tv.subrange(0, i + 1).last() == tv[i as int]);
            lemma_merge_fold_prefix_le(tv, i + 1);
        }
        let merged = new_tree.merge(&trees[i]);
        proof {
            assert(merged@ =~= merge_fold(tv.subrange(0, i + 1)));
        }
        new_tree = merged;
        i += 1;
    }
    proof {
        assert(tv.subrange(0, tv.len() as int) =~= tv);
    }
    new_tree
}

/// The models of the trees the given texts parse to, or nothing if any
/// text is malformed.
pub open spec fn parsed_trees(texts: Seq<Seq<char>>) -> Option<Seq<TreeModel>>
    decreases texts.len(),
{
    if texts.len() == 0 {
        Some(Seq::empty())
    } else {
        match parsed_trees(texts.drop_last()) {
            None => None,
            Some(ms) => match parse_result(texts.last()) {
                None => None,
                Some(out) => Some(ms.push(TreeModel { root: out.0, highest_id: out.1 })),
            },
        }
    }
}

/// Parse every text into its own tree, in order; any malformed document
/// fails the whole batch.
pub fn generate_trees(texts: Vec<String>) -> (r: Result<Vec<Tree>, TreeError>)
    requires
        forall|i: int| 0 <= i < texts@.len() ==> texts@[i]@.len() <= usize::MAX / 4,
    ensures
        match r {
            Ok(ts) => parsed_trees(strs_views(texts@)) == Some(tree_views(ts@)),
            Err(e) => parsed_trees(strs_views(texts@)) is None && e == TreeError::MalformedInput,
        },
{
    let ghost vs = strs_views(texts@);
    let mut out: Vec<Tree> = Vec::new();
    let mut i: usize = 0;
    proof {
        assert(vs.subrange(0, 0) =~= Seq::<Seq<char>>::empty());
        assert(tree_views(out@) =~= Seq::<TreeModel>::empty());
    }
    while i < texts.len()
        invariant
            vs == strs_views(texts@),
            vs.len() == texts@.len(),
            forall|j: int| 0 <= j < texts@.len() ==> texts@[j]@.len() <= usize::MAX / 4,
            i <= vs.len(),
            parsed_trees(vs.subrange(0, i as int)) == Some(tree_views(out@)),
        decreases vs.len() - i,
    {
        proof {
            assert(vs.subrange(0, i + 1).drop_last() =~= vs.subrange(0, i as int));
            assert(vs.subrange(0, i + 1).last() == vs[i as int]);
            assert(texts@[i as int]@ == vs[i as int]);
        }
        let parser = Parser::new();
        match parser.parse(texts[i].clone()) {
            Ok(t) => {
                let ghost pre = tree_views(out@);
                out.push(t);
                proof {
                    let o = parse_result(vs[i as int])->0;
                    assert(tree_views(out@) =~= pre.push(t@));
                    assert(t@ =~= TreeModel { root: o.0, highest_id: o.1 });
                }
            },
            Err(_) => {
                proof {
                    lemma_parsed_trees_extend_none(vs, i as int);
                }
                return Err(TreeError::MalformedInput);
            },
        }
        i += 1;
    }
    proof {
        assert(vs.subrange(0, vs.len() as int) =~= vs);
    }
    Ok(out)
}

/// A prefix that already failed, or a failing text anywhere, fails the
/// whole batch.
proof fn lemma_parsed_trees_extend_none(vs: Seq<Seq<char>>, i: int)
    requires
        0 <= i < vs.len(),
        parsed_trees(vs.subrange(0, i)) is None || parse_result(vs[i]) is None,
    ensures
        parsed_trees(vs) is None,
    decreases vs.len() - i,
{
    if i == vs.len() - 1 {
        assert(vs.drop_last() =~= vs.subrange(0, i));
    } else {
        assert(parsed_trees(vs.subrange(0, i + 1)) is None) by {
            assert(vs.subrange(0, i + 1).drop_last() =~= vs.subrange(0, i));
            assert(vs.subrange(0, i + 1).last() == vs[i]);
        }
        lemma_parsed_trees_extend_none(vs, i + 1);
    }
}

/// Parse every `(identifier, text)` pair, keeping the identifier with the
/// tree it parsed to.
pub fn generate_trees_and_remember_files(files: Vec<(String, String)>) -> (r: Result<
    Vec<(String, Tree)>,
    TreeError,
>)
    requires
        forall|i: int| 0 <= i < files@.len() ==> files@[i].1@.len() <= usize::MAX / 4,
    ensures
        match r {
            Ok(ts) => {
                &&& ts@.len() == files@.len()
                &&& forall|i: int|
                    0 <= i < ts@.len() ==> (ts@[i].0@ == files@[i].0@ && (parse_result(
                        files@[i].1@,
                    ) matches Some(out) && ts@[i].1@.root == out.0 && ts@[i].1@.highest_id
                        == out.1))
            },
            Err(e) => (exists|i: int|
                0 <= i < files@.len() && parse_result(#[trigger] files@[i].1@) is None) && e
                == TreeError::MalformedInput,
        },
{
    let mut out: Vec<(String, Tree)> = Vec::new();
    let mut i: usize = 0;
    while i < files.len()
        invariant
            forall|j: int| 0 <= j < files@.len() ==> files@[j].1@.len() <= usize::MAX / 4,
            i <= files@.len(),
            out@.len() == i,
            forall|j: int|
                0 <= j < i ==> (out@[j].0@ == files@[j].0@ && (parse_result(files@[j].1@)
                    matches Some(o) && out@[j].1@.root == o.0 && out@[j].1@.highest_id == o.1)),
        decreases files@.len() - i,
    {
        let parser = Parser::new();
        match parser.parse(files[i].1.clone()) {
            Ok(t) => {
                out.push((files[i].0.clone(), t));
            },
            Err(_) => {
                return Err(TreeError::MalformedInput);
            },
        }
        i += 1;
    }
    Ok(out)
}

/// Parse every text and merge the results into one namespace.
pub fn generate_tree(texts: Vec<String>) -> (r: Result<Tree, TreeError>)
    requires
        forall|i: int| 0 <= i < texts@.len() ==> texts@[i]@.len() <= usize::MAX / 4,
        parsed_trees(strs_views(texts@)) matches Some(ms) ==> merge_fold(ms).highest_id
            <= usize::MAX,
    ensures
        match r {
            Ok(t) => parsed_trees(strs_views(texts@)) matches Some(ms) && t@ == merge_fold(ms),
            Err(e) => parsed_trees(strs_views(texts@)) is None && e == TreeError::MalformedInput,
        },
{
    match generate_trees(texts) {
        Ok(ts) => {
            let r = merge_trees(ts.as_slice());
            Ok(r)
        },
        Err(e) => Err(e),
    }
}

} // verus!
