//! The tree handle: a root node together with the `highest_id` counter that
//! supplies fresh identities for merges and synthetic nodes.
//!
//! Every handle owns its nodes outright: lookups hand back independent
//! copies of the subtree they found, and mutation goes through the handle
//! that owns the document. Callers splice changed subtrees back with the
//! mutation methods instead of writing through a lookup result.

use vstd::prelude::*;
use vstd::string::*;

use crate::node::{Node, NodeModel, node_model, lemma_node_model};
use crate::parser::root_name;

verus! {

/// The elements of `s` whose mask bit is set, in order.
pub open spec fn mask_keep<T>(s: Seq<T>, bs: Seq<bool>) -> Seq<T>
    decreases s.len(),
{
    if s.len() == 0 {
        Seq::empty()
    } else {
        (if 0 < bs.len() && bs[0] {
            seq![s[0]]
        } else {
            Seq::empty()
        }) + mask_keep(s.subrange(1, s.len() as int), bs.subrange(1, bs.len() as int))
    }
}

/// The elements of `s` whose mask bit is clear, in order.
pub open spec fn mask_drop<T>(s: Seq<T>, bs: Seq<bool>) -> Seq<T>
    decreases s.len(),
{
    if s.len() == 0 {
        Seq::empty()
    } else {
        (if 0 < bs.len() && !bs[0] {
            seq![s[0]]
        } else {
            Seq::empty()
        }) + mask_drop(s.subrange(1, s.len() as int), bs.subrange(1, bs.len() as int))
    }
}

pub proof fn lemma_mask_keep_snoc<T>(s: Seq<T>, bs: Seq<bool>, x: T, b: bool)
    requires
        s.len() == bs.len(),
    ensures
        mask_keep(s.push(x), bs.push(b)) == mask_keep(s, bs) + (if b {
            seq![x]
        } else {
            Seq::<T>::empty()
        }),
    decreases s.len(),
{
    let p = s.push(x);
    let pb = bs.push(b);
    if s.len() == 0 {
        assert(p.subrange(1, p.len() as int) =~= Seq::<T>::empty());
        assert(pb.subrange(1, pb.len() as int) =~= Seq::<bool>::empty());
        assert(mask_keep(Seq::<T>::empty(), Seq::<bool>::empty()) == Seq::<T>::empty());
        if b {
            assert(mask_keep(p, pb) =~= seq![x]);
            assert(mask_keep(s, bs) + seq![x] =~= seq![x]);
        } else {
            assert(mask_keep(p, pb) =~= Seq::<T>::empty());
            assert(mask_keep(s, bs) + Seq::<T>::empty() =~= Seq::<T>::empty());
        }
    } else {
        assert(p.subrange(1, p.len() as int) =~= s.subrange(1, s.len() as int).push(x));
        assert(pb.subrange(1, pb.len() as int) =~= bs.subrange(1, bs.len() as int).push(b));
        lemma_mask_keep_snoc(s.subrange(1, s.len() as int), bs.subrange(1, bs.len() as int), x, b);
        let hd = if bs[0] {
            seq![s[0]]
        } else {
            Seq::<T>::empty()
        };
        let tl = mask_keep(s.subrange(1, s.len() as int), bs.subrange(1, bs.len() as int));
        let ex = if b {
            seq![x]
        } else {
            Seq::<T>::empty()
        };
        assert(mask_keep(p, pb) == hd + (tl + ex));
        assert(hd + (tl + ex) =~= (hd + tl) + ex);
    }
}

pub proof fn lemma_mask_drop_snoc<T>(s: Seq<T>, bs: Seq<bool>, x: T, b: bool)
    requires
        s.len() == bs.len(),
    ensures
        mask_drop(s.push(x), bs.push(b)) == mask_drop(s, bs) + (if !b {
            seq![x]
        } else {
            Seq::<T>::empty()
        }),
    decreases s.len(),
{
    let p = s.push(x);
    let pb = bs.push(b);
    if s.len() == 0 {
        assert(p.subrange(1, p.len() as int) =~= Seq::<T>::empty());
        assert(pb.subrange(1, pb.len() as int) =~= Seq::<bool>::empty());
        assert(mask_drop(Seq::<T>::empty(), Seq::<bool>::empty()) == Seq::<T>::empty());
        if !b {
            assert(mask_drop(p, pb) =~= seq![x]);
            assert(mask_drop(s, bs) + seq![x] =~= seq![x]);
        } else {
            assert(mask_drop(p, pb) =~= Seq::<T>::empty());
            assert(mask_drop(s, bs) + Seq::<T>::empty() =~= Seq::<T>::empty());
        }
    } else {
        assert(p.subrange(1, p.len() as int) =~= s.subrange(1, s.len() as int).push(x));
        assert(pb.subrange(1, pb.len() as int) =~= bs.subrange(1, bs.len() as int).push(b));
        lemma_mask_drop_snoc(s.subrange(1, s.len() as int), bs.subrange(1, bs.len() as int), x, b);
        let hd = if !bs[0] {
            seq![s[0]]
        } else {
            Seq::<T>::empty()
        };
        let tl = mask_drop(s.subrange(1, s.len() as int), bs.subrange(1, bs.len() as int));
        let ex = if !b {
            seq![x]
        } else {
            Seq::<T>::empty()
        };
        assert(mask_drop(p, pb) == hd + (tl + ex));
        assert(hd + (tl + ex) =~= (hd + tl) + ex);
    }
}

/// A filter, applied to a name, can decide `b`: some string carrying that
/// name is a possible input of `f` with outcome `b`.
pub open spec fn decided<F: Fn(&String) -> bool>(f: F, name: Seq<char>, b: bool) -> bool {
    exists|s: String| s@ == name && call_ensures(f, (&s,), b)
}

/// The filter may be called on any name.
pub open spec fn callable<F: Fn(&String) -> bool>(f: F) -> bool {
    forall|s: &String| #[trigger] call_requires(f, (s,))
}

/// The last child carrying the given name, if any: lookups resolve to the
/// last occurrence in document order, the natural merge-override point.
pub open spec fn last_match(cs: Seq<NodeModel>, name: Seq<char>) -> Option<NodeModel>
    decreases cs.len(),
{
    if cs.len() == 0 {
        None
    } else if cs.last().name == name {
        Some(cs.last())
    } else {
        last_match(cs.drop_last(), name)
    }
}

/// Resolve a dotted path, one segment at a time, from the given node.
pub open spec fn scope_lookup(n: NodeModel, path: Seq<Seq<char>>) -> Option<NodeModel>
    decreases path.len(),
{
    if path.len() == 0 {
        Some(n)
    } else {
        match last_match(n.children, path[0]) {
            None => None,
            Some(c) => scope_lookup(c, path.subrange(1, path.len() as int)),
        }
    }
}

pub proof fn lemma_scope_lookup_concat(n: NodeModel, a: Seq<Seq<char>>, b: Seq<Seq<char>>)
    ensures
        scope_lookup(n, a + b) == match scope_lookup(n, a) {
            None => None,
            Some(m) => scope_lookup(m, b),
        },
    decreases a.len(),
{
    if a.len() == 0 {
        assert(a + b =~= b);
    } else {
        assert((a + b)[0] == a[0]);
        assert((a + b).subrange(1, (a + b).len() as int) =~= a.subrange(1, a.len() as int) + b);
        match last_match(n.children, a[0]) {
            None => {
            },
            Some(c) => {
                lemma_scope_lookup_concat(c, a.subrange(1, a.len() as int), b);
            },
        }
    }
}

pub proof fn lemma_scope_lookup_snoc(n: NodeModel, p: Seq<Seq<char>>, seg: Seq<char>)
    ensures
        scope_lookup(n, p.push(seg)) == match scope_lookup(n, p) {
            None => None,
            Some(m) => last_match(m.children, seg),
        },
{
    assert(p.push(seg) =~= p + seq![seg]);
    lemma_scope_lookup_concat(n, p, seq![seg]);
    match scope_lookup(n, p) {
        None => {
        },
        Some(m) => {
            assert(seq![seg][0] == seg);
            assert(seq![seg].subrange(1, 1) =~= Seq::<Seq<char>>::empty());
            match last_match(m.children, seg) {
                None => {
                },
                Some(c) => {
                    assert(scope_lookup(c, seq![seg].subrange(1, 1)) == Some(c));
                },
            }
        },
    }
}

pub proof fn lemma_scope_lookup_extend_none(n: NodeModel, pv: Seq<Seq<char>>, i: int)
    requires
        0 <= i < pv.len(),
        scope_lookup(n, pv.subrange(0, i)) matches Some(m) && last_match(m.children, pv[i])
            is None,
    ensures
        scope_lookup(n, pv) is None,
{
    assert(pv =~= pv.subrange(0, i) + pv.subrange(i, pv.len() as int));
    lemma_scope_lookup_concat(n, pv.subrange(0, i), pv.subrange(i, pv.len() as int));
    assert(pv.subrange(i, pv.len() as int)[0] == pv[i]);
}

/// The spliced children with their top-level identities reassigned to
/// `base`, `base + 1`, ...; descendants keep the identities of their
/// original parse.
pub open spec fn renumber_tops(cs: Seq<NodeModel>, base: nat) -> Seq<NodeModel> {
    Seq::new(cs.len(), |i: int| crate::node::with_id(cs[i], (base + i) as nat))
}

/// The grandchildren promoted by `move_up`: for every child whose name has
/// `key` as a substring, its children, in order.
pub open spec fn move_up_children(cs: Seq<NodeModel>, key: Seq<char>) -> Seq<NodeModel>
    decreases cs.len(),
{
    if cs.len() == 0 {
        Seq::empty()
    } else {
        move_up_children(cs.drop_last(), key) + (if crate::text::has_substring(
            cs.last().name,
            key,
        ) {
            cs.last().children
        } else {
            Seq::<NodeModel>::empty()
        })
    }
}

/// The name with every byte-order mark removed.
pub open spec fn strip_bom(s: Seq<char>) -> Seq<char>
    decreases s.len(),
{
    if s.len() == 0 {
        Seq::empty()
    } else {
        strip_bom(s.drop_last()) + (if s.last() == '\u{FEFF}' {
            Seq::<char>::empty()
        } else {
            seq![s.last()]
        })
    }
}

/// The ways a tree operation can fail.
#[derive(Debug, Clone, Copy, PartialEq, Eq, Structural)]
pub enum TreeError {
    /// A path lookup found no child with the requested name.
    ScopeNotFound,
    /// `value` was called on a node that does not have exactly one child.
    NotLeaf,
    /// The parser met a structurally impossible token sequence, such as an
    /// unmatched closing brace.
    MalformedInput,
}

/// Mathematical model of a tree: the root's model and the id counter.
#[verifier::ext_equal]
pub ghost struct TreeModel {
    pub root: NodeModel,
    pub highest_id: nat,
}

/// A document tree: a root node plus the source of fresh identities.
/// `highest_id` is kept above every identity in the tree by the operations
/// that mint ids; see [`well_formed`].
pub struct Tree {
    pub(crate) root: Node,
    pub(crate) highest_id: usize,
}

impl View for Tree {
    type V = TreeModel;

    closed spec fn view(&self) -> TreeModel {
        TreeModel { root: node_model(self.root), highest_id: self.highest_id as nat }
    }
}

/// How a tree's model is built from its parts, for use by the rest of the
/// crate.
pub(crate) broadcast proof fn lemma_tree_model(t: Tree)
    ensures
        (#[trigger] t@).root == node_model(t.root),
        t@.highest_id == t.highest_id as nat,
{
}

/// Every identity in the tree lies strictly below its `highest_id`, so the
/// counter can hand out fresh identities.
pub open spec fn well_formed(t: TreeModel) -> bool {
    crate::node::ids_below(t.root, t.highest_id)
}

impl Tree {
    pub fn new(root: Node, highest_id: usize) -> (r: Tree)
        ensures
            r@.root == root@,
            r@.highest_id == highest_id as nat,
    {
        Tree { root, highest_id }
    }

    pub fn get_highest_id(&self) -> (r: usize)
        ensures
            r as nat == self@.highest_id,
    {
        self.highest_id
    }

    /// Independent copies of the root's children.
    fn children(&self) -> (r: Vec<Node>)
        ensures
            r@.len() == self@.root.children.len(),
            forall|i: int| 0 <= i < r@.len() ==> r@[i]@ == self@.root.children[i],
    {
        proof {
            lemma_tree_model(*self);
        }
        self.root.children()
    }

    /// The root's name, with any byte-order mark stripped.
    pub fn get_name(&self) -> (r: String)
        ensures
            r@ == strip_bom(self@.root.name),
    {
        proof {
            lemma_tree_model(*self);
            lemma_node_model(self.root);
        }
        let name = &self.root.name;
        let n = name.as_str().unicode_len();
        let mut out = String::new();
        let mut i: usize = 0;
        while i < n
            invariant
                n == name@.len(),
                i <= n,
                out@ == strip_bom(name@.subrange(0, i as int)),
            decreases n - i,
        {
            proof {
                assert(name@.subrange(0, i + 1).drop_last() =~= name@.subrange(0, i as int));
                assert(name@.subrange(0, i + 1).last() == name@[i as int]);
            }
            let c = name.as_str().get_char(i);
            if c != '\u{FEFF}' {
                out.append(name.as_str().substring_char(i, i + 1));
                proof {
                    assert(name@.subrange(i as int, i + 1) =~= seq![name@[i as int]]);
                }
            }
            i += 1;
        }
        proof {
            assert(name@.subrange(0, n as int) =~= name@);
        }
        out
    }

    /// The children's names in document order, duplicates preserved.
    pub fn get_children_names(&self) -> (r: Vec<String>)
        ensures
            r@.len() == self@.root.children.len(),
            forall|i: int| 0 <= i < r@.len() ==> r@[i]@ == self@.root.children[i].name,
    {
        proof {
            lemma_tree_model(*self);
            lemma_node_model(self.root);
        }
        let mut out: Vec<String> = Vec::new();
        let mut i: usize = 0;
        while i < self.root.children.len()
            invariant
                i <= self.root.children@.len(),
                self@.root.children.len() == self.root.children@.len(),
                forall|j: int|
                    0 <= j < self.root.children@.len() ==> self@.root.children[j]
                        == self.root.children@[j]@,
                out@.len() == i,
                forall|j: int| 0 <= j < i ==> out@[j]@ == self@.root.children[j].name,
            decreases self.root.children@.len() - i,
        {
            proof {
                lemma_node_model(self.root.children@[i as int]);
            }
            out.push(self.root.children[i].name.clone());
            i += 1;
        }
        out
    }

    /// The children's names that satisfy the filter, in document order.
    pub fn get_children_names_filtered<F: Fn(&String) -> bool>(&self, filter: F) -> (r: Vec<
        String,
    >)
        requires
            callable(filter),
        ensures
            exists|bs: Seq<bool>|
                {
                    &&& bs.len() == self@.root.children.len()
                    &&& forall|i: int|
                        0 <= i < bs.len() ==> decided(
                            filter,
                            self@.root.children[i].name,
                            #[trigger] bs[i],
                        )
                    &&& r@.len() == mask_keep(self@.root.children, bs).len()
                    &&& forall|i: int|
                        0 <= i < r@.len() ==> r@[i]@ == mask_keep(self@.root.children, bs)[i].name
                },
    {
        let names = self.get_children_names();
        let ghost cs = self@.root.children;
        let mut out: Vec<String> = Vec::new();
        let ghost bs = Seq::<bool>::empty();
        let mut i: usize = 0;
        proof {
            assert(cs.subrange(0, 0) =~= Seq::<NodeModel>::empty());
        }
        let mut bsv: Ghost<Seq<bool>> = Ghost(bs);
        while i < names.len()
            invariant
                callable(filter),
                names@.len() == cs.len(),
                forall|j: int| 0 <= j < names@.len() ==> names@[j]@ == cs[j].name,
                i <= names@.len(),
                bsv@.len() == i,
                forall|j: int| 0 <= j < i ==> decided(filter, cs[j].name, #[trigger] bsv@[j]),
                out@.len() == mask_keep(cs.subrange(0, i as int), bsv@).len(),
                forall|j: int|
                    0 <= j < out@.len() ==> out@[j]@ == mask_keep(
                        cs.subrange(0, i as int),
                        bsv@,
                    )[j].name,
            decreases names@.len() - i,
        {
            let b = filter(&names[i]);
            proof {
                assert(decided(filter, cs[i as int].name, b));
                assert(cs.subrange(0, i + 1) =~= cs.subrange(0, i as int).push(cs[i as int]));
                lemma_mask_keep_snoc(cs.subrange(0, i as int), bsv@, cs[i as int], b);
            }
            if b {
                out.push(names[i].clone());
            }
            bsv = Ghost(bsv@.push(b));
            i += 1;
        }
        proof {
            assert(cs.subrange(0, cs.len() as int) =~= cs);
        }
        out
    }

    /// The value of a `key = value` node: the name of its only child.
    /// Nodes with zero or several children are not leaves and have no value.
    pub fn value(&self) -> (r: Result<String, TreeError>)
        ensures
            match r {
                Ok(s) => self@.root.children.len() == 1 && s@ == self@.root.children[0].name,
                Err(e) => self@.root.children.len() != 1 && e == TreeError::NotLeaf,
            },
    {
        proof {
            lemma_tree_model(*self);
            lemma_node_model(self.root);
        }
        if self.root.children.len() == 1 {
            proof {
                lemma_node_model(self.root.children@[0]);
            }
            Ok(self.root.children[0].name.clone())
        } else {
            Err(TreeError::NotLeaf)
        }
    }

    /// Append another tree's root as a child of this root.
    pub fn add_child_tree(&mut self, child: Tree)
        ensures
            final(self)@.root.name == old(self)@.root.name,
            final(self)@.root.id == old(self)@.root.id,
            final(self)@.root.children == old(self)@.root.children.push(child@.root),
            final(self)@.highest_id == old(self)@.highest_id,
    {
        proof {
            lemma_tree_model(*self);
            lemma_tree_model(child);
        }
        self.root.add_child(child.root);
        proof {
            lemma_tree_model(*self);
        }
    }

    /// Append a node as a child of the root.
    pub fn add_child(&mut self, child: Node)
        ensures
            final(self)@.root.name == old(self)@.root.name,
            final(self)@.root.id == old(self)@.root.id,
            final(self)@.root.children == old(self)@.root.children.push(child@),
            final(self)@.highest_id == old(self)@.highest_id,
    {
        proof {
            lemma_tree_model(*self);
        }
        self.root.add_child(child);
        proof {
            lemma_tree_model(*self);
        }
    }

    /// Replace the root's whole child list.
    pub fn set_children(&mut self, children: Vec<Node>)
        ensures
            final(self)@.root.name == old(self)@.root.name,
            final(self)@.root.id == old(self)@.root.id,
            final(self)@.root.children.len() == children@.len(),
            forall|i: int|
                0 <= i < children@.len() ==> final(self)@.root.children[i] == children@[i]@,
            final(self)@.highest_id == old(self)@.highest_id,
    {
        proof {
            lemma_tree_model(*self);
        }
        self.root.set_children(children);
        proof {
            lemma_tree_model(*self);
        }
    }

    /// An empty tree: a bare synthetic root.
    pub fn default() -> (r: Tree)
        ensures
            r@.root == crate::parser::leaf_model(root_name(), 0),
            r@.highest_id == 1,
    {
        proof {
            reveal_strlit("root");
            assert("root"@ =~= root_name());
        }
        Tree::with_named_root_impl(String::from_str("root"))
    }

    /// A tree whose root carries the given name instead of the sentinel.
    pub fn with_named_root(name: &str) -> (r: Tree)
        ensures
            r@.root == crate::parser::leaf_model(name@, 0),
            r@.highest_id == 1,
    {
        Tree::with_named_root_impl(String::from_str(name))
    }

    fn with_named_root_impl(name: String) -> (r: Tree)
        ensures
            r@.root == crate::parser::leaf_model(name@, 0),
            r@.highest_id == 1,
    {
        let root = Node::new(name, 0);
        let r = Tree { root, highest_id: 1 };
        proof {
            lemma_tree_model(r);
            assert(r@.root.children =~= Seq::<NodeModel>::empty());
            assert(r@.root =~= crate::parser::leaf_model(name@, 0));
        }
        r
    }

    /// A fresh `key = value` node pair, with identities `highest_id` and
    /// `highest_id + 1`.
    pub fn from_key_value(key: &str, value: &str, highest_id: usize) -> (r: Node)
        requires
            highest_id < usize::MAX,
        ensures
            r@.name == key@,
            r@.id == highest_id as nat,
            r@.children == seq![crate::parser::leaf_model(value@, (highest_id + 1) as nat)],
    {
        let mut key_node = Node::new(String::from_str(key), highest_id);
        let value_node = Node::new(String::from_str(value), highest_id + 1);
        proof {
            assert(value_node@.children =~= Seq::<NodeModel>::empty());
            assert(value_node@ =~= crate::parser::leaf_model(value@, (highest_id + 1) as nat));
        }
        key_node.add_child(value_node);
        proof {
            assert(key_node@.children =~= seq![
                crate::parser::leaf_model(value@, (highest_id + 1) as nat),
            ]);
        }
        key_node
    }

    /// Resolve one path segment: the last child of the root with exactly
    /// this name, as an independent tree carrying the same `highest_id`.
    pub fn get(&self, name: &str) -> (r: Result<Tree, TreeError>)
        ensures
            match last_match(self@.root.children, name@) {
                Some(m) => r matches Ok(t) && t@.root == m && t@.highest_id == self@.highest_id,
                None => r == Err::<Tree, TreeError>(TreeError::ScopeNotFound),
            },
    {
        proof {
            lemma_tree_model(*self);
            lemma_node_model(self.root);
        }
        let ghost cs = self@.root.children;
        let mut best: Option<usize> = None;
        let mut i: usize = 0;
        proof {
            assert(cs.subrange(0, 0) =~= Seq::<NodeModel>::empty());
        }
        while i < self.root.children.len()
            invariant
                self@.root.children == cs,
                cs.len() == self.root.children@.len(),
                forall|j: int| 0 <= j < cs.len() ==> cs[j] == self.root.children@[j]@,
                i <= cs.len(),
                match best {
                    None => last_match(cs.subrange(0, i as int), name@) is None,
                    Some(j) => j < i && last_match(cs.subrange(0, i as int), name@) == Some(
                        cs[j as int],
                    ),
                },
            decreases cs.len() - i,
        {
            proof {
                lemma_node_model(self.root.children@[i as int]);
                assert(cs.subrange(0, i + 1).drop_last() =~= cs.subrange(0, i as int));
                assert(cs.subrange(0, i + 1).last() == cs[i as int]);
            }
            if crate::text::str_eq(self.root.children[i].name.as_str(), name) {
                best = Some(i);
            }
            i += 1;
        }
        proof {
            assert(cs.subrange(0, cs.len() as int) =~= cs);
        }
        match best {
            Some(j) => {
                let sub = self.root.children[j].duplicate();
                Ok(Tree { root: sub, highest_id: self.highest_id })
            },
            None => Err(TreeError::ScopeNotFound),
        }
    }

    /// Resolve a whole path, segment by segment; each level takes the last
    /// child matching the segment, or the lookup fails with `ScopeNotFound`.
    pub fn get_scope(&self, path: &Vec<String>) -> (r: Result<Tree, TreeError>)
        ensures
            match scope_lookup(self@.root, crate::parser::strs_views(path@)) {
                Some(m) => r matches Ok(t) && t@.root == m && t@.highest_id == self@.highest_id,
                None => r == Err::<Tree, TreeError>(TreeError::ScopeNotFound),
            },
    {
        let ghost pv = crate::parser::strs_views(path@);
        let mut cur = self.hard_clone();
        let mut i: usize = 0;
        proof {
            assert(pv.subrange(0, 0) =~= Seq::<Seq<char>>::empty());
        }
        while i < path.len()
            invariant
                pv == crate::parser::strs_views(path@),
                pv.len() == path@.len(),
                i <= pv.len(),
                scope_lookup(self@.root, pv.subrange(0, i as int)) == Some(cur@.root),
                cur@.highest_id == self@.highest_id,
            decreases pv.len() - i,
        {
            proof {
                assert(pv.subrange(0, i + 1) =~= pv.subrange(0, i as int).push(pv[i as int]));
                lemma_scope_lookup_snoc(self@.root, pv.subrange(0, i as int), pv[i as int]);
            }
            match cur.get(path[i].as_str()) {
                Ok(t) => {
                    cur = t;
                },
                Err(_) => {
                    proof {
                        lemma_scope_lookup_extend_none(self@.root, pv, i as int);
                    }
                    return Err(TreeError::ScopeNotFound);
                },
            }
            i += 1;
        }
        proof {
            assert(pv.subrange(0, pv.len() as int) =~= pv);
        }
        Ok(cur)
    }

    /// The first child, in document order, whose name satisfies the filter.
    pub fn search_child<F: Fn(&String) -> bool>(&self, filter: F) -> (r: Option<Tree>)
        requires
            callable(filter),
        ensures
            match r {
                Some(t) => exists|i: int|
                    {
                        &&& 0 <= i < self@.root.children.len()
                        &&& t@.root == self@.root.children[i]
                        &&& t@.highest_id == self@.highest_id
                        &&& decided(filter, #[trigger] self@.root.children[i].name, true)
                        &&& forall|j: int|
                            0 <= j < i ==> decided(
                                filter,
                                #[trigger] self@.root.children[j].name,
                                false,
                            )
                    },
                None => forall|i: int|
                    0 <= i < self@.root.children.len() ==> decided(
                        filter,
                        #[trigger] self@.root.children[i].name,
                        false,
                    ),
            },
    {
        proof {
            lemma_tree_model(*self);
            lemma_node_model(self.root);
        }
        let ghost cs = self@.root.children;
        let names = self.get_children_names();
        let mut i: usize = 0;
        while i < names.len()
            invariant
                callable(filter),
                self@.root.children == cs,
                cs.len() == self.root.children@.len(),
                forall|j: int| 0 <= j < cs.len() ==> cs[j] == self.root.children@[j]@,
                names@.len() == cs.len(),
                forall|j: int| 0 <= j < names@.len() ==> names@[j]@ == cs[j].name,
                i <= cs.len(),
                forall|j: int| 0 <= j < i ==> decided(filter, #[trigger] cs[j].name, false),
            decreases cs.len() - i,
        {
            if filter(&names[i]) {
                proof {
                    assert(decided(filter, cs[i as int].name, true));
                }
                let sub = self.root.children[i].duplicate();
                let t = Tree { root: sub, highest_id: self.highest_id };
                proof {
                    lemma_tree_model(t);
                    assert(t@.root == cs[i as int]);
                }
                return Some(t);
            }
            proof {
                assert(decided(filter, cs[i as int].name, false));
            }
            i += 1;
        }
        None
    }

    /// A fresh tree whose root keeps its name and identity but loses every
    /// child whose name satisfies the filter.
    pub fn delete_children_filtered<F: Fn(&String) -> bool>(&self, filter: F) -> (r: Tree)
        requires
            callable(filter),
        ensures
            exists|bs: Seq<bool>|
                {
                    &&& bs.len() == self@.root.children.len()
                    &&& forall|i: int|
                        0 <= i < bs.len() ==> decided(
                            filter,
                            self@.root.children[i].name,
                            #[trigger] bs[i],
                        )
                    &&& r@.root.name == self@.root.name
                    &&& r@.root.id == self@.root.id
                    &&& r@.root.children == mask_drop(self@.root.children, bs)
                    &&& r@.highest_id == self@.highest_id
                },
    {
        let ghost cs = self@.root.children;
        let names = self.get_children_names();
        let kids = self.children();
        let mut kept: Vec<Node> = Vec::new();
        let mut bsv: Ghost<Seq<bool>> = Ghost(Seq::empty());
        let mut i: usize = 0;
        proof {
            assert(cs.subrange(0, 0) =~= Seq::<NodeModel>::empty());
        }
        while i < names.len()
            invariant
                callable(filter),
                names@.len() == cs.len(),
                forall|j: int| 0 <= j < names@.len() ==> names@[j]@ == cs[j].name,
                kids@.len() == cs.len(),
                forall|j: int| 0 <= j < kids@.len() ==> kids@[j]@ == cs[j],
                i <= cs.len(),
                bsv@.len() == i,
                forall|j: int| 0 <= j < i ==> decided(filter, cs[j].name, #[trigger] bsv@[j]),
                kept@.len() == mask_drop(cs.subrange(0, i as int), bsv@).len(),
                forall|j: int|
                    0 <= j < kept@.len() ==> kept@[j]@ == mask_drop(
                        cs.subrange(0, i as int),
                        bsv@,
                    )[j],
            decreases cs.len() - i,
        {
            let b = filter(&names[i]);
            proof {
                assert(decided(filter, cs[i as int].name, b));
                assert(cs.subrange(0, i + 1) =~= cs.subrange(0, i as int).push(cs[i as int]));
                lemma_mask_drop_snoc(cs.subrange(0, i as int), bsv@, cs[i as int], b);
            }
            if !b {
                kept.push(kids[i].duplicate());
            }
            bsv = Ghost(bsv@.push(b));
            i += 1;
        }
        proof {
            assert(cs.subrange(0, cs.len() as int) =~= cs);
        }
        let mut out = self.hard_clone();
        out.set_children(kept);
        proof {
            assert(out@.root.children =~= mask_drop(cs, bsv@));
        }
        out
    }

    /// Combine two documents: every child of `other`'s root is appended
    /// under this root, its top-level identity reassigned from this tree's
    /// `highest_id` so the splice collides with nothing already here; the
    /// result's `highest_id` sits above every identity so minted.
    pub fn merge(&self, other: &Tree) -> (r: Tree)
        requires
            self@.highest_id + other@.root.children.len() <= usize::MAX,
        ensures
            r@.root.name == self@.root.name,
            r@.root.id == self@.root.id,
            r@.root.children == self@.root.children + renumber_tops(
                other@.root.children,
                self@.highest_id,
            ),
            r@.highest_id == self@.highest_id + other@.root.children.len(),
    {
        let new_tree = self.hard_clone();
        new_tree.merge_internal(other)
    }

    fn merge_internal(self, other: &Tree) -> (r: Tree)
        requires
            self@.highest_id + other@.root.children.len() <= usize::MAX,
        ensures
            r@.root.name == self@.root.name,
            r@.root.id == self@.root.id,
            r@.root.children == self@.root.children + renumber_tops(
                other@.root.children,
                self@.highest_id,
            ),
            r@.highest_id == self@.highest_id + other@.root.children.len(),
    {
        let ghost base = self@;
        let ghost cs = other@.root.children;
        let mut me = self;
        let mut new_uids: usize = me.highest_id;
        let incoming = other.children();
        let mut i: usize = 0;
        while i < incoming.len()
            invariant
                incoming@.len() == cs.len(),
                forall|j: int| 0 <= j < cs.len() ==> incoming@[j]@ == cs[j],
                i <= cs.len(),
                base.highest_id + cs.len() <= usize::MAX,
                new_uids == base.highest_id + i,
                me@.highest_id == base.highest_id,
                me@.root.name == base.root.name,
                me@.root.id == base.root.id,
                me@.root.children.len() == base.root.children.len() + i,
                forall|j: int|
                    0 <= j < base.root.children.len() ==> me@.root.children[j]
                        == base.root.children[j],
                forall|k: int|
                    0 <= k < i ==> me@.root.children[base.root.children.len() + k]
                        == crate::node::with_id(cs[k], (base.highest_id + k) as nat),
            decreases cs.len() - i,
        {
            let mut c = incoming[i].duplicate();
            c.set_unique_id(new_uids);
            me.add_child(c);
            new_uids = new_uids + 1;
            i += 1;
        }
        proof {
            lemma_tree_model(me);
        }
        me.highest_id = new_uids;
        proof {
            lemma_tree_model(me);
            assert(me@.root.children =~= base.root.children + renumber_tops(
                cs,
                base.highest_id,
            ));
        }
        me
    }

    /// Unwrap per-file container blocks: every child whose name holds `key`
    /// as a substring is discarded and its children are spliced directly
    /// onto a new synthetic root.
    pub fn move_up(&self, key: &str) -> (r: Tree)
        ensures
            r@.root.name == root_name(),
            r@.root.id == self@.highest_id,
            r@.root.children == move_up_children(self@.root.children, key@),
            r@.highest_id == self@.highest_id,
    {
        proof {
            lemma_tree_model(*self);
            reveal_strlit("root");
            assert("root"@ =~= root_name());
        }
        let ghost cs = self@.root.children;
        let mut new_root = Node::new(String::from_str("root"), self.highest_id);
        let kids = self.children();
        let mut i: usize = 0;
        proof {
            assert(new_root@.children =~= Seq::<NodeModel>::empty());
            assert(cs.subrange(0, 0) =~= Seq::<NodeModel>::empty());
            assert(move_up_children(cs.subrange(0, 0), key@) =~= Seq::<NodeModel>::empty());
        }
        while i < kids.len()
            invariant
                kids@.len() == cs.len(),
                forall|j: int| 0 <= j < cs.len() ==> kids@[j]@ == cs[j],
                i <= cs.len(),
                new_root@.name == root_name(),
                new_root@.id == self@.highest_id,
                new_root@.children == move_up_children(cs.subrange(0, i as int), key@),
            decreases cs.len() - i,
        {
            proof {
                lemma_node_model(kids@[i as int]);
                assert(cs.subrange(0, i + 1).drop_last() =~= cs.subrange(0, i as int));
                assert(cs.subrange(0, i + 1).last() == cs[i as int]);
            }
            if crate::text::contains_str(kids[i].name.as_str(), key) {
                let grand = kids[i].children();
                let ghost before = new_root@.children;
                let mut j: usize = 0;
                while j < grand.len()
                    invariant
                        grand@.len() == cs[i as int].children.len(),
                        forall|k: int|
                            0 <= k < grand@.len() ==> grand@[k]@ == cs[i as int].children[k],
                        j <= grand@.len(),
                        new_root@.name == root_name(),
                        new_root@.id == self@.highest_id,
                        new_root@.children.len() == before.len() + j,
                        forall|k: int| 0 <= k < before.len() ==> new_root@.children[k] == before[k],
                        forall|k: int|
                            0 <= k < j ==> new_root@.children[before.len() + k]
                                == cs[i as int].children[k],
                    decreases grand@.len() - j,
                {
                    new_root.add_child(grand[j].duplicate());
                    j += 1;
                }
                proof {
                    assert(new_root@.children =~= before + cs[i as int].children);
                }
            } else {
                proof {
                    assert(new_root@.children + Seq::<NodeModel>::empty() =~= new_root@.children);
                }
            }
            i += 1;
        }
        proof {
            assert(cs.subrange(0, cs.len() as int) =~= cs);
        }
        let r = Tree { root: new_root, highest_id: self.highest_id };
        proof {
            lemma_tree_model(r);
        }
        r
    }

    /// Bag up many independently parsed trees under one synthetic root,
    /// keeping every node identity unchanged. Callers that need identities
    /// unique across the whole result must go through `merge` instead.
    pub fn from_children(children: &[Tree], highest_id: usize) -> (r: Tree)
        ensures
            r@.root.name == root_name(),
            r@.root.id == highest_id as nat,
            r@.root.children.len() == children@.len(),
            forall|i: int| 0 <= i < children@.len() ==> r@.root.children[i] == children@[i]@.root,
            r@.highest_id == highest_id as nat,
    {
        proof {
            reveal_strlit("root");
            assert("root"@ =~= root_name());
        }
        let mut root = Node::new(String::from_str("root"), highest_id);
        let mut i: usize = 0;
        while i < children.len()
            invariant
                i <= children@.len(),
                root@.name == root_name(),
                root@.id == highest_id as nat,
                root@.children.len() == i,
                forall|j: int| 0 <= j < i ==> root@.children[j] == children@[j]@.root,
            decreases children@.len() - i,
        {
            proof {
                lemma_tree_model(children@[i as int]);
            }
            root.add_child(children[i].root.duplicate());
            i += 1;
        }
        let r = Tree { root, highest_id };
        proof {
            lemma_tree_model(r);
        }
        r
    }

    /// A fresh handle over an independent copy of the same document.
    pub(crate) fn hard_clone(&self) -> (r: Tree)
        ensures
            r@ == self@,
    {
        proof {
            lemma_tree_model(*self);
        }
        let r = Tree { root: self.root.duplicate(), highest_id: self.highest_id };
        proof {
            lemma_tree_model(r);
            assert(r@ =~= self@);
        }
        r
    }
}

/// Mathematical model of a child iterator.
#[verifier::ext_equal]
pub ghost struct IterModel {
    pub stack: Seq<NodeModel>,
    pub highest_id: nat,
}

/// A finite, non-restartable walk over a tree's direct children. Children
/// come off the top of a stack, so the order is the reverse of document
/// order; callers must not read meaning into it beyond coverage.
pub struct TreeIterator {
    pub(crate) stack: Vec<Node>,
    pub(crate) highest_id: usize,
}

impl View for TreeIterator {
    type V = IterModel;

    closed spec fn view(&self) -> IterModel {
        IterModel {
            stack: crate::parser::stack_views(self.stack@),
            highest_id: self.highest_id as nat,
        }
    }
}

pub(crate) broadcast proof fn lemma_iter_model(it: TreeIterator)
    ensures
        (#[trigger] it@).stack == crate::parser::stack_views(it.stack@),
        it@.highest_id == it.highest_id as nat,
{
}

impl TreeIterator {
    /// Hand out the next child as a tree sharing the source's `highest_id`,
    /// until the stack is exhausted.
    pub fn next(&mut self) -> (r: Option<Tree>)
        ensures
            old(self)@.stack.len() == 0 ==> r is None && final(self)@ == old(self)@,
            old(self)@.stack.len() > 0 ==> ({
                &&& r matches Some(t) && t@.root == old(self)@.stack.last() && t@.highest_id == old(
                    self,
                )@.highest_id
                &&& final(self)@.stack == old(self)@.stack.drop_last()
                &&& final(self)@.highest_id == old(self)@.highest_id
            }),
    {
        proof {
            lemma_iter_model(*self);
        }
        match self.stack.pop() {
            None => {
                proof {
                    lemma_iter_model(*self);
                    assert(self@ =~= old(self)@);
                }
                None
            },
            Some(n) => {
                let t = Tree { root: n, highest_id: self.highest_id };
                proof {
                    lemma_iter_model(*self);
                    lemma_tree_model(t);
                    assert(self@.stack =~= old(self)@.stack.drop_last());
                }
                Some(t)
            },
        }
    }
}

impl Tree {
    /// A walk over every direct child.
    pub fn into_iter(self) -> (r: TreeIterator)
        ensures
            r@.stack == self@.root.children,
            r@.highest_id == self@.highest_id,
    {
        proof {
            lemma_tree_model(self);
        }
        let stack = self.root.children();
        let r = TreeIterator { stack, highest_id: self.highest_id };
        proof {
            lemma_iter_model(r);
            assert(r@.stack =~= self@.root.children);
        }
        r
    }

    /// A walk over the direct children whose names satisfy the filter.
    pub fn into_iter_filtered<F: Fn(&String) -> bool>(self, filter: F) -> (r: TreeIterator)
        requires
            callable(filter),
        ensures
            exists|bs: Seq<bool>|
                {
                    &&& bs.len() == self@.root.children.len()
                    &&& forall|i: int|
                        0 <= i < bs.len() ==> decided(
                            filter,
                            self@.root.children[i].name,
                            #[trigger] bs[i],
                        )
                    &&& r@.stack == mask_keep(self@.root.children, bs)
                    &&& r@.highest_id == self@.highest_id
                },
    {
        let ghost cs = self@.root.children;
        let names = self.get_children_names();
        let kids = self.children();
        let mut kept: Vec<Node> = Vec::new();
        let mut bsv: Ghost<Seq<bool>> = Ghost(Seq::empty());
        let mut i: usize = 0;
        proof {
            assert(cs.subrange(0, 0) =~= Seq::<NodeModel>::empty());
        }
        while i < names.len()
            invariant
                callable(filter),
                names@.len() == cs.len(),
                forall|j: int| 0 <= j < names@.len() ==> names@[j]@ == cs[j].name,
                kids@.len() == cs.len(),
                forall|j: int| 0 <= j < kids@.len() ==> kids@[j]@ == cs[j],
                i <= cs.len(),
                bsv@.len() == i,
                forall|j: int| 0 <= j < i ==> decided(filter, cs[j].name, #[trigger] bsv@[j]),
                kept@.len() == mask_keep(cs.subrange(0, i as int), bsv@).len(),
                forall|j: int|
                    0 <= j < kept@.len() ==> kept@[j]@ == mask_keep(
                        cs.subrange(0, i as int),
                        bsv@,
                    )[j],
            decreases cs.len() - i,
        {
            let b = filter(&names[i]);
            proof {
                assert(decided(filter, cs[i as int].name, b));
                assert(cs.subrange(0, i + 1) =~= cs.subrange(0, i as int).push(cs[i as int]));
                lemma_mask_keep_snoc(cs.subrange(0, i as int), bsv@, cs[i as int], b);
            }
            if b {
                kept.push(kids[i].duplicate());
            }
            bsv = Ghost(bsv@.push(b));
            i += 1;
        }
        proof {
            assert(cs.subrange(0, cs.len() as int) =~= cs);
        }
        let r = TreeIterator { stack: kept, highest_id: self.highest_id };
        proof {
            lemma_iter_model(r);
            lemma_tree_model(self);
            assert(r@.stack =~= mask_keep(cs, bsv@));
        }
        r
    }
}

} // verus!
