//! The tree vertex: a named node with an integer identity and an ordered
//! list of owned children.

use vstd::prelude::*;

verus! {

/// Mathematical model of a node: its name as a character sequence, its
/// identity, and the models of its children in document order.
#[verifier::ext_equal]
pub ghost struct NodeModel {
    pub name: Seq<char>,
    pub id: nat,
    pub children: Seq<NodeModel>,
}

/// A named vertex of a document tree. Every node owns its children; the
/// `unique_id` serves only as identity, never as an ordering key.
pub struct Node {
    pub(crate) name: String,
    pub(crate) unique_id: usize,
    pub(crate) children: Vec<Node>,
}

/// The model of a node: names become character sequences, ids become
/// naturals, children are modelled pointwise.
pub closed spec fn node_model(n: Node) -> NodeModel
    decreases n,
{
    NodeModel {
        name: n.name@,
        id: n.unique_id as nat,
        children: Seq::new(
            n.children@.len(),
            |i: int|
                if 0 <= i < n.children@.len() {
                    node_model(n.children@[i])
                } else {
                    arbitrary()
                },
        ),
    }
}

impl View for Node {
    type V = NodeModel;

    open spec fn view(&self) -> NodeModel {
        node_model(*self)
    }
}

/// How a node's model is built from its parts, for use by the rest of the
/// crate (the fields themselves stay private to this module).
pub(crate) broadcast proof fn lemma_node_model(n: Node)
    ensures
        (#[trigger] node_model(n)).name == n.name@,
        node_model(n).id == n.unique_id as nat,
        node_model(n).children.len() == n.children@.len(),
        forall|i: int|
            0 <= i < n.children@.len() ==> node_model(n).children[i] == node_model(
                n.children@[i],
            ),
{
}

/// Two nodes have the same shape when they carry the same names in the same
/// arrangement; identities are ignored.
pub open spec fn same_shape(a: NodeModel, b: NodeModel) -> bool
    decreases a,
{
    &&& a.name == b.name
    &&& a.children.len() == b.children.len()
    &&& forall|i: int|
        0 <= i < a.children.len() ==> same_shape(#[trigger] a.children[i], b.children[i])
}

pub proof fn lemma_same_shape_reflexive(a: NodeModel)
    ensures
        same_shape(a, a),
    decreases a,
{
    assert forall|i: int| 0 <= i < a.children.len() implies same_shape(
        #[trigger] a.children[i],
        a.children[i],
    ) by {
        lemma_same_shape_reflexive(a.children[i]);
    }
}

/// Every identity in the node's subtree lies strictly below `k`.
pub open spec fn ids_below(n: NodeModel, k: nat) -> bool
    decreases n,
{
    &&& n.id < k
    &&& forall|i: int| 0 <= i < n.children.len() ==> ids_below(#[trigger] n.children[i], k)
}

/// Whether the identity `id` occurs anywhere in the node's subtree.
pub open spec fn id_occurs(n: NodeModel, id: nat) -> bool
    decreases n,
{
    ||| n.id == id
    ||| exists|i: int| 0 <= i < n.children.len() && id_occurs(#[trigger] n.children[i], id)
}

pub proof fn lemma_ids_below_absent(n: NodeModel, k: nat, id: nat)
    requires
        ids_below(n, k),
        id >= k,
    ensures
        !id_occurs(n, id),
    decreases n,
{
    assert forall|i: int| 0 <= i < n.children.len() implies !id_occurs(
        #[trigger] n.children[i],
        id,
    ) by {
        lemma_ids_below_absent(n.children[i], k, id);
    }
}

/// The same node with its top-level identity replaced.
pub open spec fn with_id(n: NodeModel, id: nat) -> NodeModel {
    NodeModel { name: n.name, id, children: n.children }
}

impl Node {
    pub fn new(name: String, unique_id: usize) -> (r: Node)
        ensures
            r@.name == name@,
            r@.id == unique_id as nat,
            r@.children.len() == 0,
    {
        Node { name, unique_id, children: Vec::new() }
    }

    pub fn name(&self) -> (r: String)
        ensures
            r@ == self@.name,
    {
        proof {
            lemma_node_model(*self);
        }
        self.name.clone()
    }

    pub fn add_child(&mut self, child: Node)
        ensures
            final(self)@.name == old(self)@.name,
            final(self)@.id == old(self)@.id,
            final(self)@.children == old(self)@.children.push(child@),
    {
        proof {
            lemma_node_model(*self);
        }
        self.children.push(child);
        proof {
            lemma_node_model(*self);
            assert(self@.children =~= old(self)@.children.push(child@));
        }
    }

    pub fn set_children(&mut self, children: Vec<Node>)
        ensures
            final(self)@.name == old(self)@.name,
            final(self)@.id == old(self)@.id,
            final(self)@.children.len() == children@.len(),
            forall|i: int|
                0 <= i < children@.len() ==> final(self)@.children[i] == children@[i]@,
    {
        proof {
            lemma_node_model(*self);
        }
        self.children = children;
        proof {
            lemma_node_model(*self);
        }
    }

    pub fn set_unique_id(&mut self, unique_id: usize)
        ensures
            final(self)@ == with_id(old(self)@, unique_id as nat),
    {
        proof {
            lemma_node_model(*self);
        }
        self.unique_id = unique_id;
        proof {
            lemma_node_model(*self);
            assert(self@ =~= with_id(old(self)@, unique_id as nat));
        }
    }

    /// An independent deep copy: same names, same identities, no sharing.
    pub fn duplicate(&self) -> (r: Node)
        ensures
            r@ == self@,
        decreases *self,
    {
        proof {
            lemma_node_model(*self);
        }
        let mut kids: Vec<Node> = Vec::new();
        let mut i: usize = 0;
        while i < self.children.len()
            invariant
                i <= self.children.len(),
                kids@.len() == i,
                forall|j: int| 0 <= j < i ==> kids@[j]@ == self.children@[j]@,
            decreases self.children.len() - i,
        {
            proof {
                assert(decreases_to!(*self => self.children@[i as int]));
            }
            kids.push(self.children[i].duplicate());
            i += 1;
        }
        let r = Node { name: self.name.clone(), unique_id: self.unique_id, children: kids };
        proof {
            lemma_node_model(r);
            assert(r@.children =~= self@.children);
            assert(r@ =~= self@);
        }
        r
    }

    /// Independent deep copies of the children, in document order.
    pub fn children(&self) -> (r: Vec<Node>)
        ensures
            r@.len() == self@.children.len(),
            forall|i: int| 0 <= i < r@.len() ==> r@[i]@ == self@.children[i],
    {
        proof {
            lemma_node_model(*self);
        }
        let mut kids: Vec<Node> = Vec::new();
        let mut i: usize = 0;
        while i < self.children.len()
            invariant
                i <= self.children.len(),
                kids@.len() == i,
                forall|j: int| 0 <= j < i ==> kids@[j]@ == self.children@[j]@,
            decreases self.children.len() - i,
        {
            kids.push(self.children[i].duplicate());
            i += 1;
        }
        kids
    }
}

} // verus!
