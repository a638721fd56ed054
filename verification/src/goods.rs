//! Goods and their base costs, read from a parsed goods tree.

use vstd::prelude::*;
use vstd::string::*;

use crate::keyed::{keyed_get, keyed_set, unique_keys, lemma_keyed_get_at, lemma_keyed_get_absent,
    lemma_keyed_set_at, lemma_keyed_set_append, lemma_keyed_set_unique, lemma_keyed_get_after_set};
use crate::node::NodeModel;
use crate::text::{str_eq, parse_i32, int_of_str};
use crate::tree::{Tree, last_match};

verus! {

/// The base cost of every named good; an unknown good costs nothing.
pub struct Goods {
    pub(crate) cost: Vec<(String, i32)>,
}

impl Goods {
    /// The `good name -> cost` entries, as character sequences.
    pub closed spec fn costs(&self) -> Seq<(Seq<char>, i32)> {
        Seq::new(self.cost@.len(), |i: int| (self.cost@[i].0@, self.cost@[i].1))
    }

    pub open spec fn well_formed(&self) -> bool {
        unique_keys(self.costs())
    }

    pub fn new() -> (r: Goods)
        ensures
            r.costs().len() == 0,
            r.well_formed(),
    {
        let r = Goods { cost: Vec::new() };
        proof {
            assert(r.costs() =~= Seq::<(Seq<char>, i32)>::empty());
        }
        r
    }

    /// The recorded cost of the good, or zero when it has none.
    pub fn get_cost(&self, key: &str) -> (r: i32)
        ensures
            r == match keyed_get(self.costs(), key@) {
                Some(v) => v,
                None => 0,
            },
    {
        let ghost cs = self.costs();
        let mut i: usize = 0;
        while i < self.cost.len()
            invariant
                cs == self.costs(),
                cs.len() == self.cost@.len(),
                forall|t: int|
                    0 <= t < cs.len() ==> cs[t] == (self.cost@[t].0@, self.cost@[t].1),
                i <= cs.len(),
                forall|t: int| 0 <= t < i ==> (#[trigger] cs[t]).0 != key@,
            decreases cs.len() - i,
        {
            if str_eq(self.cost[i].0.as_str(), key) {
                proof {
                    lemma_keyed_get_at(cs, key@, i as int);
                }
                return self.cost[i].1;
            }
            i += 1;
        }
        proof {
            lemma_keyed_get_absent(cs, key@);
        }
        0
    }

    /// Record the cost of a good, replacing any earlier entry.
    fn set_cost(&mut self, key: &str, value: i32)
        requires
            old(self).well_formed(),
        ensures
            final(self).well_formed(),
            final(self).costs() == keyed_set(old(self).costs(), key@, value),
    {
        let ghost cs = self.costs();
        let mut i: usize = 0;
        while i < self.cost.len()
            invariant
                cs == self.costs(),
                cs == old(self).costs(),
                unique_keys(cs),
                cs.len() == self.cost@.len(),
                forall|t: int|
                    0 <= t < cs.len() ==> cs[t] == (self.cost@[t].0@, self.cost@[t].1),
                i <= cs.len(),
                forall|t: int| 0 <= t < i ==> (#[trigger] cs[t]).0 != key@,
            decreases cs.len() - i,
        {
            if str_eq(self.cost[i].0.as_str(), key) {
                proof {
                    lemma_keyed_set_at(cs, key@, value, i as int);
                    lemma_keyed_set_unique(cs, key@, value);
                }
                self.cost[i] = (String::from_str(key), value);
                proof {
                    assert(self.costs() =~= cs.update(i as int, (key@, value)));
                }
                return ;
            }
            i += 1;
        }
        proof {
            lemma_keyed_set_append(cs, key@, value);
            lemma_keyed_set_unique(cs, key@, value);
        }
        self.cost.push((String::from_str(key), value));
        proof {
            assert(self.costs() =~= cs.push((key@, value)));
        }
    }
}

/// The cost a goods tree records for the named good: the value of the
/// `cost` pair inside the last child carrying that name.
pub open spec fn goods_entry(root: NodeModel, name: Seq<char>) -> Option<int> {
    match last_match(root.children, name) {
        None => None,
        Some(c) => match last_match(c.children, seq!['c', 'o', 's', 't']) {
            None => None,
            Some(cc) => if cc.children.len() == 1 {
                int_of_str(cc.children[0].name)
            } else {
                None
            },
        },
    }
}

/// The named good's cost entry resolves and fits the machine integer.
pub open spec fn goods_entry_ok(root: NodeModel, name: Seq<char>) -> bool {
    goods_entry(root, name) matches Some(v) && i32::MIN <= v <= i32::MAX
}

impl Goods {
    /// Read every good's cost from a parsed goods tree. Succeeds exactly
    /// when every child has a readable, in-range `cost` value; then every
    /// good in the tree reads back its recorded cost.
    pub fn from_tree(tree: Tree) -> (r: Result<Goods, String>)
        ensures
            (r is Ok) == (forall|i: int|
                0 <= i < tree@.root.children.len() ==> goods_entry_ok(
                    tree@.root,
                    (#[trigger] tree@.root.children[i]).name,
                )),
            r matches Ok(g) ==> g.well_formed() && (forall|i: int|
                0 <= i < tree@.root.children.len() ==> keyed_get(
                    g.costs(),
                    (#[trigger] tree@.root.children[i]).name,
                ) == Some(goods_entry(tree@.root, tree@.root.children[i].name)->0 as i32)),
    {
        proof {
            reveal_strlit("cost");
            assert("cost"@ =~= seq!['c', 'o', 's', 't']);
        }
        let ghost root = tree@.root;
        let names = tree.get_children_names();
        let mut goods = Goods::new();
        let mut i: usize = 0;
        while i < names.len()
            invariant
                root == tree@.root,
                names@.len() == root.children.len(),
                forall|t: int| 0 <= t < names@.len() ==> names@[t]@ == root.children[t].name,
                "cost"@ == seq!['c', 'o', 's', 't'],
                i <= names@.len(),
                goods.well_formed(),
                forall|t: int|
                    0 <= t < i ==> goods_entry_ok(root, (#[trigger] root.children[t]).name),
                forall|t: int|
                    0 <= t < i ==> keyed_get(goods.costs(), (#[trigger] root.children[t]).name)
                        == Some(goods_entry(root, root.children[t].name)->0 as i32),
            decreases names@.len() - i,
        {
            let child = match tree.get(names[i].as_str()) {
                Ok(c) => c,
                Err(_) => {
                    proof {
                        assert(!goods_entry_ok(root, root.children[i as int].name));
                    }
                    return Err(String::from_str("Scope not found"));
                },
            };
            let cost_node = match child.get("cost") {
                Ok(c) => c,
                Err(_) => {
                    proof {
                        assert(!goods_entry_ok(root, root.children[i as int].name));
                    }
                    return Err(String::from_str("Scope not found"));
                },
            };
            let raw = match cost_node.value() {
                Ok(v) => v,
                Err(_) => {
                    proof {
                        assert(!goods_entry_ok(root, root.children[i as int].name));
                    }
                    return Err(String::from_str("Node is not a leaf"));
                },
            };
            let value = match parse_i32(raw.as_str()) {
                Some(v) => v,
                None => {
                    proof {
                        assert(!goods_entry_ok(root, root.children[i as int].name));
                    }
                    return Err(String::from_str("Error parsing cost"));
                },
            };
            let ghost pre = goods.costs();
            goods.set_cost(names[i].as_str(), value);
            proof {
                assert(goods_entry(root, root.children[i as int].name) == Some(value as int));
                assert forall|t: int| 0 <= t <= i implies keyed_get(
                    goods.costs(),
                    (#[trigger] root.children[t]).name,
                ) == Some(goods_entry(root, root.children[t].name)->0 as i32) by {
                    lemma_keyed_get_after_set(
                        pre,
                        root.children[i as int].name,
                        value,
                        root.children[t].name,
                    );
                }
            }
            i += 1;
        }
        Ok(goods)
    }
}

} // verus!
