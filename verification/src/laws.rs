//! Laws of the tree API, stated over the models the function contracts use
//! and proved once for all inputs.

use vstd::prelude::*;

use crate::node::{NodeModel, same_shape, id_occurs, ids_below, lemma_same_shape_reflexive,
    lemma_ids_below_absent};
use crate::tree::{TreeModel, mask_drop, renumber_tops, well_formed, last_match, scope_lookup};

verus! {

/// The children that survive deletion with the pointwise predicate `p`:
/// exactly those whose name does not satisfy it.
pub open spec fn drop_matching(cs: Seq<NodeModel>, p: spec_fn(Seq<char>) -> bool) -> Seq<
    NodeModel,
>
    decreases cs.len(),
{
    if cs.len() == 0 {
        Seq::empty()
    } else {
        (if p(cs[0].name) {
            Seq::<NodeModel>::empty()
        } else {
            seq![cs[0]]
        }) + drop_matching(cs.subrange(1, cs.len() as int), p)
    }
}

proof fn lemma_drop_matching_concat(a: Seq<NodeModel>, b: Seq<NodeModel>, p: spec_fn(
    Seq<char>,
) -> bool)
    ensures
        drop_matching(a + b, p) == drop_matching(a, p) + drop_matching(b, p),
    decreases a.len(),
{
    if a.len() == 0 {
        assert(a + b =~= b);
        assert(drop_matching(a, p) == Seq::<NodeModel>::empty());
        assert(Seq::<NodeModel>::empty() + drop_matching(b, p) =~= drop_matching(b, p));
    } else {
        assert((a + b)[0] == a[0]);
        assert((a + b).subrange(1, (a + b).len() as int) =~= a.subrange(1, a.len() as int) + b);
        lemma_drop_matching_concat(a.subrange(1, a.len() as int), b, p);
        let hd = if p(a[0].name) {
            Seq::<NodeModel>::empty()
        } else {
            seq![a[0]]
        };
        assert(hd + (drop_matching(a.subrange(1, a.len() as int), p) + drop_matching(b, p)) =~= (hd
            + drop_matching(a.subrange(1, a.len() as int), p)) + drop_matching(b, p));
    }
}

/// What a faithful filter decides is what `drop_matching` assumes: when the
/// recorded outcomes `bs` agree pointwise with the predicate `p` on the
/// children's names, the mask-level description in
/// `delete_children_filtered`'s contract is exactly `drop_matching`.
pub proof fn lemma_mask_drop_is_drop_matching(
    cs: Seq<NodeModel>,
    bs: Seq<bool>,
    p: spec_fn(Seq<char>) -> bool,
)
    requires
        bs.len() == cs.len(),
        forall|i: int| 0 <= i < cs.len() ==> bs[i] == p(#[trigger] cs[i].name),
    ensures
        mask_drop(cs, bs) == drop_matching(cs, p),
    decreases cs.len(),
{
    if cs.len() > 0 {
        assert(bs.subrange(1, bs.len() as int).len() == cs.subrange(1, cs.len() as int).len());
        assert(forall|i: int|
            0 <= i < cs.subrange(1, cs.len() as int).len() ==> bs.subrange(1, bs.len() as int)[i]
                == p(#[trigger] cs.subrange(1, cs.len() as int)[i].name));
        lemma_mask_drop_is_drop_matching(
            cs.subrange(1, cs.len() as int),
            bs.subrange(1, bs.len() as int),
            p,
        );
    }
}

/// Deleting children by a filter is idempotent: applying the same filter a
/// second time removes nothing more.
pub proof fn lemma_delete_children_filtered_idempotent(
    cs: Seq<NodeModel>,
    p: spec_fn(Seq<char>) -> bool,
)
    ensures
        drop_matching(drop_matching(cs, p), p) == drop_matching(cs, p),
    decreases cs.len(),
{
    if cs.len() == 0 {
        assert(drop_matching(cs, p) == Seq::<NodeModel>::empty());
    } else {
        let rest = cs.subrange(1, cs.len() as int);
        lemma_delete_children_filtered_idempotent(rest, p);
        if p(cs[0].name) {
            assert(drop_matching(cs, p) =~= drop_matching(rest, p));
        } else {
            assert(drop_matching(cs, p) == seq![cs[0]] + drop_matching(rest, p));
            lemma_drop_matching_concat(seq![cs[0]], drop_matching(rest, p), p);
            assert(seq![cs[0]][0] == cs[0]);
            assert(seq![cs[0]].subrange(1, 1) =~= Seq::<NodeModel>::empty());
            assert(drop_matching(Seq::<NodeModel>::empty(), p) == Seq::<NodeModel>::empty());
            assert(drop_matching(seq![cs[0]], p) =~= seq![cs[0]]);
            assert(drop_matching(drop_matching(cs, p), p) =~= drop_matching(cs, p));
        }
    }
}

/// Merging preserves every child of both trees by name and shape: the
/// result's children are the first tree's children unchanged, followed by
/// the second tree's children with fresh top-level identities, each the
/// same shape as before and colliding with no identity anywhere in the
/// first tree.
pub proof fn lemma_merge_preserves(a: TreeModel, b: TreeModel)
    requires
        well_formed(a),
    ensures
        forall|i: int|
            0 <= i < b.root.children.len() ==> same_shape(
                #[trigger] renumber_tops(b.root.children, a.highest_id)[i],
                b.root.children[i],
            ),
        forall|i: int|
            0 <= i < b.root.children.len() ==> !id_occurs(
                a.root,
                #[trigger] renumber_tops(b.root.children, a.highest_id)[i].id,
            ),
{
    let spliced = renumber_tops(b.root.children, a.highest_id);
    assert forall|i: int| 0 <= i < b.root.children.len() implies same_shape(
        #[trigger] spliced[i],
        b.root.children[i],
    ) by {
        let c = b.root.children[i];
        assert forall|j: int| 0 <= j < c.children.len() implies same_shape(
            #[trigger] c.children[j],
            c.children[j],
        ) by {
            lemma_same_shape_reflexive(c.children[j]);
        }
    }
    assert forall|i: int| 0 <= i < b.root.children.len() implies !id_occurs(
        a.root,
        #[trigger] spliced[i].id,
    ) by {
        assert(spliced[i].id == a.highest_id + i);
        lemma_ids_below_absent(a.root, a.highest_id, (a.highest_id + i) as nat);
    }
}

/// Looking up one segment and then another is the same as resolving the
/// two-segment path in one call.
pub proof fn lemma_get_composition(n: NodeModel, x: Seq<char>, y: Seq<char>)
    ensures
        scope_lookup(n, seq![x, y]) == match last_match(n.children, x) {
            None => None,
            Some(m) => last_match(m.children, y),
        },
{
    let p = seq![x, y];
    assert(p[0] == x);
    assert(p.subrange(1, 2) =~= seq![y]);
    match last_match(n.children, x) {
        None => {
        },
        Some(m) => {
            assert(scope_lookup(n, p) == scope_lookup(m, seq![y]));
            assert(seq![y][0] == y);
            assert(seq![y].subrange(1, 1) =~= Seq::<Seq<char>>::empty());
            match last_match(m.children, y) {
                None => {
                },
                Some(c) => {
                    assert(scope_lookup(c, seq![y].subrange(1, 1)) == Some(c));
                },
            }
        },
    }
}

} // verus!
