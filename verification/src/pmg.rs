//! Production method groups: which production methods a group offers.
//! The per-method cost arithmetic itself works on floating-point game data
//! and lives with the callers of this library.

use vstd::prelude::*;
use vstd::string::*;

use crate::tree::{Tree, TreeError, last_match};

verus! {

/// The aspects of a production method callers ask about.
pub enum Attribute {
    Name,
    Input,
    Output,
    Construction,
    Labor,
    EfficiencyPerWorker,
    NetOutput,
    EfficiencyPerConstruction,
}

/// Mathematical model of a production method group.
#[verifier::ext_equal]
pub ghost struct PmgModel {
    pub name: Seq<char>,
    pub pms: Seq<Seq<char>>,
}

/// A production method group: its name and the production methods it
/// offers, in document order.
pub struct PMG {
    pub(crate) name: String,
    pub(crate) pms: Vec<String>,
}

impl View for PMG {
    type V = PmgModel;

    closed spec fn view(&self) -> PmgModel {
        PmgModel { name: self.name@, pms: Seq::new(self.pms@.len(), |i: int| self.pms@[i]@) }
    }
}

pub(crate) broadcast proof fn lemma_pmg_model(p: PMG)
    ensures
        (#[trigger] p@).name == p.name@,
        p@.pms.len() == p.pms@.len(),
        forall|i: int| 0 <= i < p.pms@.len() ==> p@.pms[i] == p.pms@[i]@,
{
}

/// The name sequence of the scope listing a group's methods.
pub open spec fn production_methods_tag() -> Seq<char> {
    seq![
        'p',
        'r',
        'o',
        'd',
        'u',
        'c',
        't',
        'i',
        'o',
        'n',
        '_',
        'm',
        'e',
        't',
        'h',
        'o',
        'd',
        's',
    ]
}

impl PMG {
    /// Read a group from its parsed tree: the root's name (byte-order mark
    /// stripped) and the children of its `production_methods` scope.
    /// Fails with `ScopeNotFound` exactly when that scope is absent.
    pub fn from_tree(tree: &Tree) -> (r: Result<PMG, TreeError>)
        ensures
            match last_match(tree@.root.children, production_methods_tag()) {
                Some(m) => r matches Ok(p) && p@.name == crate::tree::strip_bom(tree@.root.name)
                    && p@.pms.len() == m.children.len() && (forall|i: int|
                    0 <= i < m.children.len() ==> p@.pms[i] == (#[trigger] m.children[i]).name),
                None => r == Err::<PMG, TreeError>(TreeError::ScopeNotFound),
            },
    {
        proof {
            reveal_strlit("production_methods");
            assert("production_methods"@ =~= production_methods_tag());
        }
        let name = tree.get_name();
        match tree.get("production_methods") {
            Ok(scope) => {
                let pms = scope.get_children_names();
                let r = PMG { name, pms };
                proof {
                    lemma_pmg_model(r);
                }
                Ok(r)
            },
            Err(_) => Err(TreeError::ScopeNotFound),
        }
    }

    pub fn name(&self) -> (r: &String)
        ensures
            r@ == self@.name,
    {
        proof {
            lemma_pmg_model(*self);
        }
        &self.name
    }

    /// The group's production method names, in document order.
    pub fn get_pms(&self) -> (r: Vec<String>)
        ensures
            r@.len() == self@.pms.len(),
            forall|i: int| 0 <= i < r@.len() ==> r@[i]@ == self@.pms[i],
    {
        proof {
            lemma_pmg_model(*self);
        }
        let mut out: Vec<String> = Vec::new();
        let mut i: usize = 0;
        while i < self.pms.len()
            invariant
                i <= self.pms@.len(),
                out@.len() == i,
                forall|j: int| 0 <= j < i ==> out@[j]@ == self.pms@[j]@,
            decreases self.pms@.len() - i,
        {
            out.push(self.pms[i].clone());
            i += 1;
        }
        out
    }
}

} // verus!
