//! Laws, law groups, and the law templates that scripted effects apply.

use vstd::prelude::*;
use vstd::string::*;

use crate::keyed::{keyed_set, unique_keys, lemma_keyed_set_at, lemma_keyed_set_append,
    lemma_keyed_set_unique};
use crate::text::str_eq;

verus! {

/// Mathematical model of a law.
#[verifier::ext_equal]
pub ghost struct LawModel {
    pub name: Seq<char>,
    pub group: Seq<char>,
    pub texture_path: Seq<char>,
}

/// One law: its name, the group it belongs to, and the path of its icon
/// texture.
pub struct Law {
    pub(crate) name: String,
    pub(crate) group: String,
    pub(crate) texture_path: String,
}

impl View for Law {
    type V = LawModel;

    closed spec fn view(&self) -> LawModel {
        LawModel { name: self.name@, group: self.group@, texture_path: self.texture_path@ }
    }
}

pub(crate) broadcast proof fn lemma_law_model(l: Law)
    ensures
        (#[trigger] l@).name == l.name@,
        l@.group == l.group@,
        l@.texture_path == l.texture_path@,
{
}

impl Law {
    pub fn new(name: &str, group: &str, texture_path: &str) -> (r: Law)
        ensures
            r@.name == name@,
            r@.group == group@,
            r@.texture_path == texture_path@,
    {
        Law {
            name: String::from_str(name),
            group: String::from_str(group),
            texture_path: String::from_str(texture_path),
        }
    }

    pub fn get_name(&self) -> (r: &str)
        ensures
            r@ == self@.name,
    {
        self.name.as_str()
    }

    pub fn get_group(&self) -> (r: &str)
        ensures
            r@ == self@.group,
    {
        self.group.as_str()
    }

    pub fn get_texture_path(&self) -> (r: &str)
        ensures
            r@ == self@.texture_path,
    {
        self.texture_path.as_str()
    }

    /// An independent copy carrying the same data.
    pub fn duplicate(&self) -> (r: Law)
        ensures
            r@ == self@,
    {
        let r = Law {
            name: self.name.clone(),
            group: self.group.clone(),
            texture_path: self.texture_path.clone(),
        };
        proof {
            assert(r@ =~= self@);
        }
        r
    }
}

/// Mathematical model of a law group.
#[verifier::ext_equal]
pub ghost struct LawGroupModel {
    pub name: Seq<char>,
    pub category: Seq<char>,
    pub laws: Seq<LawModel>,
}

/// A named group of laws under one category; the last law pushed is the
/// group's default.
pub struct LawGroup {
    pub(crate) name: String,
    pub(crate) category: String,
    pub(crate) laws: Vec<Law>,
}

impl View for LawGroup {
    type V = LawGroupModel;

    closed spec fn view(&self) -> LawGroupModel {
        LawGroupModel {
            name: self.name@,
            category: self.category@,
            laws: Seq::new(self.laws@.len(), |i: int| self.laws@[i]@),
        }
    }
}

pub(crate) broadcast proof fn lemma_law_group_model(g: LawGroup)
    ensures
        (#[trigger] g@).name == g.name@,
        g@.category == g.category@,
        g@.laws.len() == g.laws@.len(),
        forall|i: int| 0 <= i < g.laws@.len() ==> g@.laws[i] == g.laws@[i]@,
{
}

impl LawGroup {
    pub fn new(name: &str, category: &str) -> (r: LawGroup)
        ensures
            r@.name == name@,
            r@.category == category@,
            r@.laws.len() == 0,
    {
        let r = LawGroup {
            name: String::from_str(name),
            category: String::from_str(category),
            laws: Vec::new(),
        };
        proof {
            lemma_law_group_model(r);
        }
        r
    }

    pub fn get_name(&self) -> (r: &str)
        ensures
            r@ == self@.name,
    {
        proof {
            lemma_law_group_model(*self);
        }
        self.name.as_str()
    }

    pub fn get_category(&self) -> (r: &str)
        ensures
            r@ == self@.category,
    {
        proof {
            lemma_law_group_model(*self);
        }
        self.category.as_str()
    }

    pub fn push(&mut self, law: Law)
        ensures
            final(self)@.name == old(self)@.name,
            final(self)@.category == old(self)@.category,
            final(self)@.laws == old(self)@.laws.push(law@),
    {
        proof {
            lemma_law_group_model(*self);
        }
        self.laws.push(law);
        proof {
            lemma_law_group_model(*self);
            assert(self@.laws =~= old(self)@.laws.push(law@));
        }
    }

    /// The laws of the group, in insertion order.
    pub fn get_laws(&self) -> (r: &Vec<Law>)
        ensures
            r@.len() == self@.laws.len(),
            forall|i: int| 0 <= i < r@.len() ==> r@[i]@ == self@.laws[i],
    {
        proof {
            lemma_law_group_model(*self);
        }
        &self.laws
    }

    /// The group's default law: the one pushed last.
    pub fn get_default_law(&self) -> (r: &Law)
        requires
            self@.laws.len() > 0,
        ensures
            r@ == self@.laws.last(),
    {
        proof {
            lemma_law_group_model(*self);
        }
        &self.laws[self.laws.len() - 1]
    }
}

/// A scripted effect's law template: which law each law group is set to
/// when the effect is applied. One entry per law name.
pub struct ScriptedEffectLawsTemplate {
    pub(crate) laws: Vec<(String, String)>,
}

impl ScriptedEffectLawsTemplate {
    /// The template's `law name -> group` entries, as character sequences.
    pub closed spec fn entries(&self) -> Seq<(Seq<char>, Seq<char>)> {
        Seq::new(self.laws@.len(), |i: int| (self.laws@[i].0@, self.laws@[i].1@))
    }

    /// One entry per law name.
    pub open spec fn well_formed(&self) -> bool {
        unique_keys(self.entries())
    }

    pub fn new() -> (r: ScriptedEffectLawsTemplate)
        ensures
            r.entries().len() == 0,
            r.well_formed(),
    {
        let r = ScriptedEffectLawsTemplate { laws: Vec::new() };
        proof {
            assert(r.entries() =~= Seq::<(Seq<char>, Seq<char>)>::empty());
        }
        r
    }

    /// Record that applying this template activates `law` in its group,
    /// replacing any earlier entry for the same law name.
    pub fn push(&mut self, law: Law)
        requires
            old(self).well_formed(),
        ensures
            final(self).well_formed(),
            final(self).entries() == keyed_set(old(self).entries(), law@.name, law@.group),
    {
        proof {
            crate::law::lemma_law_model(law);
        }
        let ghost es = self.entries();
        let mut i: usize = 0;
        while i < self.laws.len()
            invariant
                es == self.entries(),
                es == old(self).entries(),
                unique_keys(es),
                es.len() == self.laws@.len(),
                forall|j: int|
                    0 <= j < self.laws@.len() ==> es[j] == (self.laws@[j].0@, self.laws@[j].1@),
                i <= es.len(),
                forall|j: int| 0 <= j < i ==> (#[trigger] es[j]).0 != law@.name,
            decreases es.len() - i,
        {
            if str_eq(self.laws[i].0.as_str(), law.name.as_str()) {
                proof {
                    lemma_keyed_set_at(es, law@.name, law@.group, i as int);
                    lemma_keyed_set_unique(es, law@.name, law@.group);
                }
                self.laws[i] = (law.name, law.group);
                proof {
                    assert(self.entries() =~= es.update(i as int, (law@.name, law@.group)));
                }
                return ;
            }
            i += 1;
        }
        proof {
            lemma_keyed_set_append(es, law@.name, law@.group);
            lemma_keyed_set_unique(es, law@.name, law@.group);
        }
        self.laws.push((law.name, law.group));
        proof {
            assert(self.entries() =~= es.push((law@.name, law@.group)));
        }
    }

    /// The entries as stored: `(law name, group)` pairs.
    pub fn get_laws(&self) -> (r: &Vec<(String, String)>)
        ensures
            r@.len() == self.entries().len(),
            forall|i: int|
                0 <= i < r@.len() ==> (r@[i].0@, r@[i].1@) == #[trigger] self.entries()[i],
    {
        &self.laws
    }

    /// An independent copy carrying the same entries.
    pub fn duplicate(&self) -> (r: ScriptedEffectLawsTemplate)
        ensures
            r.entries() == self.entries(),
    {
        let mut laws: Vec<(String, String)> = Vec::new();
        let mut i: usize = 0;
        while i < self.laws.len()
            invariant
                i <= self.laws@.len(),
                laws@.len() == i,
                forall|j: int|
                    0 <= j < i ==> laws@[j].0@ == self.laws@[j].0@ && laws@[j].1@
                        == self.laws@[j].1@,
            decreases self.laws@.len() - i,
        {
            laws.push((self.laws[i].0.clone(), self.laws[i].1.clone()));
            i += 1;
        }
        let r = ScriptedEffectLawsTemplate { laws };
        proof {
            assert(r.entries() =~= self.entries());
        }
        r
    }
}

} // verus!
