//! A country's law assignments: which law each law group is set to, how it
//! was set, and which scripted effects the country carries.

use vstd::prelude::*;
use vstd::string::*;

use crate::keyed::{keyed_get, keyed_set, unique_keys, lemma_keyed_get_at, lemma_keyed_get_absent,
    lemma_keyed_set_at, lemma_keyed_set_append, lemma_keyed_set_unique};
use crate::law::{LawGroup, ScriptedEffectLawsTemplate, lemma_law_group_model};
use crate::text::str_eq;

verus! {

/// How a country's law came to be set.
#[derive(Debug, Clone, PartialEq)]
pub enum LawSetBy {
    /// Taken from the law group's default.
    Default,
    /// Applied by the named scripted effect.
    ScriptedEffect(String),
    /// Chosen directly.
    Manual,
}

/// The model of a law's origin, with names as character sequences.
pub ghost enum LawOrigin {
    ByDefault,
    ByEffect(Seq<char>),
    ByHand,
}

pub open spec fn origin_of(s: LawSetBy) -> LawOrigin {
    match s {
        LawSetBy::Default => LawOrigin::ByDefault,
        LawSetBy::ScriptedEffect(e) => LawOrigin::ByEffect(e@),
        LawSetBy::Manual => LawOrigin::ByHand,
    }
}

/// Mathematical model of a country: its name, the `group -> (origin, law)`
/// assignments, and the scripted effects it carries.
#[verifier::ext_equal]
pub ghost struct CountryModel {
    pub name: Seq<char>,
    pub laws: Seq<(Seq<char>, (LawOrigin, Seq<char>))>,
    pub effects: Seq<Seq<char>>,
}

pub struct Country {
    pub(crate) name: String,
    pub(crate) laws: Vec<(String, (LawSetBy, String))>,
    pub(crate) scripted_effects: Vec<String>,
}

impl View for Country {
    type V = CountryModel;

    closed spec fn view(&self) -> CountryModel {
        CountryModel {
            name: self.name@,
            laws: Seq::new(
                self.laws@.len(),
                |i: int| (self.laws@[i].0@, (origin_of(self.laws@[i].1.0), self.laws@[i].1.1@)),
            ),
            effects: Seq::new(self.scripted_effects@.len(), |i: int| self.scripted_effects@[i]@),
        }
    }
}

pub(crate) broadcast proof fn lemma_country_model(c: Country)
    ensures
        (#[trigger] c@).name == c.name@,
        c@.laws.len() == c.laws@.len(),
        forall|i: int|
            0 <= i < c.laws@.len() ==> c@.laws[i] == (
                c.laws@[i].0@,
                (origin_of(c.laws@[i].1.0), c.laws@[i].1.1@),
            ),
        c@.effects.len() == c.scripted_effects@.len(),
        forall|i: int|
            0 <= i < c.scripted_effects@.len() ==> c@.effects[i] == c.scripted_effects@[i]@,
{
}

/// One assignment per law group.
pub open spec fn country_wf(c: CountryModel) -> bool {
    unique_keys(c.laws)
}

/// The effect name is already recorded.
pub open spec fn has_effect(effects: Seq<Seq<char>>, e: Seq<char>) -> bool {
    exists|i: int| 0 <= i < effects.len() && #[trigger] effects[i] == e
}

/// The effects after recording `e` once: unchanged when present already.
pub open spec fn record_effect(effects: Seq<Seq<char>>, e: Seq<char>) -> Seq<Seq<char>> {
    if has_effect(effects, e) {
        effects
    } else {
        effects.push(e)
    }
}

/// The effect, if any, that the origin records.
pub open spec fn effect_of(o: LawOrigin) -> Option<Seq<char>> {
    match o {
        LawOrigin::ByEffect(e) => Some(e),
        _ => None,
    }
}

impl Country {
    /// A country carrying each law group's default law.
    pub fn from_default(name: &str, default_laws: &Vec<(String, LawGroup)>) -> (r: Country)
        requires
            forall|i: int|
                0 <= i < default_laws@.len() ==> (#[trigger] default_laws@[i]).1@.laws.len() > 0,
            forall|i: int, j: int|
                0 <= i < j < default_laws@.len() ==> (#[trigger] default_laws@[i]).0@ != (
                #[trigger] default_laws@[j]).0@,
        ensures
            r@.name == name@,
            r@.effects.len() == 0,
            r@.laws.len() == default_laws@.len(),
            forall|i: int|
                0 <= i < default_laws@.len() ==> r@.laws[i] == (
                    (#[trigger] default_laws@[i]).0@,
                    (LawOrigin::ByDefault, default_laws@[i].1@.laws.last().name),
                ),
            country_wf(r@),
    {
        let mut laws: Vec<(String, (LawSetBy, String))> = Vec::new();
        let mut i: usize = 0;
        while i < default_laws.len()
            invariant
                forall|t: int|
                    0 <= t < default_laws@.len() ==> (#[trigger] default_laws@[t]).1@.laws.len()
                        > 0,
                i <= default_laws@.len(),
                laws@.len() == i,
                forall|t: int|
                    0 <= t < i ==> laws@[t].0@ == (#[trigger] default_laws@[t]).0@
                        && origin_of(laws@[t].1.0) == LawOrigin::ByDefault && laws@[t].1.1@
                        == default_laws@[t].1@.laws.last().name,
            decreases default_laws@.len() - i,
        {
            let group = &default_laws[i].0;
            let lg = &default_laws[i].1;
            let default_name = String::from_str(lg.get_default_law().get_name());
            laws.push((group.clone(), (LawSetBy::Default, default_name)));
            i += 1;
        }
        let r = Country { name: String::from_str(name), laws, scripted_effects: Vec::new() };
        proof {
            lemma_country_model(r);
            assert forall|i2: int, j2: int| 0 <= i2 < j2 < r@.laws.len() implies (
            #[trigger] r@.laws[i2]).0 != (#[trigger] r@.laws[j2]).0 by {
                assert(r@.laws[i2].0 == default_laws@[i2].0@);
                assert(r@.laws[j2].0 == default_laws@[j2].0@);
            }
        }
        r
    }

    /// Set the law of one group, recording how it was set; a law set by a
    /// scripted effect also records that effect once.
    pub fn set_law(&mut self, law: &str, group: &str, set_by: LawSetBy)
        requires
            country_wf(old(self)@),
        ensures
            country_wf(final(self)@),
            final(self)@.name == old(self)@.name,
            final(self)@.laws == keyed_set(old(self)@.laws, group@, (origin_of(set_by), law@)),
            final(self)@.effects == match effect_of(origin_of(set_by)) {
                Some(e) => record_effect(old(self)@.effects, e),
                None => old(self)@.effects,
            },
    {
        proof {
            lemma_country_model(*self);
        }
        if let LawSetBy::ScriptedEffect(se) = &set_by {
            let ghost effs = self@.effects;
            let mut found = false;
            let mut i: usize = 0;
            while i < self.scripted_effects.len()
                invariant
                    effs == self@.effects,
                    effs.len() == self.scripted_effects@.len(),
                    forall|t: int|
                        0 <= t < effs.len() ==> effs[t] == self.scripted_effects@[t]@,
                    i <= effs.len(),
                    found ==> has_effect(effs, se@),
                    !found ==> forall|t: int| 0 <= t < i ==> effs[t] != se@,
                decreases effs.len() - i,
            {
                if str_eq(self.scripted_effects[i].as_str(), se.as_str()) {
                    proof {
                        assert(effs[i as int] == se@);
                    }
                    found = true;
                }
                i += 1;
            }
            if !found {
                proof {
                    assert(!has_effect(effs, se@));
                }
                self.scripted_effects.push(se.clone());
                proof {
                    lemma_country_model(*self);
                    assert(self@.effects =~= effs.push(se@));
                }
            }
        }
        let ghost laws0 = self@.laws;
        proof {
            lemma_country_model(*self);
            assert(laws0 =~= old(self)@.laws);
            assert(self@.effects == (match effect_of(origin_of(set_by)) {
                Some(e) => record_effect(old(self)@.effects, e),
                None => old(self)@.effects,
            })) by {
                if let LawSetBy::ScriptedEffect(se) = set_by {
                    if has_effect(old(self)@.effects, se@) {
                        assert(self@.effects =~= old(self)@.effects);
                    }
                } else {
                    assert(self@.effects =~= old(self)@.effects);
                }
            }
        }
        let mut i: usize = 0;
        while i < self.laws.len()
            invariant
                laws0 == self@.laws,
                laws0 == old(self)@.laws,
                country_wf(self@),
                self@.name == old(self)@.name,
                self@.effects == match effect_of(origin_of(set_by)) {
                    Some(e) => record_effect(old(self)@.effects, e),
                    None => old(self)@.effects,
                },
                laws0.len() == self.laws@.len(),
                forall|t: int|
                    0 <= t < laws0.len() ==> laws0[t] == (
                        self.laws@[t].0@,
                        (origin_of(self.laws@[t].1.0), self.laws@[t].1.1@),
                    ),
                i <= laws0.len(),
                forall|t: int| 0 <= t < i ==> (#[trigger] laws0[t]).0 != group@,
            decreases laws0.len() - i,
        {
            if str_eq(self.laws[i].0.as_str(), group) {
                proof {
                    lemma_keyed_set_at(laws0, group@, (origin_of(set_by), law@), i as int);
                    lemma_keyed_set_unique(laws0, group@, (origin_of(set_by), law@));
                }
                let entry = (String::from_str(group), (set_by, String::from_str(law)));
                self.laws[i] = entry;
                proof {
                    lemma_country_model(*self);
                    assert(self@.laws =~= laws0.update(
                        i as int,
                        (group@, (origin_of(entry.1.0), law@)),
                    ));
                }
                return ;
            }
            i += 1;
        }
        proof {
            lemma_keyed_set_append(laws0, group@, (origin_of(set_by), law@));
            lemma_keyed_set_unique(laws0, group@, (origin_of(set_by), law@));
        }
        self.laws.push((String::from_str(group), (set_by, String::from_str(law))));
        proof {
            lemma_country_model(*self);
            assert(self@.laws =~= laws0.push((group@, (origin_of(set_by), law@))));
        }
    }

    /// The law the given group is set to, if any.
    pub fn get_law(&self, group: &str) -> (r: Option<String>)
        ensures
            match keyed_get(self@.laws, group@) {
                Some(ol) => r matches Some(s) && s@ == ol.1,
                None => r is None,
            },
    {
        proof {
            lemma_country_model(*self);
        }
        let ghost laws0 = self@.laws;
        let mut i: usize = 0;
        while i < self.laws.len()
            invariant
                laws0 == self@.laws,
                laws0.len() == self.laws@.len(),
                forall|t: int|
                    0 <= t < laws0.len() ==> laws0[t] == (
                        self.laws@[t].0@,
                        (origin_of(self.laws@[t].1.0), self.laws@[t].1.1@),
                    ),
                i <= laws0.len(),
                forall|t: int| 0 <= t < i ==> (#[trigger] laws0[t]).0 != group@,
            decreases laws0.len() - i,
        {
            if str_eq(self.laws[i].0.as_str(), group) {
                proof {
                    lemma_keyed_get_at(laws0, group@, i as int);
                }
                return Some(self.laws[i].1.1.clone());
            }
            i += 1;
        }
        proof {
            lemma_keyed_get_absent(laws0, group@);
        }
        None
    }

    /// Set a law by hand.
    pub fn set_law_manual(&mut self, law: &str, group: &str)
        requires
            country_wf(old(self)@),
        ensures
            country_wf(final(self)@),
            final(self)@.name == old(self)@.name,
            final(self)@.laws == keyed_set(old(self)@.laws, group@, (LawOrigin::ByHand, law@)),
            final(self)@.effects == old(self)@.effects,
    {
        self.set_law(law, group, LawSetBy::Manual);
    }

    /// Apply a scripted effect's template: every entry sets its group's
    /// law, all recorded as set by the named effect.
    pub fn apply_template(&mut self, template: &ScriptedEffectLawsTemplate, name: &str) -> (r:
        Result<(), String>)
        requires
            country_wf(old(self)@),
        ensures
            r is Ok,
            country_wf(final(self)@),
            final(self)@.name == old(self)@.name,
            final(self)@.laws == apply_entries(old(self)@.laws, template.entries(), name@),
            final(self)@.effects == if template.entries().len() == 0 {
                old(self)@.effects
            } else {
                record_effect(old(self)@.effects, name@)
            },
    {
        let ghost es = template.entries();
        let entries = template.get_laws();
        let mut i: usize = 0;
        proof {
            assert(es.subrange(0, 0) =~= Seq::<(Seq<char>, Seq<char>)>::empty());
        }
        while i < entries.len()
            invariant
                es == template.entries(),
                entries@.len() == es.len(),
                forall|t: int|
                    0 <= t < es.len() ==> (entries@[t].0@, entries@[t].1@) == #[trigger] es[t],
                i <= es.len(),
                country_wf(self@),
                self@.name == old(self)@.name,
                self@.laws == apply_entries(old(self)@.laws, es.subrange(0, i as int), name@),
                self@.effects == if i == 0 {
                    old(self)@.effects
                } else {
                    record_effect(old(self)@.effects, name@)
                },
            decreases es.len() - i,
        {
            proof {
                assert(es.subrange(0, i + 1).drop_last() =~= es.subrange(0, i as int));
                assert(es.subrange(0, i + 1).last() == es[i as int]);
            }
            proof {
                assert(has_effect(record_effect(old(self)@.effects, name@), name@)) by {
                    let re = record_effect(old(self)@.effects, name@);
                    if !has_effect(old(self)@.effects, name@) {
                        assert(re == old(self)@.effects.push(name@));
                        assert(re[re.len() - 1] == name@);
                    }
                }
            }
            let effect = LawSetBy::ScriptedEffect(String::from_str(name));
            self.set_law(entries[i].0.as_str(), entries[i].1.as_str(), effect);
            i += 1;
        }
        proof {
            assert(es.subrange(0, es.len() as int) =~= es);
        }
        Ok(())
    }
}

/// The qualified name a country entry carries in a country file.
pub open spec fn country_key(name: Seq<char>) -> Seq<char> {
    seq!['c', ':'] + name
}

impl Country {
    /// Regenerate this country's entry for its country file: find the file
    /// holding the entry, delete every law-activation pair and every
    /// scripted-effect marker, re-add the current manual laws and effects,
    /// and wrap the result for a surgical single-entry rewrite. Yields
    /// nothing when no file holds the country.
    pub fn to_tree(&self, files: &Vec<(String, crate::tree::Tree)>, data: &crate::data::Data) -> (r:
        Option<crate::data::WriteAction>)
        ensures
            match r {
                Some(w) => {
                    &&& w@.marker == Some(country_key(self@.name) + seq![' ', '='])
                    &&& w@.content.root.name == seq!['C', 'O', 'U', 'N', 'T', 'R', 'I', 'E', 'S']
                    &&& w@.content.root.children.len() == 1
                    &&& exists|i: int|
                        0 <= i < files@.len() && w@.file == (#[trigger] files@[i]).0@
                },
                None => forall|i: int, j: int|
                    0 <= i < files@.len() && 0 <= j < (#[trigger] files@[i]).1@.root.children.len()
                        ==> (#[trigger] files@[i].1@.root.children[j]).name != country_key(
                        self@.name,
                    ),
            },
    {
        proof {
            lemma_country_model(*self);
        }
        let mut key = String::from_str("c:");
        key.append(self.name.as_str());
        proof {
            reveal_strlit("c:");
            assert("c:"@ =~= seq!['c', ':']);
            assert(key@ == country_key(self@.name));
        }
        let finder = |s: &String| -> (b: bool)
            ensures
                b == (s@ == key@),
            { str_eq(s.as_str(), key.as_str()) };
        let mut matched: Option<(usize, crate::tree::Tree)> = None;
        let mut i: usize = 0;
        while i < files.len() && matched.is_none()
            invariant
                key@ == country_key(self@.name),
                forall|s: &String, b: bool| call_ensures(finder, (s,), b) ==> b == (s@ == key@),
                crate::tree::callable(finder),
                i <= files@.len(),
                match matched {
                    Some((f, _)) => f < files@.len(),
                    None => forall|i2: int, j: int|
                        0 <= i2 < i && 0 <= j < (#[trigger] files@[i2]).1@.root.children.len()
                            ==> (#[trigger] files@[i2].1@.root.children[j]).name != key@,
                },
            decreases files@.len() - i,
        {
            match files[i].1.search_child(finder) {
                Some(t) => {
                    matched = Some((i, t));
                },
                None => {
                },
            }
            i += 1;
        }
        let (file_idx, entry) = match matched {
            Some(p) => p,
            None => {
                return None;
            },
        };
        let stale = |s: &String| -> (b: bool)
            ensures
                b == (crate::text::has_prefix(s@, crate::consts::ACTIVATE_LAW_TAG@)
                    || data.has_effect_named(s@)),
            {
                crate::text::starts_with(s.as_str(), crate::consts::ACTIVATE_LAW_TAG)
                    || data.get_scripted_effect(s.as_str()).is_some()
            };
        let mut res = entry.delete_children_filtered(stale);
        let mut li: usize = 0;
        while li < self.laws.len()
            decreases self.laws@.len() - li,
        {
            if let LawSetBy::Manual = &self.laws[li].1.0 {
                let mut law_value = String::from_str("law:");
                law_value.append(self.laws[li].1.1.as_str());
                res.add_child(
                    crate::tree::Tree::from_key_value(
                        crate::consts::ACTIVATE_LAW_TAG,
                        law_value.as_str(),
                        0,
                    ),
                );
            }
            li += 1;
        }
        let mut se: usize = 0;
        while se < self.scripted_effects.len()
            decreases self.scripted_effects@.len() - se,
        {
            if data.get_scripted_effect(self.scripted_effects[se].as_str()).is_some() {
                res.add_child(
                    crate::tree::Tree::from_key_value(
                        self.scripted_effects[se].as_str(),
                        "yes",
                        0,
                    ),
                );
            }
            se += 1;
        }
        let mut result_tree = crate::tree::Tree::with_named_root(crate::consts::COUNTRIES_TAG);
        result_tree.add_child_tree(res);
        let mut marker = key;
        marker.append(" =");
        proof {
            reveal_strlit(" =");
            assert(" ="@ =~= seq![' ', '=']);
            reveal_strlit("COUNTRIES");
            assert("COUNTRIES"@ =~= seq!['C', 'O', 'U', 'N', 'T', 'R', 'I', 'E', 'S']);
        }
        let action = crate::data::WriteAction::new(
            files[file_idx].0.as_str(),
            result_tree,
            crate::data::IsCountry::Yes(marker),
        );
        Some(action)
    }
}

/// The law assignments after applying a template's entries in order:
/// each `(law, group)` entry sets `group` to `law`, recorded as set by
/// the effect `name`.
pub open spec fn apply_entries(
    laws: Seq<(Seq<char>, (LawOrigin, Seq<char>))>,
    entries: Seq<(Seq<char>, Seq<char>)>,
    name: Seq<char>,
) -> Seq<(Seq<char>, (LawOrigin, Seq<char>))>
    decreases entries.len(),
{
    if entries.len() == 0 {
        laws
    } else {
        keyed_set(
            apply_entries(laws, entries.drop_last(), name),
            entries.last().1,
            (LawOrigin::ByEffect(name), entries.last().0),
        )
    }
}

} // verus!
