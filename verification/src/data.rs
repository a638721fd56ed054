//! The assembled domain data — countries, laws, law groups and scripted
//! effect templates — and the write actions that carry a regenerated
//! document back toward disk.

use vstd::prelude::*;
use vstd::string::*;

use crate::country::{Country, CountryModel, country_wf, apply_entries, record_effect,
    lemma_country_model, has_effect};
use crate::keyed::{keyed_get, keyed_set, unique_keys, lemma_keyed_get_at, lemma_keyed_get_absent,
    lemma_keyed_set_at, lemma_keyed_set_append, lemma_keyed_set_unique};
use crate::law::{Law, LawModel, LawGroup, LawGroupModel, ScriptedEffectLawsTemplate,
    lemma_law_model, lemma_law_group_model};
use crate::serialize::ser_node;
use crate::text::{escape_eq, replace_seq, str_eq};
use crate::tree::{Tree, TreeModel, lemma_tree_model};

verus! {

/// Whether a write action replaces a single country entry inside a larger
/// document; if so, it carries the marker line of that entry.
pub enum IsCountry {
    Yes(String),
    No,
}

/// Mathematical model of a write action: the target file, the marker of a
/// single-entry rewrite if there is one, and the document to write.
#[verifier::ext_equal]
pub ghost struct WriteActionModel {
    pub file: Seq<char>,
    pub marker: Option<Seq<char>>,
    pub content: TreeModel,
}

/// A pending file write: which file, what tree, and — for surgical
/// single-entry rewrites — the marker whose `=` must be escaped so a later
/// textual find-and-replace matches only the intended entry.
pub struct WriteAction {
    pub(crate) file: String,
    pub(crate) is_country: IsCountry,
    pub(crate) content: Tree,
}

impl View for WriteAction {
    type V = WriteActionModel;

    closed spec fn view(&self) -> WriteActionModel {
        WriteActionModel {
            file: self.file@,
            marker: match self.is_country {
                IsCountry::Yes(m) => Some(m@),
                IsCountry::No => None,
            },
            content: self.content@,
        }
    }
}

impl WriteAction {
    pub fn new(file: &str, content: Tree, is_country: IsCountry) -> (r: WriteAction)
        ensures
            r@.file == file@,
            r@.content == content@,
            r@.marker == match is_country {
                IsCountry::Yes(m) => Some(m@),
                IsCountry::No => None,
            },
    {
        WriteAction { file: String::from_str(file), is_country, content }
    }

    pub fn get_file(&self) -> (r: &str)
        ensures
            r@ == self@.file,
    {
        self.file.as_str()
    }

    pub fn get_content(&self) -> (r: &Tree)
        ensures
            r@ == self@.content,
    {
        &self.content
    }

    /// The exact text to write: the serialized tree, with every occurrence
    /// of the marker escaped (`=` becomes `?=`) for a single-entry rewrite.
    pub fn serialized_content(&self) -> (r: String)
        ensures
            r@ == match self@.marker {
                Some(m) => replace_seq(ser_node(self@.content.root, 0), m, escape_eq(m)),
                None => ser_node(self@.content.root, 0),
            },
    {
        let ser = self.content.serialize();
        match &self.is_country {
            IsCountry::Yes(marker) => {
                let escaped = crate::text::escape_eq_str(marker.as_str());
                crate::text::replace_all(ser.as_str(), marker.as_str(), escaped.as_str())
            },
            IsCountry::No => ser,
        }
    }
}

/// Everything one scan produces, each collection keyed by name.
pub struct Data {
    pub(crate) countries: Vec<(String, Country)>,
    pub(crate) laws: Vec<(String, Law)>,
    pub(crate) law_groups: Vec<(String, LawGroup)>,
    pub(crate) scripted_effects: Vec<(String, ScriptedEffectLawsTemplate)>,
}

impl Data {
    pub closed spec fn countries_view(&self) -> Seq<(Seq<char>, CountryModel)> {
        Seq::new(self.countries@.len(), |i: int| (self.countries@[i].0@, self.countries@[i].1@))
    }

    pub closed spec fn laws_view(&self) -> Seq<(Seq<char>, LawModel)> {
        Seq::new(self.laws@.len(), |i: int| (self.laws@[i].0@, self.laws@[i].1@))
    }

    pub closed spec fn law_groups_view(&self) -> Seq<(Seq<char>, LawGroupModel)> {
        Seq::new(self.law_groups@.len(), |i: int| (self.law_groups@[i].0@, self.law_groups@[i].1@))
    }

    pub closed spec fn effects_view(&self) -> Seq<(Seq<char>, Seq<(Seq<char>, Seq<char>)>)> {
        Seq::new(
            self.scripted_effects@.len(),
            |i: int| (self.scripted_effects@[i].0@, self.scripted_effects@[i].1.entries()),
        )
    }

    /// A scripted effect of this name is stored.
    pub open spec fn has_effect_named(&self, s: Seq<char>) -> bool {
        keyed_get(self.effects_view(), s) is Some
    }

    /// Names are unique in every collection and every country is well
    /// formed.
    pub open spec fn well_formed(&self) -> bool {
        &&& unique_keys(self.countries_view())
        &&& unique_keys(self.laws_view())
        &&& unique_keys(self.law_groups_view())
        &&& unique_keys(self.effects_view())
        &&& forall|i: int|
            0 <= i < self.countries_view().len() ==> country_wf(
                (#[trigger] self.countries_view()[i]).1,
            )
    }

    pub fn new(
        countries: Vec<(String, Country)>,
        laws: Vec<(String, Law)>,
        law_groups: Vec<(String, LawGroup)>,
        scripted_effects: Vec<(String, ScriptedEffectLawsTemplate)>,
    ) -> (r: Data)
        ensures
            r.countries_view().len() == countries@.len(),
            forall|i: int|
                0 <= i < countries@.len() ==> #[trigger] r.countries_view()[i] == (
                    countries@[i].0@,
                    countries@[i].1@,
                ),
            r.laws_view().len() == laws@.len(),
            forall|i: int|
                0 <= i < laws@.len() ==> #[trigger] r.laws_view()[i] == (
                    laws@[i].0@,
                    laws@[i].1@,
                ),
            r.law_groups_view().len() == law_groups@.len(),
            forall|i: int|
                0 <= i < law_groups@.len() ==> #[trigger] r.law_groups_view()[i] == (
                    law_groups@[i].0@,
                    law_groups@[i].1@,
                ),
            r.effects_view().len() == scripted_effects@.len(),
            forall|i: int|
                0 <= i < scripted_effects@.len() ==> #[trigger] r.effects_view()[i] == (
                    scripted_effects@[i].0@,
                    scripted_effects@[i].1.entries(),
                ),
    {
        Data { countries, laws, law_groups, scripted_effects }
    }

    pub fn get_country(&self, name: &str) -> (r: Option<&Country>)
        ensures
            match keyed_get(self.countries_view(), name@) {
                Some(m) => r matches Some(c) && c@ == m,
                None => r is None,
            },
    {
        let ghost cs = self.countries_view();
        let mut i: usize = 0;
        while i < self.countries.len()
            invariant
                cs == self.countries_view(),
                cs.len() == self.countries@.len(),
                forall|t: int|
                    0 <= t < cs.len() ==> cs[t] == (
                        self.countries@[t].0@,
                        self.countries@[t].1@,
                    ),
                i <= cs.len(),
                forall|t: int| 0 <= t < i ==> (#[trigger] cs[t]).0 != name@,
            decreases cs.len() - i,
        {
            if str_eq(self.countries[i].0.as_str(), name) {
                proof {
                    lemma_keyed_get_at(cs, name@, i as int);
                }
                return Some(&self.countries[i].1);
            }
            i += 1;
        }
        proof {
            lemma_keyed_get_absent(cs, name@);
        }
        None
    }

    pub fn get_law(&self, name: &str) -> (r: Option<&Law>)
        ensures
            match keyed_get(self.laws_view(), name@) {
                Some(m) => r matches Some(l) && l@ == m,
                None => r is None,
            },
    {
        let ghost cs = self.laws_view();
        let mut i: usize = 0;
        while i < self.laws.len()
            invariant
                cs == self.laws_view(),
                cs.len() == self.laws@.len(),
                forall|t: int|
                    0 <= t < cs.len() ==> cs[t] == (self.laws@[t].0@, self.laws@[t].1@),
                i <= cs.len(),
                forall|t: int| 0 <= t < i ==> (#[trigger] cs[t]).0 != name@,
            decreases cs.len() - i,
        {
            if str_eq(self.laws[i].0.as_str(), name) {
                proof {
                    lemma_keyed_get_at(cs, name@, i as int);
                }
                return Some(&self.laws[i].1);
            }
            i += 1;
        }
        proof {
            lemma_keyed_get_absent(cs, name@);
        }
        None
    }

    pub fn get_law_group(&self, name: &str) -> (r: Option<&LawGroup>)
        ensures
            match keyed_get(self.law_groups_view(), name@) {
                Some(m) => r matches Some(g) && g@ == m,
                None => r is None,
            },
    {
        let ghost cs = self.law_groups_view();
        let mut i: usize = 0;
        while i < self.law_groups.len()
            invariant
                cs == self.law_groups_view(),
                cs.len() == self.law_groups@.len(),
                forall|t: int|
                    0 <= t < cs.len() ==> cs[t] == (
                        self.law_groups@[t].0@,
                        self.law_groups@[t].1@,
                    ),
                i <= cs.len(),
                forall|t: int| 0 <= t < i ==> (#[trigger] cs[t]).0 != name@,
            decreases cs.len() - i,
        {
            if str_eq(self.law_groups[i].0.as_str(), name) {
                proof {
                    lemma_keyed_get_at(cs, name@, i as int);
                }
                return Some(&self.law_groups[i].1);
            }
            i += 1;
        }
        proof {
            lemma_keyed_get_absent(cs, name@);
        }
        None
    }

    pub fn get_scripted_effect(&self, name: &str) -> (r: Option<&ScriptedEffectLawsTemplate>)
        ensures
            match keyed_get(self.effects_view(), name@) {
                Some(m) => r matches Some(t) && t.entries() == m,
                None => r is None,
            },
    {
        let ghost cs = self.effects_view();
        let mut i: usize = 0;
        while i < self.scripted_effects.len()
            invariant
                cs == self.effects_view(),
                cs.len() == self.scripted_effects@.len(),
                forall|t: int|
                    0 <= t < cs.len() ==> cs[t] == (
                        self.scripted_effects@[t].0@,
                        self.scripted_effects@[t].1.entries(),
                    ),
                i <= cs.len(),
                forall|t: int| 0 <= t < i ==> (#[trigger] cs[t]).0 != name@,
            decreases cs.len() - i,
        {
            if str_eq(self.scripted_effects[i].0.as_str(), name) {
                proof {
                    lemma_keyed_get_at(cs, name@, i as int);
                }
                return Some(&self.scripted_effects[i].1);
            }
            i += 1;
        }
        proof {
            lemma_keyed_get_absent(cs, name@);
        }
        None
    }

    /// A fresh, empty template.
    pub fn new_template(&self) -> (r: ScriptedEffectLawsTemplate)
        ensures
            r.entries().len() == 0,
            r.well_formed(),
    {
        ScriptedEffectLawsTemplate::new()
    }

    /// Store a template under a name, replacing any template already there.
    pub fn insert_or_overwrite_template(&mut self, name: &str, template: ScriptedEffectLawsTemplate)
        requires
            unique_keys(old(self).effects_view()),
        ensures
            unique_keys(final(self).effects_view()),
            final(self).effects_view() == keyed_set(
                old(self).effects_view(),
                name@,
                template.entries(),
            ),
            final(self).countries_view() == old(self).countries_view(),
            final(self).laws_view() == old(self).laws_view(),
            final(self).law_groups_view() == old(self).law_groups_view(),
    {
        let ghost cs = self.effects_view();
        let ghost es = template.entries();
        let mut i: usize = 0;
        while i < self.scripted_effects.len()
            invariant
                cs == self.effects_view(),
                cs == old(self).effects_view(),
                self.countries_view() == old(self).countries_view(),
                self.laws_view() == old(self).laws_view(),
                self.law_groups_view() == old(self).law_groups_view(),
                unique_keys(cs),
                es == template.entries(),
                cs.len() == self.scripted_effects@.len(),
                forall|t: int|
                    0 <= t < cs.len() ==> cs[t] == (
                        self.scripted_effects@[t].0@,
                        self.scripted_effects@[t].1.entries(),
                    ),
                i <= cs.len(),
                forall|t: int| 0 <= t < i ==> (#[trigger] cs[t]).0 != name@,
            decreases cs.len() - i,
        {
            if str_eq(self.scripted_effects[i].0.as_str(), name) {
                proof {
                    lemma_keyed_set_at(cs, name@, es, i as int);
                    lemma_keyed_set_unique(cs, name@, es);
                }
                self.scripted_effects[i] = (String::from_str(name), template);
                proof {
                    assert(self.effects_view() =~= cs.update(i as int, (name@, es)));
                    assert(self.countries_view() =~= old(self).countries_view());
                    assert(self.laws_view() =~= old(self).laws_view());
                    assert(self.law_groups_view() =~= old(self).law_groups_view());
                }
                return ;
            }
            i += 1;
        }
        proof {
            lemma_keyed_set_append(cs, name@, es);
            lemma_keyed_set_unique(cs, name@, es);
        }
        self.scripted_effects.push((String::from_str(name), template));
        proof {
            assert(self.effects_view() =~= cs.push((name@, es)));
            assert(self.countries_view() =~= old(self).countries_view());
            assert(self.laws_view() =~= old(self).laws_view());
            assert(self.law_groups_view() =~= old(self).law_groups_view());
        }
    }

    /// Apply a stored template to a country: every entry of the template
    /// sets that country's law for the entry's group, recorded as set by
    /// the template.
    pub fn apply_template_to_country(&mut self, template_name: &str, country_name: &str) -> (r:
        Result<(), String>)
        requires
            old(self).well_formed(),
        ensures
            final(self).well_formed(),
            final(self).laws_view() == old(self).laws_view(),
            final(self).law_groups_view() == old(self).law_groups_view(),
            final(self).effects_view() == old(self).effects_view(),
            ({
                let ev0 = keyed_get(old(self).effects_view(), template_name@);
                let cm0 = keyed_get(old(self).countries_view(), country_name@);
                let newc = final(self).countries_view();
                let oldc = old(self).countries_view();
                &&& (ev0 is None ==> r is Err && newc == oldc)
                &&& ((ev0 is Some && cm0 is None) ==> r is Err && newc == oldc)
                &&& ((ev0 is Some && cm0 is Some) ==> (r is Ok && newc == keyed_set(
                    oldc,
                    country_name@,
                    (CountryModel {
                        name: cm0->0.name,
                        laws: apply_entries(cm0->0.laws, ev0->0, template_name@),
                        effects: if ev0->0.len() == 0 {
                            cm0->0.effects
                        } else {
                            record_effect(cm0->0.effects, template_name@)
                        },
                    }),
                )))
            }),
    {
        let ghost cv = self.countries_view();
        let ghost ev = self.effects_view();
        let template = match self.get_scripted_effect(template_name) {
            Some(t) => t.duplicate(),
            None => {
                return Err(String::from_str("Template not found"));
            },
        };
        let ghost es = template.entries();
        let mut i: usize = 0;
        let n = self.countries.len();
        while i < n
            invariant
                cv == self.countries_view(),
                cv == old(self).countries_view(),
                self.countries@ == old(self).countries@,
                ev == self.effects_view(),
                ev == old(self).effects_view(),
                self.laws_view() == old(self).laws_view(),
                self.law_groups_view() == old(self).law_groups_view(),
                old(self).well_formed(),
                self.well_formed(),
                n == self.countries@.len(),
                es == template.entries(),
                keyed_get(ev, template_name@) == Some(es),
                cv.len() == self.countries@.len(),
                forall|t: int|
                    0 <= t < cv.len() ==> cv[t] == (
                        self.countries@[t].0@,
                        self.countries@[t].1@,
                    ),
                i <= cv.len(),
                forall|t: int| 0 <= t < i ==> (#[trigger] cv[t]).0 != country_name@,
            decreases cv.len() - i,
        {
            if str_eq(self.countries[i].0.as_str(), country_name) {
                proof {
                    lemma_keyed_get_at(cv, country_name@, i as int);
                }
                let mut entry = self.countries.remove(i);
                proof {
                    assert(entry.1@ == cv[i as int].1);
                    assert(country_wf(entry.1@));
                }
                let res = entry.1.apply_template(&template, template_name);
                let ghost newcm = entry.1@;
                self.countries.insert(i, entry);
                proof {
                    lemma_keyed_set_at(cv, country_name@, newcm, i as int);
                    lemma_keyed_set_unique(cv, country_name@, newcm);
                    assert(self.countries@ =~= old(self).countries@.update(
                        i as int,
                        self.countries@[i as int],
                    ));
                    assert(self.countries_view() =~= cv.update(
                        i as int,
                        (country_name@, newcm),
                    ));
                    assert(self.effects_view() =~= ev);
                    assert(self.laws_view() =~= old(self).laws_view());
                    assert(self.law_groups_view() =~= old(self).law_groups_view());
                    assert forall|t: int|
                        0 <= t < self.countries_view().len() implies country_wf(
                        (#[trigger] self.countries_view()[t]).1,
                    ) by {
                        if t != i {
                            assert(self.countries_view()[t] == cv[t]);
                        }
                    }
                }
                match res {
                    Ok(_) => {
                        return Ok(());
                    },
                    Err(e) => {
                        return Err(e);
                    },
                }
            }
            i += 1;
        }
        proof {
            lemma_keyed_get_absent(cv, country_name@);
        }
        Err(String::from_str("Country not found"))
    }

    /// Regenerate the named country's file entry, as `Country::to_tree`
    /// does; yields nothing when the country is unknown or in no file.
    pub fn country_to_tree(
        &self,
        files: &Vec<(String, Tree)>,
        country: &str,
    ) -> (r: Option<WriteAction>)
        ensures
            ({
                let cm0 = keyed_get(self.countries_view(), country@);
                &&& (cm0 is None ==> r is None)
                &&& (cm0 is Some ==> match r {
                    Some(w) => {
                        &&& w@.marker == Some(
                            crate::country::country_key(cm0->0.name) + seq![' ', '='],
                        )
                        &&& w@.content.root.name == seq![
                            'C',
                            'O',
                            'U',
                            'N',
                            'T',
                            'R',
                            'I',
                            'E',
                            'S',
                        ]
                        &&& w@.content.root.children.len() == 1
                        &&& exists|i: int|
                            0 <= i < files@.len() && w@.file == (#[trigger] files@[i]).0@
                    },
                    None => forall|i: int, j: int|
                        0 <= i < files@.len() && 0 <= j < (
                        #[trigger] files@[i]).1@.root.children.len() ==> (
                        #[trigger] files@[i].1@.root.children[j]).name
                            != crate::country::country_key(cm0->0.name),
                })
            }),
    {
        match self.get_country(country) {
            Some(c) => c.to_tree(files, self),
            None => None,
        }
    }

    /// One tree holding every stored template: a block per template, with
    /// one law-activation pair per entry, written to the template file
    /// under the scanner's mod folder.
    pub fn generate_templates_tree(&self, scanner: &crate::scanner::Scanner) -> (r: WriteAction)
        ensures
            r@.marker is None,
            r@.file == scanner@.mod_path + crate::consts::TEMPLATE_FILE@,
            r@.content.root.name == crate::parser::root_name(),
            r@.content.root.children.len() == self.effects_view().len(),
            forall|i: int|
                0 <= i < self.effects_view().len() ==> {
                    let child = #[trigger] r@.content.root.children[i];
                    &&& child.name == self.effects_view()[i].0
                    &&& child.children.len() == self.effects_view()[i].1.len()
                    &&& forall|j: int|
                        0 <= j < child.children.len() ==> {
                            let pair = #[trigger] child.children[j];
                            &&& pair.name == crate::consts::ACTIVATE_LAW_TAG@
                            &&& pair.children.len() == 1
                            &&& pair.children[0].name == seq!['l', 'a', 'w', ':']
                                + self.effects_view()[i].1[j].0
                        }
                },
    {
        proof {
            reveal_strlit("law:");
            assert("law:"@ =~= seq!['l', 'a', 'w', ':']);
        }
        let ghost ev = self.effects_view();
        let mut tree = Tree::default();
        let mut highest_id: usize = 98;
        let mut ei: usize = 0;
        while ei < self.scripted_effects.len()
            invariant
                "law:"@ == seq!['l', 'a', 'w', ':'],
                ev == self.effects_view(),
                ev.len() == self.scripted_effects@.len(),
                forall|t: int|
                    0 <= t < ev.len() ==> ev[t] == (
                        self.scripted_effects@[t].0@,
                        self.scripted_effects@[t].1.entries(),
                    ),
                ei <= ev.len(),
                highest_id <= usize::MAX - 1,
                tree@.root.name == crate::parser::root_name(),
                tree@.root.children.len() == ei,
                forall|t: int|
                    0 <= t < ei ==> {
                        let child = #[trigger] tree@.root.children[t];
                        &&& child.name == ev[t].0
                        &&& child.children.len() == ev[t].1.len()
                        &&& forall|j: int|
                            0 <= j < child.children.len() ==> {
                                let pair = #[trigger] child.children[j];
                                &&& pair.name == crate::consts::ACTIVATE_LAW_TAG@
                                &&& pair.children.len() == 1
                                &&& pair.children[0].name == seq!['l', 'a', 'w', ':']
                                    + ev[t].1[j].0
                            }
                    },
            decreases ev.len() - ei,
        {
            let name = &self.scripted_effects[ei].0;
            let template = &self.scripted_effects[ei].1;
            let mut template_tree = Tree::with_named_root(name.as_str());
            let entries = template.get_laws();
            let mut j: usize = 0;
            while j < entries.len()
                invariant
                    "law:"@ == seq!['l', 'a', 'w', ':'],
                    entries@.len() == self.scripted_effects@[ei as int].1.entries().len(),
                    forall|t: int|
                        0 <= t < entries@.len() ==> (entries@[t].0@, entries@[t].1@)
                            == #[trigger] self.scripted_effects@[ei as int].1.entries()[t],
                    ei < self.scripted_effects@.len(),
                    j <= entries@.len(),
                    highest_id <= usize::MAX - 1,
                    template_tree@.root.name == self.scripted_effects@[ei as int].0@,
                    template_tree@.root.children.len() == j,
                    forall|t: int|
                        0 <= t < j ==> {
                            let pair = #[trigger] template_tree@.root.children[t];
                            &&& pair.name == crate::consts::ACTIVATE_LAW_TAG@
                            &&& pair.children.len() == 1
                            &&& pair.children[0].name == seq!['l', 'a', 'w', ':']
                                + self.scripted_effects@[ei as int].1.entries()[t].0
                        },
                decreases entries@.len() - j,
            {
                let mut law_value = String::from_str("law:");
                law_value.append(entries[j].0.as_str());
                template_tree.add_child(
                    Tree::from_key_value(
                        crate::consts::ACTIVATE_LAW_TAG,
                        law_value.as_str(),
                        highest_id,
                    ),
                );
                if highest_id < usize::MAX - 1 {
                    highest_id = highest_id + 1;
                }
                j += 1;
            }
            tree.add_child_tree(template_tree);
            ei += 1;
        }
        let mut path = scanner.get_mod_path();
        path.append(crate::consts::TEMPLATE_FILE);
        WriteAction::new(path.as_str(), tree, IsCountry::No)
    }
}

} // verus!
