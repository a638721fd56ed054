//! The scan configuration: where the mod and the game keep their files,
//! and the per-file normalization of country documents. Reading the files
//! themselves is the caller's concern; the scanner works on already-parsed
//! trees.

use vstd::prelude::*;
use vstd::string::*;

use crate::consts::{ACTIVATE_LAW_TAG, COUNTRIES_TAG, LAW_GROUP_CATEGORY_TAG, LAW_GROUP_TAG};
use crate::country::{Country, country_wf, LawSetBy};
use crate::data::Data;
use crate::keyed::{vec_keyed, unique_keys, keyed_vec_set, keyed_vec_find,
    lemma_keyed_set_elements};
use crate::law::{Law, LawGroup, ScriptedEffectLawsTemplate};
use crate::node::NodeModel;
use crate::parser::root_name;
use crate::text::{after_last_colon, has_substring, starts_with, str_eq};
use crate::tree::{Tree, callable, decided, move_up_children, last_match, strip_bom};

verus! {

/// Mathematical model of a scanner: the two folder paths.
#[verifier::ext_equal]
pub ghost struct ScannerModel {
    pub mod_path: Seq<char>,
    pub game_path: Seq<char>,
}

/// The two folders a scan works over: the mod's files take precedence
/// over the game's.
pub struct Scanner {
    pub(crate) mod_path: String,
    pub(crate) game_path: String,
}

impl View for Scanner {
    type V = ScannerModel;

    closed spec fn view(&self) -> ScannerModel {
        ScannerModel { mod_path: self.mod_path@, game_path: self.game_path@ }
    }
}

impl Scanner {
    pub fn new(mod_path: String, game_path: String) -> (r: Scanner)
        ensures
            r@.mod_path == mod_path@,
            r@.game_path == game_path@,
    {
        Scanner { mod_path, game_path }
    }

    pub fn get_mod_path(&self) -> (r: String)
        ensures
            r@ == self@.mod_path,
    {
        self.mod_path.clone()
    }

    pub fn get_game_path(&self) -> (r: String)
        ensures
            r@ == self@.game_path,
    {
        self.game_path.clone()
    }

    /// Normalize each parsed country file: unwrap its outer `COUNTRIES`
    /// container so the country entries stand directly under the root,
    /// keeping each file's identifier with its tree.
    pub fn countries_per_file(&self, files: Vec<(String, Tree)>) -> (r: Vec<(String, Tree)>)
        ensures
            r@.len() == files@.len(),
            forall|i: int|
                0 <= i < files@.len() ==> (#[trigger] r@[i]).0@ == files@[i].0@
                    && r@[i].1@.root.children == move_up_children(
                    files@[i].1@.root.children,
                    COUNTRIES_TAG@,
                ) && r@[i].1@.highest_id == files@[i].1@.highest_id,
    {
        let mut out: Vec<(String, Tree)> = Vec::new();
        let mut i: usize = 0;
        while i < files.len()
            invariant
                i <= files@.len(),
                out@.len() == i,
                forall|j: int|
                    0 <= j < i ==> (#[trigger] out@[j]).0@ == files@[j].0@
                        && out@[j].1@.root.children == move_up_children(
                        files@[j].1@.root.children,
                        COUNTRIES_TAG@,
                    ) && out@[j].1@.highest_id == files@[j].1@.highest_id,
            decreases files@.len() - i,
        {
            let name = files[i].0.clone();
            let unwrapped = files[i].1.move_up(COUNTRIES_TAG);
            out.push((name, unwrapped));
            i += 1;
        }
        out
    }

    /// One tree bagging up, from each country file, the first unwrapped
    /// entry that carries a qualified `c:` name. Node identities are kept,
    /// so the result is for reading, not merging.
    pub fn generate_country_tree(&self, files: Vec<(String, Tree)>) -> (r: Tree)
        ensures
            r@.root.name == root_name(),
            r@.highest_id == 9999,
            forall|i: int|
                0 <= i < r@.root.children.len() ==> has_substring(
                    (#[trigger] r@.root.children[i]).name,
                    seq!['c', ':'],
                ),
    {
        proof {
            reveal_strlit("c:");
            assert("c:"@ =~= seq!['c', ':']);
        }
        let pat = "c:";
        let tagged = |s: &String| -> (b: bool)
            ensures
                b == has_substring(s@, "c:"@),
            { crate::text::contains_str(s.as_str(), pat) };
        let mut valid: Vec<Tree> = Vec::new();
        let mut i: usize = 0;
        while i < files.len()
            invariant
                "c:"@ == seq!['c', ':'],
                callable(tagged),
                forall|s: &String, b: bool| call_ensures(tagged, (s,), b) ==> b == has_substring(
                    s@,
                    "c:"@,
                ),
                i <= files@.len(),
                forall|t: int|
                    0 <= t < valid@.len() ==> has_substring(
                        (#[trigger] valid@[t])@.root.name,
                        seq!['c', ':'],
                    ),
            decreases files@.len() - i,
        {
            let flat = files[i].1.move_up(COUNTRIES_TAG);
            match flat.search_child(tagged) {
                Some(t) => {
                    proof {
                        let idx = choose|i2: int|
                            {
                                &&& 0 <= i2 < flat@.root.children.len()
                                &&& t@.root == flat@.root.children[i2]
                                &&& t@.highest_id == flat@.highest_id
                                &&& decided(
                                    tagged,
                                    #[trigger] flat@.root.children[i2].name,
                                    true,
                                )
                                &&& forall|j: int|
                                    0 <= j < i2 ==> decided(
                                        tagged,
                                        #[trigger] flat@.root.children[j].name,
                                        false,
                                    )
                            };
                        let w = choose|s: String|
                            s@ == flat@.root.children[idx].name && call_ensures(
                                tagged,
                                (&s,),
                                true,
                            );
                        assert(has_substring(t@.root.name, seq!['c', ':']));
                    }
                    valid.push(t);
                },
                None => {
                },
            }
            i += 1;
        }
        let r = Tree::from_children(valid.as_slice(), 9999);
        r
    }
}

/// Some child of the root carries this `group name -> category` fact: its
/// stripped name is the key, and its category pair holds the value.
pub open spec fn category_entry_ok(root: NodeModel, key: Seq<char>, cat: Seq<char>) -> bool {
    exists|j: int|
        0 <= j < root.children.len() && {
            let ch = #[trigger] root.children[j];
            &&& strip_bom(ch.name) == key
            &&& match last_match(ch.children, LAW_GROUP_CATEGORY_TAG@) {
                Some(m) => m.children.len() == 1 && m.children[0].name == cat,
                None => false,
            }
        }
}

impl Scanner {
    /// The category of every law group that declares one, read from the
    /// merged law-group tree; on duplicate group names the first document
    /// occurrence wins.
    pub fn generate_law_group_categories(&self, law_group_tree: &Tree) -> (r: Vec<
        (String, String),
    >)
        ensures
            unique_keys(vec_keyed(r@)),
            forall|t: int|
                0 <= t < r@.len() ==> category_entry_ok(
                    law_group_tree@.root,
                    (#[trigger] r@[t]).0@,
                    r@[t].1@,
                ),
    {
        proof {
            crate::tree::lemma_tree_model(*law_group_tree);
            crate::node::lemma_node_model(law_group_tree.root);
        }
        let ghost root = law_group_tree@.root;
        let mut out: Vec<(String, String)> = Vec::new();
        let highest = law_group_tree.get_highest_id();
        let mut i: usize = law_group_tree.root.children.len();
        proof {
            assert(vec_keyed(out@) =~= Seq::<(Seq<char>, String)>::empty());
        }
        while i > 0
            invariant
                root == law_group_tree@.root,
                root.children.len() == law_group_tree.root.children@.len(),
                forall|t: int|
                    0 <= t < root.children.len() ==> root.children[t]
                        == law_group_tree.root.children@[t]@,
                i <= root.children.len(),
                unique_keys(vec_keyed(out@)),
                forall|t: int|
                    0 <= t < out@.len() ==> category_entry_ok(
                        root,
                        (#[trigger] out@[t]).0@,
                        out@[t].1@,
                    ),
            decreases i,
        {
            i -= 1;
            let child_tree = Tree::new(law_group_tree.root.children[i].duplicate(), highest);
            if let Ok(cat_tree) = child_tree.get(LAW_GROUP_CATEGORY_TAG) {
                if let Ok(cat) = cat_tree.value() {
                    let key = child_tree.get_name();
                    let ghost pre_raw = out@;
                    let ghost pre = vec_keyed(out@);
                    let ghost insv = cat;
                    proof {
                        assert(category_entry_ok(root, key@, insv@)) by {
                            let ch = root.children[i as int];
                            assert(child_tree@.root == ch);
                            assert(strip_bom(ch.name) == key@);
                            assert(match last_match(ch.children, LAW_GROUP_CATEGORY_TAG@) {
                                Some(m) => m.children.len() == 1 && m.children[0].name == insv@,
                                None => false,
                            });
                        }
                    }
                    keyed_vec_set(&mut out, key.as_str(), cat);
                    proof {
                        assert forall|t: int| 0 <= t < out@.len() implies category_entry_ok(
                            root,
                            (#[trigger] out@[t]).0@,
                            out@[t].1@,
                        ) by {
                            assert(vec_keyed(out@)[t] == (out@[t].0@, out@[t].1));
                            lemma_keyed_set_elements(pre, key@, insv, t);
                            if vec_keyed(out@)[t] == (key@, insv) {
                            } else {
                                let i2 = choose|i2: int|
                                    0 <= i2 < pre.len() && #[trigger] pre[i2] == vec_keyed(
                                        out@,
                                    )[t];
                                assert(pre[i2] == (pre_raw[i2].0@, pre_raw[i2].1));
                                assert(category_entry_ok(root, pre_raw[i2].0@, pre_raw[i2].1@));
                            }
                        }
                    }
                }
            }
        }
        out
    }

    /// Build the law compendium from the merged law tree: one `Law` per
    /// entry that declares its group (keyed by the unqualified law name),
    /// and the groups themselves, each collecting its laws in reverse
    /// document order so the group's default is the first declared law.
    pub fn generate_law_compendium(
        &self,
        law_tree: &Tree,
        law_group_categories: &Vec<(String, String)>,
    ) -> (r: (Vec<(String, Law)>, Vec<(String, LawGroup)>))
        ensures
            unique_keys(vec_keyed(r.0@)),
            unique_keys(vec_keyed(r.1@)),
            forall|t: int| 0 <= t < r.0@.len() ==> (#[trigger] r.0@[t]).1@.name == r.0@[t].0@,
            forall|t: int| 0 <= t < r.1@.len() ==> (#[trigger] r.1@[t]).1@.laws.len() > 0,
    {
        proof {
            crate::tree::lemma_tree_model(*law_tree);
            crate::node::lemma_node_model(law_tree.root);
        }
        let ghost root = law_tree@.root;
        let mut law_compendium: Vec<(String, Law)> = Vec::new();
        let mut default_laws: Vec<(String, LawGroup)> = Vec::new();
        let highest = law_tree.get_highest_id();
        let mut i: usize = law_tree.root.children.len();
        proof {
            assert(vec_keyed(law_compendium@) =~= Seq::<(Seq<char>, Law)>::empty());
            assert(vec_keyed(default_laws@) =~= Seq::<(Seq<char>, LawGroup)>::empty());
        }
        while i > 0
            invariant
                root == law_tree@.root,
                root.children.len() == law_tree.root.children@.len(),
                forall|t: int|
                    0 <= t < root.children.len() ==> root.children[t]
                        == law_tree.root.children@[t]@,
                i <= root.children.len(),
                unique_keys(vec_keyed(law_compendium@)),
                unique_keys(vec_keyed(default_laws@)),
                forall|t: int|
                    0 <= t < law_compendium@.len() ==> (#[trigger] law_compendium@[t]).1@.name
                        == law_compendium@[t].0@,
                forall|t: int|
                    0 <= t < default_laws@.len() ==> (#[trigger] default_laws@[t]).1@.laws.len()
                        > 0,
            decreases i,
        {
            i -= 1;
            let child_tree = Tree::new(law_tree.root.children[i].duplicate(), highest);
            if let Ok(group_tree) = child_tree.get(LAW_GROUP_TAG) {
                if let Ok(group) = group_tree.value() {
                    let law_name = after_last_colon(child_tree.get_name().as_str());
                    let law = Law::new(law_name.as_str(), group.as_str(), "");
                    let law_for_group = law.duplicate();
                    let ghost pre_raw = law_compendium@;
                    let ghost pre = vec_keyed(law_compendium@);
                    let ghost insv = law;
                    keyed_vec_set(&mut law_compendium, law_name.as_str(), law);
                    proof {
                        assert forall|t: int| 0 <= t < law_compendium@.len() implies (
                        #[trigger] law_compendium@[t]).1@.name == law_compendium@[t].0@ by {
                            assert(vec_keyed(law_compendium@)[t] == (
                                law_compendium@[t].0@,
                                law_compendium@[t].1,
                            ));
                            lemma_keyed_set_elements(pre, law_name@, insv, t);
                            if vec_keyed(law_compendium@)[t] != (law_name@, insv) {
                                let i2 = choose|i2: int|
                                    0 <= i2 < pre.len() && #[trigger] pre[i2] == vec_keyed(
                                        law_compendium@,
                                    )[t];
                                assert(pre[i2] == (pre_raw[i2].0@, pre_raw[i2].1));
                            }
                        }
                    }
                    // Attach the law to its group, creating the group with
                    // its category on first sight.
                    let mut gidx: Option<usize> = None;
                    let mut g: usize = 0;
                    while g < default_laws.len()
                        invariant
                            g <= default_laws@.len(),
                            forall|t: int|
                                0 <= t < default_laws@.len() ==> vec_keyed(default_laws@)[t] == (
                                    default_laws@[t].0@,
                                    default_laws@[t].1,
                                ),
                            match gidx {
                                Some(x) => x < default_laws@.len() && default_laws@[x as int].0@
                                    == group@,
                                None => forall|t: int|
                                    0 <= t < g ==> (#[trigger] default_laws@[t]).0@ != group@,
                            },
                        decreases default_laws@.len() - g,
                    {
                        if str_eq(default_laws[g].0.as_str(), group.as_str()) {
                            gidx = Some(g);
                            proof {
                                assert(default_laws@[g as int].0@ == group@);
                            }
                        }
                        g += 1;
                    }
                    match gidx {
                        Some(x) => {
                            let ghost gpre = vec_keyed(default_laws@);
                            let mut entry = default_laws.remove(x);
                            entry.1.push(law_for_group);
                            let ghost grown = entry.1;
                            default_laws.insert(x, entry);
                            proof {
                                assert(vec_keyed(default_laws@) =~= gpre.update(
                                    x as int,
                                    (gpre[x as int].0, grown),
                                ));
                                assert forall|a: int, b: int|
                                    0 <= a < b < vec_keyed(default_laws@).len() implies (
                                #[trigger] vec_keyed(default_laws@)[a]).0 != (
                                #[trigger] vec_keyed(default_laws@)[b]).0 by {
                                    assert(vec_keyed(default_laws@)[a].0 == gpre[a].0);
                                    assert(vec_keyed(default_laws@)[b].0 == gpre[b].0);
                                }
                            }
                        },
                        None => {
                            let category = match keyed_vec_find(law_group_categories, group.as_str()) {
                                Some(c) => c.clone(),
                                None => String::from_str("N/A"),
                            };
                            let mut lg = LawGroup::new(group.as_str(), category.as_str());
                            lg.push(law_for_group);
                            let ghost gpre = vec_keyed(default_laws@);
                            default_laws.push((String::from_str(group.as_str()), lg));
                            proof {
                                assert(vec_keyed(default_laws@) =~= gpre.push((group@, lg)));
                                assert forall|a: int, b: int|
                                    0 <= a < b < vec_keyed(default_laws@).len() implies (
                                #[trigger] vec_keyed(default_laws@)[a]).0 != (
                                #[trigger] vec_keyed(default_laws@)[b]).0 by {
                                    if b < gpre.len() {
                                        assert(vec_keyed(default_laws@)[a].0 == gpre[a].0);
                                        assert(vec_keyed(default_laws@)[b].0 == gpre[b].0);
                                    } else {
                                        assert(vec_keyed(default_laws@)[a].0 == gpre[a].0);
                                        assert(default_laws@[a].0@ != group@);
                                    }
                                }
                            }
                        },
                    }
                }
            }
        }
        (law_compendium, default_laws)
    }

    /// Rebuild every scripted effect's law template from the template
    /// tree, resolving each activated law's group through the compendium
    /// (`N/A` for a law the compendium does not know).
    pub fn generate_scripted_effects(
        &self,
        scripted_effect_tree: &Tree,
        law_compendium: &Vec<(String, Law)>,
    ) -> (r: Vec<(String, ScriptedEffectLawsTemplate)>)
        ensures
            unique_keys(vec_keyed(r@)),
            forall|t: int| 0 <= t < r@.len() ==> (#[trigger] r@[t]).1.well_formed(),
    {
        proof {
            crate::tree::lemma_tree_model(*scripted_effect_tree);
            crate::node::lemma_node_model(scripted_effect_tree.root);
        }
        let ghost root = scripted_effect_tree@.root;
        let mut out: Vec<(String, ScriptedEffectLawsTemplate)> = Vec::new();
        let highest = scripted_effect_tree.get_highest_id();
        let mut i: usize = scripted_effect_tree.root.children.len();
        proof {
            assert(vec_keyed(out@) =~= Seq::<(Seq<char>, ScriptedEffectLawsTemplate)>::empty());
        }
        while i > 0
            invariant
                root == scripted_effect_tree@.root,
                root.children.len() == scripted_effect_tree.root.children@.len(),
                forall|t: int|
                    0 <= t < root.children.len() ==> root.children[t]
                        == scripted_effect_tree.root.children@[t]@,
                i <= root.children.len(),
                unique_keys(vec_keyed(out@)),
                forall|t: int| 0 <= t < out@.len() ==> (#[trigger] out@[t]).1.well_formed(),
            decreases i,
        {
            i -= 1;
            let child = &scripted_effect_tree.root.children[i];
            let child_name = Tree::new(child.duplicate(), highest).get_name();
            let mut template = ScriptedEffectLawsTemplate::new();
            let mut j: usize = child.children.len();
            while j > 0
                invariant
                    template.well_formed(),
                    j <= child.children@.len(),
                decreases j,
            {
                j -= 1;
                let pair = &child.children[j];
                if starts_with(pair.name.as_str(), ACTIVATE_LAW_TAG) && pair.children.len() == 1 {
                    let law = after_last_colon(pair.children[0].name.as_str());
                    let group = match keyed_vec_find(law_compendium, law.as_str()) {
                        Some(l) => String::from_str(l.get_group()),
                        None => String::from_str("N/A"),
                    };
                    template.push(Law::new(law.as_str(), group.as_str(), ""));
                }
            }
            let ghost pre_raw = out@;
            let ghost pre = vec_keyed(out@);
            let ghost insv = template;
            keyed_vec_set(&mut out, child_name.as_str(), template);
            proof {
                assert forall|t: int| 0 <= t < out@.len() implies (
                #[trigger] out@[t]).1.well_formed() by {
                    assert(vec_keyed(out@)[t] == (out@[t].0@, out@[t].1));
                    lemma_keyed_set_elements(pre, child_name@, insv, t);
                    if vec_keyed(out@)[t] != (child_name@, insv) {
                        let i2 = choose|i2: int|
                            0 <= i2 < pre.len() && #[trigger] pre[i2] == vec_keyed(out@)[t];
                        assert(pre[i2] == (pre_raw[i2].0@, pre_raw[i2].1));
                    }
                }
            }
        }
        out
    }

    /// Rebuild every country from the bagged country tree: group defaults
    /// first, then the file's own law activations, then the laws of every
    /// scripted effect the entry carries.
    pub fn generate_countries(
        &self,
        country_tree: &Tree,
        law_compendium: &Vec<(String, Law)>,
        default_laws: &Vec<(String, LawGroup)>,
        scripted_effects: &Vec<(String, ScriptedEffectLawsTemplate)>,
    ) -> (r: Vec<(String, Country)>)
        requires
            forall|t: int|
                0 <= t < default_laws@.len() ==> (#[trigger] default_laws@[t]).1@.laws.len() > 0,
            forall|a: int, b: int|
                0 <= a < b < default_laws@.len() ==> (#[trigger] default_laws@[a]).0@ != (
                #[trigger] default_laws@[b]).0@,
        ensures
            unique_keys(vec_keyed(r@)),
            forall|t: int| 0 <= t < r@.len() ==> country_wf((#[trigger] r@[t]).1@),
    {
        proof {
            crate::tree::lemma_tree_model(*country_tree);
            crate::node::lemma_node_model(country_tree.root);
        }
        let ghost root = country_tree@.root;
        let mut out: Vec<(String, Country)> = Vec::new();
        let highest = country_tree.get_highest_id();
        let mut i: usize = country_tree.root.children.len();
        proof {
            assert(vec_keyed(out@) =~= Seq::<(Seq<char>, Country)>::empty());
        }
        while i > 0
            invariant
                forall|t: int|
                    0 <= t < default_laws@.len() ==> (#[trigger] default_laws@[t]).1@.laws.len()
                        > 0,
                forall|a: int, b: int|
                    0 <= a < b < default_laws@.len() ==> (#[trigger] default_laws@[a]).0@ != (
                    #[trigger] default_laws@[b]).0@,
                root == country_tree@.root,
                root.children.len() == country_tree.root.children@.len(),
                forall|t: int|
                    0 <= t < root.children.len() ==> root.children[t]
                        == country_tree.root.children@[t]@,
                i <= root.children.len(),
                unique_keys(vec_keyed(out@)),
                forall|t: int| 0 <= t < out@.len() ==> country_wf((#[trigger] out@[t]).1@),
            decreases i,
        {
            i -= 1;
            let child = &country_tree.root.children[i];
            let entry_name = Tree::new(child.duplicate(), highest).get_name();
            let country_name = after_last_colon(entry_name.as_str());
            let mut new_country = Country::from_default(country_name.as_str(), default_laws);
            // The file's own law activations.
            let mut j: usize = child.children.len();
            while j > 0
                invariant
                    country_wf(new_country@),
                    j <= child.children@.len(),
                decreases j,
            {
                j -= 1;
                let pair = &child.children[j];
                if starts_with(pair.name.as_str(), ACTIVATE_LAW_TAG) && pair.children.len() == 1 {
                    let law = after_last_colon(pair.children[0].name.as_str());
                    if let Some(found) = keyed_vec_find(law_compendium, law.as_str()) {
                        let group = String::from_str(found.get_group());
                        new_country.set_law(law.as_str(), group.as_str(), LawSetBy::Manual);
                    }
                }
            }
            // The scripted effects the entry carries.
            let mut k: usize = child.children.len();
            while k > 0
                invariant
                    country_wf(new_country@),
                    k <= child.children@.len(),
                decreases k,
            {
                k -= 1;
                let marker = &child.children[k];
                if !starts_with(marker.name.as_str(), ACTIVATE_LAW_TAG) {
                    let effect_name = Tree::new(marker.duplicate(), highest).get_name();
                    if let Some(template) = keyed_vec_find(scripted_effects, effect_name.as_str()) {
                        let entries = template.get_laws();
                        let mut e: usize = 0;
                        while e < entries.len()
                            invariant
                                country_wf(new_country@),
                                e <= entries@.len(),
                            decreases entries@.len() - e,
                        {
                            let set_by = LawSetBy::ScriptedEffect(effect_name.clone());
                            new_country.set_law(
                                entries[e].0.as_str(),
                                entries[e].1.as_str(),
                                set_by,
                            );
                            e += 1;
                        }
                    }
                }
            }
            let ghost pre_raw = out@;
            let ghost pre = vec_keyed(out@);
            let ghost insv = new_country;
            keyed_vec_set(&mut out, country_name.as_str(), new_country);
            proof {
                assert forall|t: int| 0 <= t < out@.len() implies country_wf(
                    (#[trigger] out@[t]).1@,
                ) by {
                    assert(vec_keyed(out@)[t] == (out@[t].0@, out@[t].1));
                    lemma_keyed_set_elements(pre, country_name@, insv, t);
                    if vec_keyed(out@)[t] != (country_name@, insv) {
                        let i2 = choose|i2: int|
                            0 <= i2 < pre.len() && #[trigger] pre[i2] == vec_keyed(out@)[t];
                        assert(pre[i2] == (pre_raw[i2].0@, pre_raw[i2].1));
                    }
                }
            }
        }
        out
    }

    /// One full scan over already-parsed trees: law groups and their
    /// categories, the law compendium, the scripted effect templates, and
    /// every country, assembled into well-formed domain data.
    pub fn scan(
        &self,
        scripted_effect_tree: &Tree,
        country_tree: &Tree,
        law_tree: &Tree,
        law_group_tree: &Tree,
    ) -> (r: Result<Data, String>)
        ensures
            r matches Ok(d) && d.well_formed(),
    {
        let law_group_categories = self.generate_law_group_categories(law_group_tree);
        let compendium = self.generate_law_compendium(law_tree, &law_group_categories);
        let (law_compendium, default_laws) = compendium;
        let scripted_effects = self.generate_scripted_effects(scripted_effect_tree, &law_compendium);
        proof {
            assert(forall|a: int, b: int|
                0 <= a < b < default_laws@.len() ==> (#[trigger] default_laws@[a]).0@ != (
                #[trigger] default_laws@[b]).0@) by {
                assert forall|a: int, b: int|
                    0 <= a < b < default_laws@.len() implies (#[trigger] default_laws@[a]).0@ != (
                #[trigger] default_laws@[b]).0@ by {
                    assert(vec_keyed(default_laws@)[a] == (default_laws@[a].0@, default_laws@[a].1));
                    assert(vec_keyed(default_laws@)[b] == (default_laws@[b].0@, default_laws@[b].1));
                }
            }
        }
        let countries = self.generate_countries(
            country_tree,
            &law_compendium,
            &default_laws,
            &scripted_effects,
        );
        let ghost cq = countries@;
        let ghost lq = law_compendium@;
        let ghost gq = default_laws@;
        let ghost eq2 = scripted_effects@;
        let data = Data::new(countries, law_compendium, default_laws, scripted_effects);
        proof {
            assert(data.well_formed()) by {
                assert forall|a: int, b: int|
                    0 <= a < b < data.countries_view().len() implies (
                #[trigger] data.countries_view()[a]).0 != (#[trigger] data.countries_view()[b]).0 by {
                    assert(data.countries_view()[a] == (cq[a].0@, cq[a].1@));
                    assert(data.countries_view()[b] == (cq[b].0@, cq[b].1@));
                    assert(vec_keyed(cq)[a] == (cq[a].0@, cq[a].1));
                    assert(vec_keyed(cq)[b] == (cq[b].0@, cq[b].1));
                }
                assert forall|a: int, b: int|
                    0 <= a < b < data.laws_view().len() implies (#[trigger] data.laws_view()[a]).0
                    != (#[trigger] data.laws_view()[b]).0 by {
                    assert(data.laws_view()[a] == (lq[a].0@, lq[a].1@));
                    assert(data.laws_view()[b] == (lq[b].0@, lq[b].1@));
                    assert(vec_keyed(lq)[a] == (lq[a].0@, lq[a].1));
                    assert(vec_keyed(lq)[b] == (lq[b].0@, lq[b].1));
                }
                assert forall|a: int, b: int|
                    0 <= a < b < data.law_groups_view().len() implies (
                #[trigger] data.law_groups_view()[a]).0 != (
                #[trigger] data.law_groups_view()[b]).0 by {
                    assert(data.law_groups_view()[a] == (gq[a].0@, gq[a].1@));
                    assert(data.law_groups_view()[b] == (gq[b].0@, gq[b].1@));
                    assert(vec_keyed(gq)[a] == (gq[a].0@, gq[a].1));
                    assert(vec_keyed(gq)[b] == (gq[b].0@, gq[b].1));
                }
                assert forall|a: int, b: int|
                    0 <= a < b < data.effects_view().len() implies (
                #[trigger] data.effects_view()[a]).0 != (#[trigger] data.effects_view()[b]).0 by {
                    assert(data.effects_view()[a] == (eq2[a].0@, eq2[a].1.entries()));
                    assert(data.effects_view()[b] == (eq2[b].0@, eq2[b].1.entries()));
                    assert(vec_keyed(eq2)[a] == (eq2[a].0@, eq2[a].1));
                    assert(vec_keyed(eq2)[b] == (eq2[b].0@, eq2[b].1));
                }
                assert forall|t: int| 0 <= t < data.countries_view().len() implies country_wf(
                    (#[trigger] data.countries_view()[t]).1,
                ) by {
                    assert(data.countries_view()[t] == (cq[t].0@, cq[t].1@));
                    assert(country_wf(cq[t].1@));
                }
            }
        }
        Ok(data)
    }
}

} // verus!
