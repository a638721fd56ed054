use vic3_parser::country::{Country, LawSetBy};
use vic3_parser::law::{Law, LawGroup};
use vic3_parser::parser::Parser;
use vic3_parser::scanner::Scanner;
use vic3_parser::text::after_last_colon;
use vic3_parser::Tree;

fn parse(text: &str) -> Tree {
    Parser::new().parse(text.to_string()).expect("well-formed input")
}

fn scanner() -> Scanner {
    Scanner::new("/mod".to_string(), "/game".to_string())
}

#[test]
fn after_last_colon_cases() {
    assert_eq!(after_last_colon("law:law_serfdom"), "law_serfdom".to_string());
    assert_eq!(after_last_colon("c:SWE"), "SWE".to_string());
    assert_eq!(after_last_colon("plain"), "plain".to_string());
    assert_eq!(after_last_colon("a:b:c"), "c".to_string());
    assert_eq!(after_last_colon("trailing:"), "".to_string());
    assert_eq!(after_last_colon(""), "".to_string());
}

#[test]
fn generate_country_tree_picks_tagged_entries() {
    let files = vec![
        ("a.txt".to_string(), parse("COUNTRIES = {\n c:AAA = { x = 1 }\n}\n")),
        ("empty.txt".to_string(), parse("COUNTRIES = {\n}\n")),
        ("b.txt".to_string(), parse("COUNTRIES = {\n c:BBB = { y = 2 }\n}\n")),
    ];
    let tree = scanner().generate_country_tree(files);
    assert_eq!(tree.get_highest_id(), 9999);
    assert_eq!(
        tree.get_children_names(),
        vec!["c:AAA".to_string(), "c:BBB".to_string()]
    );
}

#[test]
fn law_group_categories_first_occurrence_wins() {
    let tree = parse(
        "lawgroup_g = { law_group_category = power }\nlawgroup_h = { law_group_category = economy }\nlawgroup_g = { law_group_category = shadowed }\n",
    );
    let cats = scanner().generate_law_group_categories(&tree);
    assert_eq!(cats.len(), 2);
    let g = cats.iter().find(|e| e.0 == "lawgroup_g").expect("g present");
    assert_eq!(g.1, "power");
    let h = cats.iter().find(|e| e.0 == "lawgroup_h").expect("h present");
    assert_eq!(h.1, "economy");
}

#[test]
fn law_compendium_collects_groups() {
    let law_tree = parse(
        "law:law_serfdom = { group = lawgroup_rights }\nlaw:law_free = { group = lawgroup_rights }\nlaw:law_mono = { group = lawgroup_gov }\n",
    );
    let cats = vec![("lawgroup_rights".to_string(), "rights".to_string())];
    let (compendium, groups) = scanner().generate_law_compendium(&law_tree, &cats);
    assert_eq!(compendium.len(), 3);
    let serfdom = compendium.iter().find(|e| e.0 == "law_serfdom").expect("present");
    assert_eq!(serfdom.1.get_group(), "lawgroup_rights");
    assert_eq!(groups.len(), 2);
    let rights = groups.iter().find(|e| e.0 == "lawgroup_rights").expect("present");
    assert_eq!(rights.1.get_category(), "rights");
    // Reverse document order: the first declared law ends up last, so it
    // is the group's default.
    assert_eq!(rights.1.get_default_law().get_name(), "law_serfdom");
    let gov = groups.iter().find(|e| e.0 == "lawgroup_gov").expect("present");
    assert_eq!(gov.1.get_category(), "N/A");
}

#[test]
fn scripted_effects_resolve_groups() {
    let law_tree = parse("law:law_a = { group = lawgroup_g }\n");
    let (compendium, _) = scanner().generate_law_compendium(&law_tree, &Vec::new());
    let effects_tree = parse(
        "eff_one = {\n activate_law = law:law_a\n activate_law = law:law_unknown\n}\n",
    );
    let effects = scanner().generate_scripted_effects(&effects_tree, &compendium);
    assert_eq!(effects.len(), 1);
    assert_eq!(effects[0].0, "eff_one");
    let entries = effects[0].1.get_laws();
    assert_eq!(entries.len(), 2);
    let a = entries.iter().find(|e| e.0 == "law_a").expect("law_a");
    assert_eq!(a.1, "lawgroup_g");
    let unknown = entries.iter().find(|e| e.0 == "law_unknown").expect("law_unknown");
    assert_eq!(unknown.1, "N/A");
}

#[test]
fn scan_builds_countries_with_defaults_and_overrides() {
    let sc = scanner();
    let law_tree = parse(
        "law:law_serfdom = { group = lawgroup_rights }\nlaw:law_free = { group = lawgroup_rights }\n",
    );
    let law_group_tree = parse("lawgroup_rights = { law_group_category = rights }\n");
    let effects_tree = parse("eff_free = { activate_law = law:law_free }\n");
    let files = vec![
        (
            "aaa.txt".to_string(),
            parse("COUNTRIES = {\n c:AAA = { activate_law = law:law_free }\n}\n"),
        ),
        (
            "bbb.txt".to_string(),
            parse("COUNTRIES = {\n c:BBB = { eff_free = yes }\n}\n"),
        ),
        (
            "ccc.txt".to_string(),
            parse("COUNTRIES = {\n c:CCC = { unrelated = 1 }\n}\n"),
        ),
    ];
    let country_tree = sc.generate_country_tree(files);
    let data = sc
        .scan(&effects_tree, &country_tree, &law_tree, &law_group_tree)
        .expect("scan succeeds");

    // CCC keeps the group default: the first declared law.
    let ccc = data.get_country("CCC").expect("CCC");
    assert_eq!(ccc.get_law("lawgroup_rights"), Some("law_serfdom".to_string()));
    // AAA activates a law directly.
    let aaa = data.get_country("AAA").expect("AAA");
    assert_eq!(aaa.get_law("lawgroup_rights"), Some("law_free".to_string()));
    // BBB gets the same law through its scripted effect.
    let bbb = data.get_country("BBB").expect("BBB");
    assert_eq!(bbb.get_law("lawgroup_rights"), Some("law_free".to_string()));
}

#[test]
fn country_to_tree_builds_surgical_rewrite() {
    let sc = scanner();
    let law_tree = parse("law:law_a = { group = lawgroup_g }\n");
    let law_group_tree = parse("lawgroup_g = { law_group_category = power }\n");
    let effects_tree = parse("eff_a = { activate_law = law:law_a }\n");
    let text = "COUNTRIES = {\n c:SWE = { activate_law = law:law_a keep = 1 }\n}\n";
    let per_file = sc.countries_per_file(vec![("swe.txt".to_string(), parse(text))]);
    let country_tree = sc.generate_country_tree(vec![("swe.txt".to_string(), parse(text))]);
    let data = sc
        .scan(&effects_tree, &country_tree, &law_tree, &law_group_tree)
        .expect("scan succeeds");
    let action = data.country_to_tree(&per_file, "SWE").expect("SWE found");
    assert_eq!(action.get_file(), "swe.txt");
    let content = action.get_content();
    assert_eq!(content.get_name(), "COUNTRIES");
    let entry = content.get("c:SWE").expect("entry kept");
    assert_eq!(
        entry.get_children_names(),
        vec!["keep".to_string(), "activate_law".to_string()]
    );
    assert_eq!(
        entry.get("activate_law").unwrap().value().unwrap(),
        "law:law_a"
    );
    // With a single country under the wrapper the serializer prints the
    // wrapper as a pair line, so the marker is left untouched.
    assert_eq!(action.serialized_content(), "COUNTRIES = c:SWE\n");
    assert!(data.country_to_tree(&per_file, "NOR").is_none());
}

#[test]
fn generate_templates_tree_lists_every_template() {
    let sc = scanner();
    let law_tree = parse("law:law_a = { group = lawgroup_g }\n");
    let law_group_tree = parse("lawgroup_g = { law_group_category = power }\n");
    let effects_tree = parse(
        "eff_one = { activate_law = law:law_a }\neff_two = { activate_law = law:law_a }\n",
    );
    let country_tree = Tree::default();
    let data = sc
        .scan(&effects_tree, &country_tree, &law_tree, &law_group_tree)
        .expect("scan succeeds");
    let action = data.generate_templates_tree(&sc);
    assert_eq!(
        action.get_file(),
        "/mod/common/scripted_effects/law_templates.txt"
    );
    let mut names = action.get_content().get_children_names();
    names.sort();
    assert_eq!(names, vec!["eff_one".to_string(), "eff_two".to_string()]);
    let one = action.get_content().get("eff_one").expect("eff_one");
    assert_eq!(one.get_children_names(), vec!["activate_law".to_string()]);
    assert_eq!(one.get("activate_law").unwrap().value().unwrap(), "law:law_a");
}

#[test]
fn to_tree_readds_manual_laws_and_effects() {
    let sc = scanner();
    let law_tree = parse("law:law_a = { group = lawgroup_g }\n");
    let law_group_tree = parse("lawgroup_g = { law_group_category = power }\n");
    let effects_tree = parse("eff_a = { activate_law = law:law_a }\n");
    let country_tree = Tree::default();
    let data = sc
        .scan(&effects_tree, &country_tree, &law_tree, &law_group_tree)
        .expect("scan succeeds");

    let mut groups = Vec::new();
    let mut g = LawGroup::new("lawgroup_g", "power");
    g.push(Law::new("law_a", "lawgroup_g", ""));
    groups.push(("lawgroup_g".to_string(), g));
    let mut country = Country::from_default("SWE", &groups);
    country.set_law("law_a", "lawgroup_g", LawSetBy::Manual);
    country.set_law(
        "law_a",
        "lawgroup_g",
        LawSetBy::ScriptedEffect("eff_a".to_string()),
    );
    country.set_law_manual("law_a", "lawgroup_g");

    let files = vec![(
        "swe.txt".to_string(),
        parse("c:SWE = { old_marker = 1 }\n"),
    )];
    let action = country.to_tree(&files, &data).expect("entry found");
    assert_eq!(action.get_file(), "swe.txt");
    // The manual law is re-added, and the recorded effect re-marked.
    let entry = action.get_content().get("c:SWE").expect("entry kept");
    assert_eq!(
        entry.get_children_names(),
        vec![
            "old_marker".to_string(),
            "activate_law".to_string(),
            "eff_a".to_string()
        ]
    );
    assert_eq!(
        entry.get("activate_law").unwrap().value().unwrap(),
        "law:law_a"
    );
    assert_eq!(entry.get("eff_a").unwrap().value().unwrap(), "yes");
}
