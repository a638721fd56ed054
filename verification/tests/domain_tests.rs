use vic3_parser::country::{Country, LawSetBy};
use vic3_parser::data::Data;
use vic3_parser::goods::Goods;
use vic3_parser::law::{Law, LawGroup, ScriptedEffectLawsTemplate};
use vic3_parser::parser::Parser;
use vic3_parser::pmg::PMG;
use vic3_parser::text::{contains_str, escape_eq_str, parse_i32, replace_all, starts_with,
    str_eq};
use vic3_parser::Tree;

fn parse(text: &str) -> Tree {
    Parser::new().parse(text.to_string()).expect("well-formed input")
}

#[test]
fn law_accessors() {
    let law = Law::new("law_census_suffrage", "lawgroup_governance", "gfx/laws/suffrage.dds");
    assert_eq!(law.get_name(), "law_census_suffrage");
    assert_eq!(law.get_group(), "lawgroup_governance");
    assert_eq!(law.get_texture_path(), "gfx/laws/suffrage.dds");
}

#[test]
fn law_group_default_is_last_pushed() {
    let mut group = LawGroup::new("lawgroup_governance", "power_structure");
    assert_eq!(group.get_name(), "lawgroup_governance");
    assert_eq!(group.get_category(), "power_structure");
    group.push(Law::new("law_a", "lawgroup_governance", ""));
    group.push(Law::new("law_b", "lawgroup_governance", ""));
    assert_eq!(group.get_laws().len(), 2);
    assert_eq!(group.get_default_law().get_name(), "law_b");
}

#[test]
fn template_overwrites_by_law_name() {
    let mut template = ScriptedEffectLawsTemplate::new();
    template.push(Law::new("law_a", "group_one", ""));
    template.push(Law::new("law_b", "group_two", ""));
    template.push(Law::new("law_a", "group_three", ""));
    let entries = template.get_laws();
    assert_eq!(entries.len(), 2);
    assert_eq!(entries[0].0, "law_a");
    assert_eq!(entries[0].1, "group_three");
    assert_eq!(entries[1].0, "law_b");
}

fn default_groups() -> Vec<(String, LawGroup)> {
    let mut g1 = LawGroup::new("lawgroup_governance", "power_structure");
    g1.push(Law::new("law_monarchy", "lawgroup_governance", ""));
    let mut g2 = LawGroup::new("lawgroup_economy", "economy");
    g2.push(Law::new("law_agrarianism", "lawgroup_economy", ""));
    g2.push(Law::new("law_interventionism", "lawgroup_economy", ""));
    vec![
        ("lawgroup_governance".to_string(), g1),
        ("lawgroup_economy".to_string(), g2),
    ]
}

#[test]
fn country_defaults_use_group_defaults() {
    let country = Country::from_default("SWE", &default_groups());
    assert_eq!(country.get_law("lawgroup_governance"), Some("law_monarchy".to_string()));
    assert_eq!(
        country.get_law("lawgroup_economy"),
        Some("law_interventionism".to_string())
    );
    assert_eq!(country.get_law("lawgroup_unknown"), None);
}

#[test]
fn set_law_overwrites_group() {
    let mut country = Country::from_default("SWE", &default_groups());
    country.set_law_manual("law_republic", "lawgroup_governance");
    assert_eq!(country.get_law("lawgroup_governance"), Some("law_republic".to_string()));
    country.set_law("law_laissez_faire", "lawgroup_economy", LawSetBy::Manual);
    assert_eq!(
        country.get_law("lawgroup_economy"),
        Some("law_laissez_faire".to_string())
    );
}

#[test]
fn apply_template_sets_every_entry() {
    let mut template = ScriptedEffectLawsTemplate::new();
    template.push(Law::new("law_republic", "lawgroup_governance", ""));
    template.push(Law::new("law_laissez_faire", "lawgroup_economy", ""));
    let mut country = Country::from_default("SWE", &default_groups());
    country.apply_template(&template, "liberal_package").expect("applies");
    assert_eq!(country.get_law("lawgroup_governance"), Some("law_republic".to_string()));
    assert_eq!(
        country.get_law("lawgroup_economy"),
        Some("law_laissez_faire".to_string())
    );
}

#[test]
fn goods_costs_from_tree() {
    let tree = parse("iron = { cost = 40 }\nwood = { cost = 10 }\n");
    let goods = Goods::from_tree(tree).expect("all costs parse");
    assert_eq!(goods.get_cost("iron"), 40);
    assert_eq!(goods.get_cost("wood"), 10);
    assert_eq!(goods.get_cost("coal"), 0);
}

#[test]
fn goods_negative_and_bad_costs() {
    let tree = parse("scrap = { cost = -5 }\n");
    let goods = Goods::from_tree(tree).expect("negative parses");
    assert_eq!(goods.get_cost("scrap"), -5);
    let bad = parse("iron = { cost = forty }\n");
    assert!(Goods::from_tree(bad).is_err());
    let missing = parse("iron = { price = 40 }\n");
    assert!(Goods::from_tree(missing).is_err());
}

#[test]
fn parse_i32_cases() {
    assert_eq!(parse_i32("123"), Some(123));
    assert_eq!(parse_i32("-45"), Some(-45));
    assert_eq!(parse_i32("007"), Some(7));
    assert_eq!(parse_i32("0"), Some(0));
    assert_eq!(parse_i32("2147483647"), Some(2147483647));
    assert_eq!(parse_i32("-2147483648"), Some(-2147483648));
    assert_eq!(parse_i32("2147483648"), None);
    assert_eq!(parse_i32("-2147483649"), None);
    assert_eq!(parse_i32(""), None);
    assert_eq!(parse_i32("-"), None);
    assert_eq!(parse_i32("12a"), None);
    assert_eq!(parse_i32("99999999999999999999"), None);
}

#[test]
fn pmg_from_tree_reads_methods() {
    let doc = parse("pmg_base = {\n production_methods = {\n pm_a\n pm_b\n }\n}\n");
    let subtree = doc.get("pmg_base").unwrap();
    let pmg = PMG::from_tree(&subtree).expect("has production_methods");
    assert_eq!(pmg.name(), "pmg_base");
    assert_eq!(pmg.get_pms(), vec!["pm_a".to_string(), "pm_b".to_string()]);
    let bad = doc.get("pmg_base").unwrap().get("production_methods").unwrap();
    assert!(PMG::from_tree(&bad).is_err());
}

#[test]
fn data_lookups_and_templates() {
    let countries = vec![("SWE".to_string(), Country::from_default("SWE", &default_groups()))];
    let laws = vec![(
        "law_monarchy".to_string(),
        Law::new("law_monarchy", "lawgroup_governance", ""),
    )];
    let mut g = LawGroup::new("lawgroup_governance", "power_structure");
    g.push(Law::new("law_monarchy", "lawgroup_governance", ""));
    let groups = vec![("lawgroup_governance".to_string(), g)];
    let mut data = Data::new(countries, laws, groups, Vec::new());

    assert!(data.get_country("SWE").is_some());
    assert!(data.get_country("NOR").is_none());
    assert_eq!(data.get_law("law_monarchy").unwrap().get_group(), "lawgroup_governance");
    assert!(data.get_law_group("lawgroup_governance").is_some());
    assert!(data.get_scripted_effect("anything").is_none());

    let mut template = data.new_template();
    template.push(Law::new("law_republic", "lawgroup_governance", ""));
    data.insert_or_overwrite_template("republic_package", template);
    assert!(data.get_scripted_effect("republic_package").is_some());

    data.apply_template_to_country("republic_package", "SWE").expect("applies");
    assert_eq!(
        data.get_country("SWE").unwrap().get_law("lawgroup_governance"),
        Some("law_republic".to_string())
    );
    assert!(data.apply_template_to_country("missing", "SWE").is_err());
    assert!(data.apply_template_to_country("republic_package", "NOR").is_err());
}

#[test]
fn goods_duplicate_names_resolve_to_last_entry() {
    // Lookups inside the tree take the last occurrence, so both passes
    // over the duplicate name record the same, final cost.
    let tree = parse("iron = { cost = 1 }\niron = { cost = 2 }\n");
    let goods = Goods::from_tree(tree).expect("parses");
    assert_eq!(goods.get_cost("iron"), 2);
}

#[test]
fn scripted_effect_recorded_once() {
    let mut country = Country::from_default("SWE", &default_groups());
    country.set_law(
        "law_republic",
        "lawgroup_governance",
        LawSetBy::ScriptedEffect("eff_x".to_string()),
    );
    country.set_law(
        "law_monarchy",
        "lawgroup_governance",
        LawSetBy::ScriptedEffect("eff_x".to_string()),
    );
    assert_eq!(country.get_law("lawgroup_governance"), Some("law_monarchy".to_string()));
}

#[test]
fn text_helpers() {
    assert!(str_eq("abc", "abc"));
    assert!(!str_eq("abc", "abd"));
    assert!(starts_with("activate_law_x", "activate_law"));
    assert!(!starts_with("act", "activate_law"));
    assert!(contains_str("c:SWE = {", "SWE"));
    assert!(!contains_str("c:SWE", "NOR"));
    assert!(contains_str("anything", ""));
    assert_eq!(escape_eq_str("c:SWE ="), "c:SWE ?=".to_string());
    assert_eq!(replace_all("a = b = c", "=", "?="), "a ?= b ?= c".to_string());
    assert_eq!(replace_all("aaa", "aa", "b"), "ba".to_string());
}
