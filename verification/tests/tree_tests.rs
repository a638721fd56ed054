use vic3_parser::data::{IsCountry, WriteAction};
use vic3_parser::parser::Parser;
use vic3_parser::scanner::Scanner;
use vic3_parser::tree::TreeError;
use vic3_parser::utils::{generate_tree, generate_trees, generate_trees_and_remember_files,
    merge_trees};
use vic3_parser::Tree;

fn parse(text: &str) -> Tree {
    Parser::new().parse(text.to_string()).expect("well-formed input")
}

#[test]
fn get_takes_last_match() {
    // Duplicate names resolve to the last occurrence, the merge-override
    // point.
    let tree = parse("a = 1\na = 2\n");
    assert_eq!(tree.get("a").unwrap().value().unwrap(), "2");
}

#[test]
fn get_missing_scope_fails() {
    let tree = parse("a = 1\n");
    assert!(matches!(tree.get("b"), Err(TreeError::ScopeNotFound)));
}

#[test]
fn get_composition_matches_get_scope() {
    // tree.get("x").get("y") equals tree.get_scope(["x", "y"]).
    let tree = parse("x = { y = { z = 1 } }\nother = 2\n");
    let step = tree.get("x").unwrap().get("y").unwrap();
    let path = vec!["x".to_string(), "y".to_string()];
    let direct = tree.get_scope(&path).unwrap();
    assert_eq!(step.get_name(), direct.get_name());
    assert_eq!(step.get_children_names(), direct.get_children_names());
    assert_eq!(step.get_highest_id(), direct.get_highest_id());
    let missing = vec!["x".to_string(), "nope".to_string()];
    assert!(matches!(tree.get_scope(&missing), Err(TreeError::ScopeNotFound)));
}

#[test]
fn value_requires_exactly_one_child() {
    let tree = parse("pair = 1\nblock = { a = 1 b = 2 }\nleaf\n");
    assert_eq!(tree.get("pair").unwrap().value().unwrap(), "1");
    assert!(matches!(tree.get("block").unwrap().value(), Err(TreeError::NotLeaf)));
    assert!(matches!(tree.get("leaf").unwrap().value(), Err(TreeError::NotLeaf)));
}

#[test]
fn from_key_value_and_add_child() {
    let mut tree = Tree::default();
    tree.add_child(Tree::from_key_value("k", "v", 5));
    assert_eq!(tree.get("k").unwrap().value().unwrap(), "v");
}

#[test]
fn with_named_root_and_add_child_tree() {
    let mut wrapper = Tree::with_named_root("COUNTRIES");
    wrapper.add_child_tree(parse("x = 1\n").get("x").unwrap());
    assert_eq!(wrapper.get_name(), "COUNTRIES");
    assert_eq!(wrapper.get_children_names(), vec!["x".to_string()]);
}

#[test]
fn get_name_strips_byte_order_mark() {
    let wrapper = Tree::with_named_root("\u{feff}laws");
    assert_eq!(wrapper.get_name(), "laws");
}

#[test]
fn children_names_filtered() {
    let tree = parse("law_a = 1\nother = 2\nlaw_b = 3\n");
    let names = tree.get_children_names_filtered(|s: &String| s.starts_with("law_"));
    assert_eq!(names, vec!["law_a".to_string(), "law_b".to_string()]);
}

#[test]
fn search_child_finds_first() {
    let tree = parse("alpha = 1\nbeta = 2\nbexact = 3\n");
    let hit = tree.search_child(|s: &String| s.starts_with("b")).expect("match");
    assert_eq!(hit.get_name(), "beta");
    assert!(tree.search_child(|s: &String| s.starts_with("zz")).is_none());
}

#[test]
fn delete_children_filtered_removes_matches() {
    let tree = parse("activate_law = a\nkeep = 1\nactivate_law = b\n");
    let cleaned = tree.delete_children_filtered(|s: &String| s.starts_with("activate_law"));
    assert_eq!(cleaned.get_children_names(), vec!["keep".to_string()]);
    // The source handle still sees the original children.
    assert_eq!(tree.get_children_names().len(), 3);
}

#[test]
fn delete_children_filtered_twice_equals_once() {
    // Idempotence of deletion under one filter.
    let tree = parse("activate_law = a\nkeep = 1\nactivate_law = b\nother = 2\n");
    let once = tree.delete_children_filtered(|s: &String| s.starts_with("activate_law"));
    let twice = once.delete_children_filtered(|s: &String| s.starts_with("activate_law"));
    assert_eq!(once.serialize(), twice.serialize());
    assert_eq!(once.get_highest_id(), twice.get_highest_id());
}

#[test]
fn merge_keeps_both_sides() {
    let a = parse("laws = { x }\n");
    let b = parse("laws = { y }\nextra = 1\n");
    let merged = a.merge(&b);
    assert_eq!(
        merged.get_children_names(),
        vec!["laws".to_string(), "laws".to_string(), "extra".to_string()]
    );
    // Fresh ids for the spliced children start at the old counter.
    assert_eq!(merged.get_highest_id(), a.get_highest_id() + 2);
    // Lookup resolves to the last laws block, the one spliced from b.
    assert_eq!(
        merged.get("laws").unwrap().get_children_names(),
        vec!["y".to_string()]
    );
}

#[test]
fn merged_file_blocks_stay_separate() {
    // Two files each with a laws block: the merge holds two laws children,
    // each still independently reachable.
    let a = parse("laws = { a }\n");
    let b = parse("laws = { a }\n");
    let merged = a.merge(&b);
    let names = merged.get_children_names();
    assert_eq!(names, vec!["laws".to_string(), "laws".to_string()]);
    let first = merged.search_child(|s: &String| s == "laws").expect("first laws");
    assert_eq!(first.get_children_names(), vec!["a".to_string()]);
}

#[test]
fn move_up_splices_grandchildren() {
    let tree = parse("COUNTRIES = {\n c:AAA = { x = 1 }\n c:BBB = { y = 2 }\n}\nignored = 3\n");
    let flat = tree.move_up("COUNTRIES");
    assert_eq!(
        flat.get_children_names(),
        vec!["c:AAA".to_string(), "c:BBB".to_string()]
    );
    assert_eq!(flat.get("c:AAA").unwrap().get("x").unwrap().value().unwrap(), "1");
}

#[test]
fn into_iter_covers_children_in_reverse() {
    let tree = parse("a = 1\nb = 2\nc = 3\n");
    let mut it = tree.into_iter();
    let mut seen = Vec::new();
    while let Some(t) = it.next() {
        seen.push(t.get_name());
    }
    assert_eq!(seen, vec!["c".to_string(), "b".to_string(), "a".to_string()]);
}

#[test]
fn into_iter_filtered_covers_matches() {
    let tree = parse("law_a = 1\nskip = 2\nlaw_b = 3\n");
    let mut it = tree.into_iter_filtered(|s: &String| s.starts_with("law_"));
    let mut seen = Vec::new();
    while let Some(t) = it.next() {
        seen.push(t.get_name());
    }
    assert_eq!(seen, vec!["law_b".to_string(), "law_a".to_string()]);
}

#[test]
fn merge_trees_folds_left_to_right() {
    let trees = vec![parse("a = 1\n"), parse("b = 2\n"), parse("c = 3\n")];
    let merged = merge_trees(&trees);
    assert_eq!(
        merged.get_children_names(),
        vec!["a".to_string(), "b".to_string(), "c".to_string()]
    );
    // Each splice advances the id counter past the identities it minted,
    // so repeated merges keep minting fresh ones.
    assert_eq!(merged.get_highest_id(), 5);
}

#[test]
fn merge_trees_empty_input() {
    let merged = merge_trees(&[]);
    assert_eq!(merged.get_name(), "empty");
    assert_eq!(merged.get_highest_id(), 1);
}

#[test]
fn generate_trees_parses_each_text() {
    let texts = vec!["a = 1\n".to_string(), "b = 2\n".to_string()];
    let trees = generate_trees(texts).expect("all well-formed");
    assert_eq!(trees.len(), 2);
    assert_eq!(trees[0].get_children_names(), vec!["a".to_string()]);
    assert_eq!(trees[1].get_children_names(), vec!["b".to_string()]);
    assert!(matches!(
        generate_trees(vec!["}\n".to_string()]),
        Err(TreeError::MalformedInput)
    ));
}

#[test]
fn generate_trees_and_remember_files_keeps_identifiers() {
    let files = vec![
        ("one.txt".to_string(), "a = 1\n".to_string()),
        ("two.txt".to_string(), "b = 2\n".to_string()),
    ];
    let pairs = generate_trees_and_remember_files(files).expect("all well-formed");
    assert_eq!(pairs[0].0, "one.txt");
    assert_eq!(pairs[1].0, "two.txt");
    assert_eq!(pairs[1].1.get_children_names(), vec!["b".to_string()]);
}

#[test]
fn generate_tree_merges_all() {
    let texts = vec!["laws = { a }\n".to_string(), "laws = { b }\n".to_string()];
    let tree = generate_tree(texts).expect("all well-formed");
    assert_eq!(
        tree.get_children_names(),
        vec!["laws".to_string(), "laws".to_string()]
    );
}

#[test]
fn scanner_unwraps_countries_blocks() {
    let scanner = Scanner::new("/mod".to_string(), "/game".to_string());
    assert_eq!(scanner.get_mod_path(), "/mod");
    assert_eq!(scanner.get_game_path(), "/game");
    let files = vec![(
        "aaa.txt".to_string(),
        parse("COUNTRIES = {\n c:AAA = { x = 1 }\n}\n"),
    )];
    let unwrapped = scanner.countries_per_file(files);
    assert_eq!(unwrapped.len(), 1);
    assert_eq!(unwrapped[0].0, "aaa.txt");
    assert_eq!(
        unwrapped[0].1.get_children_names(),
        vec!["c:AAA".to_string()]
    );
}

#[test]
fn get_scope_empty_path_is_whole_tree() {
    let tree = parse("a = 1\n");
    let same = tree.get_scope(&Vec::new()).expect("empty path resolves");
    assert_eq!(same.get_children_names(), tree.get_children_names());
}

#[test]
fn named_root_serializes_with_header() {
    let mut tree = Tree::with_named_root("WRAP");
    tree.add_child(Tree::from_key_value("k", "v", 1));
    tree.add_child(Tree::from_key_value("k2", "v2", 3));
    assert_eq!(tree.serialize(), "WRAP = {\n  k = v\n  k2 = v2\n}\n");
}

#[test]
fn move_up_matches_by_substring() {
    let tree = parse("MY_COUNTRIES_X = { inner = 1 }\nplain = { other = 2 }\n");
    let flat = tree.move_up("COUNTRIES");
    assert_eq!(flat.get_children_names(), vec!["inner".to_string()]);
}

#[test]
fn write_action_escapes_marker() {
    let content = parse("c:SWE = { x = 1 y = 2 }\nc:NOR = { x = 3 z = 4 }\n");
    let action = WriteAction::new(
        "out.txt",
        content,
        IsCountry::Yes("c:SWE =".to_string()),
    );
    assert_eq!(action.get_file(), "out.txt");
    let text = action.serialized_content();
    assert!(text.contains("c:SWE ?="));
    assert!(!text.contains("c:SWE ="));
    assert!(text.contains("c:NOR = {"));
}

#[test]
fn write_action_plain_serialization() {
    let action = WriteAction::new("out.txt", parse("a = b\n"), IsCountry::No);
    assert_eq!(action.serialized_content(), "  a = b\n");
    assert_eq!(action.get_content().get_children_names(), vec!["a".to_string()]);
}
