use vic3_parser::parser::Parser;
use vic3_parser::tree::TreeError;
use vic3_parser::utils::stringify_tree;
use vic3_parser::Node;

fn parse(text: &str) -> vic3_parser::Tree {
    Parser::new().parse(text.to_string()).expect("well-formed input")
}

#[test]
fn block_with_key_value() {
    // A block whose single entry is a key-value pair.
    let tree = parse("foo = { bar = baz }\n");
    assert_eq!(tree.get_children_names(), vec!["foo".to_string()]);
    let foo = tree.get("foo").expect("foo exists");
    assert_eq!(foo.get_children_names(), vec!["bar".to_string()]);
    let bar = foo.get("bar").expect("bar exists");
    assert_eq!(bar.value().expect("bar is a pair"), "baz".to_string());
}

#[test]
fn bare_tokens_become_leaves() {
    // Three bare tokens at top level become three leaf children in order.
    let tree = parse("a\nb\nc\n");
    assert_eq!(
        tree.get_children_names(),
        vec!["a".to_string(), "b".to_string(), "c".to_string()]
    );
    let a = tree.get("a").expect("a exists");
    assert!(matches!(a.value(), Err(TreeError::NotLeaf)));
}

#[test]
fn comments_produce_no_nodes() {
    let tree = parse("# comment\nfoo = 1\n");
    assert_eq!(tree.get_children_names(), vec!["foo".to_string()]);
    assert_eq!(tree.get("foo").unwrap().value().unwrap(), "1".to_string());
}

#[test]
fn comment_glued_to_token_truncates_line() {
    // A `#` anywhere truncates the rest of its line, even mid-token.
    let tree = parse("foo = 1 #tail junk = { \nbar = 2\n");
    assert_eq!(
        tree.get_children_names(),
        vec!["foo".to_string(), "bar".to_string()]
    );
}

#[test]
fn unmatched_close_is_malformed() {
    let r = Parser::new().parse("}\n".to_string());
    assert!(matches!(r, Err(TreeError::MalformedInput)));
}

#[test]
fn deep_unmatched_close_is_malformed() {
    let r = Parser::new().parse("a = { x }\n}\n".to_string());
    assert!(matches!(r, Err(TreeError::MalformedInput)));
}

#[test]
fn leaf_list_inside_block() {
    let tree = parse("flags = { one two three }\n");
    let flags = tree.get("flags").expect("flags exists");
    assert_eq!(
        flags.get_children_names(),
        vec!["one".to_string(), "two".to_string(), "three".to_string()]
    );
}

#[test]
fn pending_leaves_before_a_pair_are_discarded() {
    // A bare token run is only committed when its scope closes; an `=`
    // decides the run was leading up to a key instead.
    let tree = parse("g = { x k = v }\n");
    let g = tree.get("g").expect("g exists");
    assert_eq!(g.get_children_names(), vec!["k".to_string()]);
}

#[test]
fn fresh_ids_per_node() {
    // One id for the key, one for the value, counter one past the last.
    let tree = parse("a = b\n");
    assert_eq!(tree.get_highest_id(), 3);
}

#[test]
fn empty_input_gives_empty_root() {
    let tree = parse("");
    assert_eq!(tree.get_children_names().len(), 0);
    assert_eq!(tree.get_highest_id(), 1);
}

#[test]
fn unclosed_scope_is_kept_at_end_of_input() {
    let tree = parse("a = { x\n");
    let a = tree.get("a").expect("a exists");
    assert_eq!(a.get_children_names(), vec!["x".to_string()]);
}

#[test]
fn nested_scopes() {
    let tree = parse("a = {\n  b = {\n    c = 1\n    d = 2\n  }\n  e = 3\n}\n");
    let a = tree.get("a").unwrap();
    assert_eq!(
        a.get_children_names(),
        vec!["b".to_string(), "e".to_string()]
    );
    let b = a.get("b").unwrap();
    assert_eq!(b.get("c").unwrap().value().unwrap(), "1");
    assert_eq!(b.get("d").unwrap().value().unwrap(), "2");
    assert_eq!(a.get("e").unwrap().value().unwrap(), "3");
}

#[test]
fn serialize_exact_text() {
    // Entries sit one indent level below the synthetic root.
    let tree = parse("a = b\n");
    assert_eq!(tree.serialize(), "  a = b\n");
}

#[test]
fn serialize_block_text() {
    let tree = parse("g = { k = v j = w }\n");
    assert_eq!(tree.serialize(), "  g = {\n    k = v\n    j = w\n  }\n");
}

#[test]
fn serialize_single_child_scope_as_pair() {
    // A scope holding exactly one entry prints as `name = value`; its
    // grandchildren are lost. This is why the round-trip law asks that a
    // single-child node hold a bare value.
    let tree = parse("g = { k = v }\n");
    assert_eq!(tree.serialize(), "  g = k\n");
}

#[test]
fn parse_serialize_parse_keeps_shape() {
    // The round-trip law, on a concrete document.
    let text = "country = {\n  laws = {\n    a = 1\n    b = 2\n  }\n  flag\n}\nx = y\n";
    let tree = parse(text);
    let again = parse(&tree.serialize());
    assert_eq!(tree.get_children_names(), again.get_children_names());
    let c1 = tree.get("country").unwrap();
    let c2 = again.get("country").unwrap();
    assert_eq!(c1.get_children_names(), c2.get_children_names());
    assert_eq!(
        c1.get("laws").unwrap().get_children_names(),
        c2.get("laws").unwrap().get_children_names()
    );
    assert_eq!(
        c1.get("laws").unwrap().get("a").unwrap().value().unwrap(),
        c2.get("laws").unwrap().get("a").unwrap().value().unwrap()
    );
}

#[test]
fn whitespace_variants_tokenize_alike() {
    let t1 = parse("a = b\n");
    let t2 = parse("  a\t=\t b \r\n");
    assert_eq!(t1.serialize(), t2.serialize());
}

#[test]
fn empty_block_parses_to_childless_node() {
    let tree = parse("k = { }\n");
    let k = tree.get("k").expect("k exists");
    assert_eq!(k.get_children_names().len(), 0);
    assert!(matches!(k.value(), Err(TreeError::NotLeaf)));
}

#[test]
fn unicode_whitespace_separates_tokens() {
    let tree = parse("a\u{00A0}=\u{3000}b\n");
    assert_eq!(tree.get("a").unwrap().value().unwrap(), "b");
}

#[test]
fn pair_may_span_lines() {
    // The equals marker survives a line break; only comments are
    // line-bounded.
    let tree = parse("x =\n1\n");
    assert_eq!(tree.get("x").unwrap().value().unwrap(), "1");
}

#[test]
fn leaves_after_closed_block_stay_at_outer_level() {
    let tree = parse("g = { a b } c\n");
    assert_eq!(
        tree.get_children_names(),
        vec!["g".to_string(), "c".to_string()]
    );
    assert_eq!(
        tree.get("g").unwrap().get_children_names(),
        vec!["a".to_string(), "b".to_string()]
    );
}

#[test]
fn close_right_after_equals_is_malformed() {
    let r = Parser::new().parse("x = }\n".to_string());
    assert!(matches!(r, Err(TreeError::MalformedInput)));
}

#[test]
fn stringify_tree_lists_names() {
    let mut root = Node::new("top".to_string(), 0);
    let mut mid = Node::new("mid".to_string(), 1);
    mid.add_child(Node::new("leaf".to_string(), 2));
    root.add_child(mid);
    assert_eq!(stringify_tree(&root, 0), "top\n  mid\n    leaf\n");
    assert_eq!(stringify_tree(&root, 1), "  top\n    mid\n      leaf\n");
}
