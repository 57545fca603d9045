use serde_env::tree::Node;

fn pairs(items: &[(&str, &str)]) -> Vec<(String, String)> {
    let mut v: Vec<(String, String)> = Vec::new();
    for (k, val) in items {
        v.push((k.to_string(), val.to_string()));
    }
    v
}

#[test]
fn single_flat_key_round_trip() {
    let tree = Node::from_pairs(&pairs(&[("HOME", "/test")]));
    let node = tree.get("HOME").expect("key must resolve");
    assert_eq!(node.value(), "/test");
    let node = tree.get("home").expect("case-folded key must resolve");
    assert_eq!(node.value(), "/test");
}

#[test]
fn nested_paths_from_underscores() {
    let tree = Node::from_pairs(&pairs(&[("D_AA", "1.2"), ("D_BB", "hi")]));
    let d = tree.get("d").expect("intermediate node exists");
    assert!(d.has_children());
    assert_eq!(d.value(), "");
    assert_eq!(tree.get("d_aa").expect("leaf").value(), "1.2");
    assert_eq!(tree.get("D_BB").expect("leaf").value(), "hi");
    assert!(tree.get("d_cc").is_none());
}

#[test]
fn last_write_wins() {
    let tree = Node::from_pairs(&pairs(&[("ENABLE", "True"), ("enable", "False")]));
    assert_eq!(tree.get("enable").expect("leaf").value(), "False");
}

#[test]
fn get_is_idempotent() {
    let tree = Node::from_pairs(&pairs(&[("D_AA", "1.2"), ("D_BB", "hi")]));
    let first = tree.get("d").expect("node");
    let second = tree.get("d").expect("node");
    assert!(first.deep_eq(second));
}

#[test]
fn prefix_filtering_keeps_only_matching_pairs() {
    let tree = Node::from_pairs_with_prefix(
        &pairs(&[
            ("TEST_ENV_HOME", "/test"),
            ("TEST_ENV_PATH", "foo:bar"),
            ("OTHER_X", "z"),
        ]),
        "TEST_ENV",
    );
    assert_eq!(tree.get("home").expect("stripped key").value(), "/test");
    assert_eq!(tree.get("path").expect("stripped key").value(), "foo:bar");
    assert!(tree.get("other_x").is_none());
    assert!(tree.get("x").is_none());
    let mut keys = tree.flatten("");
    keys.sort();
    assert_eq!(keys, vec!["home".to_string(), "path".to_string()]);
}

#[test]
fn prefix_equal_key_strips_whole_key() {
    let tree = Node::from_pairs_with_prefix(&pairs(&[("APP", "root")]), "APP");
    // The whole key matched the prefix, so the value lands on the path of the
    // empty remainder.
    let node = tree.get("").expect("empty remainder resolves");
    assert_eq!(node.value(), "root");
}

#[test]
fn flatten_lists_every_leaf_and_get_resolves_each() {
    let tree = Node::from_pairs(&pairs(&[
        ("A_B_C", "1"),
        ("A_B_D", "2"),
        ("E", "3"),
    ]));
    let mut keys = tree.flatten("");
    keys.sort();
    assert_eq!(
        keys,
        vec!["a_b_c".to_string(), "a_b_d".to_string(), "e".to_string()]
    );
    for key in &keys {
        assert!(tree.get(key.as_str()).is_some());
    }
    assert_eq!(tree.get("a_b_c").expect("leaf").value(), "1");
}

#[test]
fn flatten_with_prefix_joins_with_underscore() {
    let tree = Node::from_pairs(&pairs(&[("X_Y", "v")]));
    let keys = tree.flatten("pre");
    assert_eq!(keys, vec!["pre_x_y".to_string()]);
}

#[test]
fn flatten_skips_nodes_with_children_even_if_valued() {
    let tree = Node::from_pairs(&pairs(&[
        ("PUB", "shared"),
        ("PUB_HOSTED_URL", "https://pub.dev"),
    ]));
    // `pub` carries both a value and children; only the true leaf appears.
    let keys = tree.flatten("");
    assert_eq!(keys, vec!["pub_hosted_url".to_string()]);
    assert_eq!(tree.get("pub").expect("valued inner node").value(), "shared");
    assert_eq!(
        tree.get("pub_hosted_url").expect("leaf").value(),
        "https://pub.dev"
    );
}

#[test]
fn case_folded_keys_read_back_lowercase() {
    let tree = Node::from_pairs(&pairs(&[("METASRV_LOG_LEVEL", "DEBUG")]));
    let keys = tree.flatten("");
    assert_eq!(keys, vec!["metasrv_log_level".to_string()]);
    assert_eq!(
        tree.get("metasrv_log_level").expect("leaf").value(),
        "DEBUG"
    );
}

#[test]
fn empty_and_value_nodes() {
    let tree = Node::from_pairs(&pairs(&[("SILENT", ""), ("T2", "x")]));
    let silent = tree.get("silent").expect("key present");
    assert!(silent.is_empty());
    assert!(!silent.has_children());
    let t2 = tree.get("t2").expect("key present");
    assert!(!t2.is_empty());
    assert_eq!(t2.duplicate().into_value(), "x".to_string());
}

#[test]
fn new_node_holds_value_only() {
    let node = Node::new("42".to_string());
    assert_eq!(node.value(), "42");
    assert!(!node.has_children());
    assert!(!node.is_empty());
    assert_eq!(node.into_value(), "42".to_string());
}
