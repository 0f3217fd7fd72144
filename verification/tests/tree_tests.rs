use clade::generate::generate_newick_tree;
use clade::tree::{build_pruned_tree, get_leaf_nodes_by_rank, write_node_to_newick, Node, NodeRecord};

fn rec(
    node: usize,
    parent: usize,
    name: &str,
    length: Option<&str>,
    bootstrap: Option<&str>,
    rank: Option<&str>,
) -> NodeRecord {
    NodeRecord {
        node,
        parent,
        name: name.to_string(),
        length: length.map(|s| s.to_string()),
        bootstrap: bootstrap.map(|s| s.to_string()),
        rank: rank.map(|s| s.to_string()),
    }
}

/// root 1 (parent 0) with children 2 and 3; 2 has child 4 (species), 3 has
/// child 5 (genus only).
fn table() -> Vec<NodeRecord> {
    vec![
        rec(1, 0, "root", None, None, None),
        rec(2, 1, "inner-a", Some("0.100000"), None, None),
        rec(3, 1, "inner-b", Some("0.200000"), None, None),
        rec(4, 2, "leaf-a", Some("0.300000"), Some("0.95"), Some("species")),
        rec(5, 3, "leaf-b", Some("0.400000"), None, Some("genus")),
    ]
}

#[test]
fn leaves_are_selected_by_rank_membership() {
    let t = table();
    let leaves = get_leaf_nodes_by_rank(&t, &vec!["species".to_string()]);
    assert_eq!(leaves, vec![4]);
    let both = get_leaf_nodes_by_rank(&t, &vec!["species".to_string(), "genus".to_string()]);
    assert_eq!(both, vec![4, 5]);
    let none = get_leaf_nodes_by_rank(&t, &vec!["domain".to_string()]);
    assert!(none.is_empty());
}

#[test]
fn scenario_relational_prune_keeps_ancestors_and_drops_siblings() {
    let t = table();
    let leaves = get_leaf_nodes_by_rank(&t, &vec!["species".to_string()]);
    let root = build_pruned_tree(&t, 1, &leaves).expect("root retained");
    // the chain 1 -> 2 -> 4 survives; the sibling subtree under 3 is absent
    assert_eq!(root.node, 1);
    assert_eq!(root.children.len(), 1);
    assert_eq!(root.children[0].node, 2);
    assert_eq!(root.children[0].children.len(), 1);
    assert_eq!(root.children[0].children[0].node, 4);
    assert!(root.children[0].children[0].children.is_empty());
}

#[test]
fn prune_returns_none_when_nothing_is_retained() {
    let t = table();
    let no_leaves: Vec<usize> = Vec::new();
    assert!(build_pruned_tree(&t, 1, &no_leaves).is_none());
}

#[test]
fn prune_returns_none_for_an_absent_node_id() {
    let t = table();
    assert!(build_pruned_tree(&t, 99, &vec![4]).is_none());
}

#[test]
fn requested_leaf_with_retained_children_stays_internal() {
    let t = table();
    // both 2 and 4 requested: 2 keeps its retained child 4 and stays internal
    let root = build_pruned_tree(&t, 1, &vec![2, 4]).expect("root retained");
    assert_eq!(root.children.len(), 1);
    assert_eq!(root.children[0].node, 2);
    assert_eq!(root.children[0].children.len(), 1);
}

#[test]
fn writer_formats_leaf_with_length_and_bootstrap() {
    let n = Node {
        node: 4,
        parent: 2,
        name: "leaf-a".to_string(),
        length: Some("0.300000".to_string()),
        bootstrap: Some("0.95".to_string()),
        rank: None,
        children: Vec::new(),
    };
    let mut out = String::new();
    write_node_to_newick(&n, &mut out);
    assert_eq!(out, "leaf-a:0.300000[0.95]");
}

#[test]
fn writer_omits_zero_length_and_zero_bootstrap() {
    let n = Node {
        node: 1,
        parent: 0,
        name: "plain".to_string(),
        length: None,
        bootstrap: None,
        rank: None,
        children: Vec::new(),
    };
    let mut out = String::new();
    write_node_to_newick(&n, &mut out);
    assert_eq!(out, "plain");
}

#[test]
fn writer_prefers_species_rank_as_label() {
    let n = Node {
        node: 4,
        parent: 2,
        name: "ignored".to_string(),
        length: None,
        bootstrap: None,
        rank: Some("s__Escherichia coli".to_string()),
        children: Vec::new(),
    };
    let mut out = String::new();
    write_node_to_newick(&n, &mut out);
    // the species rank wins and its space is sanitized to an underscore
    assert_eq!(out, "s__Escherichia_coli");
}

#[test]
fn writer_keeps_name_for_non_species_rank() {
    let n = Node {
        node: 5,
        parent: 3,
        name: "kept-name".to_string(),
        length: None,
        bootstrap: None,
        rank: Some("g__Some genus".to_string()),
        children: Vec::new(),
    };
    let mut out = String::new();
    write_node_to_newick(&n, &mut out);
    assert_eq!(out, "kept-name");
}

#[test]
fn writer_sanitizes_semicolons_and_spaces() {
    let n = Node {
        node: 1,
        parent: 0,
        name: "a;b c".to_string(),
        length: None,
        bootstrap: None,
        rank: None,
        children: Vec::new(),
    };
    let mut out = String::new();
    write_node_to_newick(&n, &mut out);
    assert_eq!(out, "a+b_c");
}

#[test]
fn writer_joins_children_with_commas() {
    let leaf = |id: usize, name: &str| Node {
        node: id,
        parent: 1,
        name: name.to_string(),
        length: None,
        bootstrap: None,
        rank: None,
        children: Vec::new(),
    };
    let n = Node {
        node: 1,
        parent: 0,
        name: "p".to_string(),
        length: None,
        bootstrap: None,
        rank: None,
        children: vec![leaf(2, "x"), leaf(3, "y"), leaf(4, "z")],
    };
    let mut out = String::new();
    write_node_to_newick(&n, &mut out);
    assert_eq!(out, "(x,y,z)p");
}

#[test]
fn generate_newick_tree_terminates_with_semicolon() {
    let t = table();
    let out = generate_newick_tree(&t, &vec!["species".to_string()]);
    assert_eq!(out, "((leaf-a:0.300000[0.95])inner-a:0.100000)root;");
}

#[test]
fn generate_newick_tree_is_empty_when_nothing_matches() {
    let t = table();
    let out = generate_newick_tree(&t, &vec!["phylum".to_string()]);
    assert_eq!(out, "");
}
