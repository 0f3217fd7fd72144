use clade::errors::TaxoError;
use clade::taxo::{
    prune_taxonomy, prune_taxonomy_by_names, taxonomy_to_newick, TaxonRecord, Taxonomy,
};

fn strings(v: &[&str]) -> Vec<String> {
    v.iter().map(|s| s.to_string()).collect()
}

/// The three-node scenario store: root, Bacteria under it, E.coli under that.
fn scenario_store() -> Taxonomy {
    Taxonomy::new(
        strings(&["1", "2", "3"]),
        vec![0, 0, 1],
        strings(&["root", "Bacteria", "E.coli"]),
        strings(&["no rank", "domain", "species"]),
        strings(&["1", "1", "1"]),
    )
}

/// A wider store: root 0 with children 1 and 2; 1 has children 3 and 4.
fn wide_store() -> Taxonomy {
    Taxonomy::new(
        strings(&["10", "20", "30", "40", "50"]),
        vec![0, 0, 0, 1, 1],
        strings(&["r", "a", "b", "c", "d"]),
        strings(&["no rank", "genus", "genus", "species", "species"]),
        strings(&["1", "2", "3", "4", "5"]),
    )
}

#[test]
fn prune_by_empty_id_set_yields_zero_node_store() {
    let t = wide_store();
    let p = t.prune_by_taxids(&[]);
    assert_eq!(p.taxid_vec.len(), 0);
    assert_eq!(p.parentid_vec.len(), 0);
    assert_eq!(p.name_vec.len(), 0);
    assert_eq!(p.rank_vec.len(), 0);
    assert_eq!(p.parent_distances.len(), 0);
}

#[test]
fn encode_of_zero_node_store_is_empty_result() {
    let t = wide_store();
    let p = t.prune_by_taxids(&[]);
    assert_eq!(p.to_newick(), Err(TaxoError::EmptyResult));
}

#[test]
fn prune_by_single_id_keeps_exactly_the_chain() {
    let t = wide_store();
    let p = t.prune_by_taxids(&strings(&["40"]));
    // the chain of "40" is 40 -> 20 -> 10: depth 2, so 3 nodes survive
    assert_eq!(p.taxid_vec, strings(&["10", "20", "40"]));
    assert_eq!(p.parentid_vec, vec![0, 0, 1]);
    assert_eq!(p.name_vec, strings(&["r", "a", "c"]));
}

#[test]
fn prune_is_idempotent() {
    let t = wide_store();
    let ids = strings(&["40", "30"]);
    let once = t.prune_by_taxids(&ids);
    let twice = once.prune_by_taxids(&ids);
    assert_eq!(once.taxid_vec, twice.taxid_vec);
    assert_eq!(once.parentid_vec, twice.parentid_vec);
    assert_eq!(once.name_vec, twice.name_vec);
    assert_eq!(once.rank_vec, twice.rank_vec);
    assert_eq!(once.parent_distances, twice.parent_distances);
}

#[test]
fn scenario_array_prune_keeps_all_three_in_order() {
    let t = scenario_store();
    let p = t.prune_by_taxids(&strings(&["3"]));
    assert_eq!(p.taxid_vec, strings(&["1", "2", "3"]));
    assert_eq!(p.parentid_vec, vec![0, 0, 1]);
    assert_eq!(
        p.to_newick().unwrap(),
        "((E.coli_3_1)Bacteria_2:1)root_1:0"
    );
}

#[test]
fn unknown_ids_are_silently_dropped() {
    let t = wide_store();
    let p = t.prune_by_taxids(&strings(&["40", "no-such-id"]));
    assert_eq!(p.taxid_vec, strings(&["10", "20", "40"]));
}

#[test]
fn prune_by_names_resolves_first_match() {
    let mut t = wide_store();
    // two nodes named "c": positions 3 and 2 (renamed); the first one wins
    t.name_vec[2] = "c".to_string();
    let p = t.prune_by_names(&strings(&["c"]));
    // first position named "c" is 2 (taxid 30), whose chain is 30 -> 10
    assert_eq!(p.taxid_vec, strings(&["10", "30"]));
}

#[test]
fn prune_by_unknown_name_yields_zero_node_store() {
    let t = wide_store();
    let p = t.prune_by_names(&strings(&["nobody"]));
    assert_eq!(p.taxid_vec.len(), 0);
}

#[test]
fn free_functions_delegate() {
    let t = scenario_store();
    let p = prune_taxonomy(&t, &strings(&["3"]));
    assert_eq!(p.taxid_vec.len(), 3);
    let q = prune_taxonomy_by_names(&t, &strings(&["E.coli"]));
    assert_eq!(q.taxid_vec.len(), 3);
    assert_eq!(
        taxonomy_to_newick(&t).unwrap(),
        "((E.coli_3_1)Bacteria_2:1)root_1:0"
    );
}

#[test]
fn root_distance_is_forced_to_zero() {
    let t = Taxonomy::new(
        strings(&["1", "2"]),
        vec![0, 0],
        strings(&["r", "x"]),
        strings(&["no rank", "species"]),
        strings(&["7.5", "2.25"]),
    );
    // the root's stored distance 7.5 is overridden with 0; the leaf keeps its own
    assert_eq!(t.to_newick().unwrap(), "(x_2_2.25)r_1:0");
}

#[test]
fn single_node_store_encodes_as_leaf_with_stored_distance() {
    let t = Taxonomy::new(
        strings(&["9"]),
        vec![0],
        strings(&["solo"]),
        strings(&["no rank"]),
        strings(&["3.5"]),
    );
    assert_eq!(t.to_newick().unwrap(), "solo_9_3.5");
}

#[test]
fn store_without_root_is_empty_result() {
    // 0 -> 1 and 1 -> 0: no self-referential position exists
    let t = Taxonomy::new(
        strings(&["1", "2"]),
        vec![1, 0],
        strings(&["a", "b"]),
        strings(&["x", "y"]),
        strings(&["1", "1"]),
    );
    assert_eq!(t.to_newick(), Err(TaxoError::EmptyResult));
}

#[test]
fn children_are_visited_in_ascending_position_order() {
    let t = wide_store();
    assert_eq!(
        t.to_newick().unwrap(),
        "((c_40_4,d_50_5)a_20:2,b_30_3)r_10:0"
    );
}

#[test]
fn leaf_count_matches_zero_child_positions() {
    let t = wide_store();
    // positions with zero children: 30, 40, 50
    let newick = t.to_newick().unwrap();
    // leaf labels are the distinct labels with no descendants: the ones not
    // directly preceded by a closing parenthesis
    let mut leaf_labels: Vec<&str> = Vec::new();
    for part in newick.split(|c| c == '(' || c == ',' || c == ')') {
        if !part.is_empty() && !part.contains(':') {
            leaf_labels.push(part);
        }
    }
    leaf_labels.sort();
    leaf_labels.dedup();
    assert_eq!(leaf_labels.len(), 3);
}

#[test]
fn from_records_resolves_parents_with_fallback() {
    let recs = vec![
        TaxonRecord {
            taxid: "1".to_string(),
            parent_taxid: "1".to_string(),
            name: "root".to_string(),
            rank: "no rank".to_string(),
            parent_distance: "1".to_string(),
        },
        TaxonRecord {
            taxid: "2".to_string(),
            parent_taxid: "1".to_string(),
            name: "Bacteria".to_string(),
            rank: "domain".to_string(),
            parent_distance: "1".to_string(),
        },
        TaxonRecord {
            taxid: "3".to_string(),
            parent_taxid: "missing".to_string(),
            name: "orphan".to_string(),
            rank: "species".to_string(),
            parent_distance: "1".to_string(),
        },
    ];
    let t = Taxonomy::from_records(&recs);
    assert_eq!(t.taxid_vec, strings(&["1", "2", "3"]));
    // "1" resolves to position 0; "missing" falls back to position 0
    assert_eq!(t.parentid_vec, vec![0, 0, 0]);
    assert_eq!(t.name_vec, strings(&["root", "Bacteria", "orphan"]));
}

#[test]
fn from_records_duplicate_taxid_resolves_to_last() {
    let mk = |taxid: &str, parent: &str| TaxonRecord {
        taxid: taxid.to_string(),
        parent_taxid: parent.to_string(),
        name: String::new(),
        rank: String::new(),
        parent_distance: "1".to_string(),
    };
    let recs = vec![mk("1", "1"), mk("7", "1"), mk("7", "1"), mk("2", "7")];
    let t = Taxonomy::from_records(&recs);
    // the parent id "7" resolves to the later of the two positions bearing it
    assert_eq!(t.parentid_vec, vec![0, 0, 0, 2]);
}
