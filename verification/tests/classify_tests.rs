use clade::errors::TaxoError;
use clade::generate::{classify, resolve};
use clade::gtdb::{classify_domain_file, DomainFile};

fn strings(v: &[&str]) -> Vec<String> {
    v.iter().map(|s| s.to_string()).collect()
}

fn pairs(v: &[(&str, &str)]) -> Vec<(String, String)> {
    v.iter().map(|(a, b)| (a.to_string(), b.to_string())).collect()
}

#[test]
fn scenario_classifier_partitions_the_three_shapes() {
    let c = classify(&strings(&["9606", "s__Escherichia coli", "GCF_000005825.2"])).unwrap();
    assert_eq!(c.taxids, strings(&["9606"]));
    assert_eq!(c.labels, strings(&["s__Escherichia coli"]));
    // the captured value is the numeric suffix, not the whole token
    assert_eq!(c.accessions, strings(&["000005825.2"]));
}

#[test]
fn scenario_classifier_rejects_unrecognized_token() {
    let err = classify(&strings(&["9606", "???"])).unwrap_err();
    assert_eq!(err, TaxoError::MalformedInput("???".to_string()));
}

#[test]
fn classification_fails_on_the_first_bad_token() {
    let err = classify(&strings(&["!!", "??"])).unwrap_err();
    assert_eq!(err, TaxoError::MalformedInput("!!".to_string()));
}

#[test]
fn all_seven_rank_prefixes_are_labels() {
    let toks = strings(&[
        "c__x", "d__x", "f__x", "g__x", "o__x", "p__x", "s__x",
    ]);
    let c = classify(&toks).unwrap();
    assert_eq!(c.labels.len(), 7);
    assert!(c.taxids.is_empty());
    assert!(c.accessions.is_empty());
}

#[test]
fn empty_token_counts_as_taxid() {
    // every character of an empty token is vacuously numeric
    let c = classify(&strings(&[""])).unwrap();
    assert_eq!(c.taxids, strings(&[""]));
}

#[test]
fn prefixed_accession_is_recognized() {
    let c = classify(&strings(&["RS_GCF_000005825.2"])).unwrap();
    assert_eq!(c.accessions, strings(&["000005825.2"]));
}

#[test]
fn accession_match_may_start_inside_the_token() {
    // the pattern is unanchored: the match starts at the first position it fits
    let c = classify(&strings(&["xGCA_123.4"])).unwrap();
    assert_eq!(c.accessions, strings(&["123.4"]));
}

#[test]
fn accession_needs_digits_on_both_sides_of_the_dot() {
    let err = classify(&strings(&["GCF_123."])).unwrap_err();
    assert_eq!(err, TaxoError::MalformedInput("GCF_123.".to_string()));
}

#[test]
fn accession_capture_stops_at_second_dot() {
    let c = classify(&strings(&["GCF_1.2.3"])).unwrap();
    assert_eq!(c.accessions, strings(&["1.2"]));
}

#[test]
fn resolve_passes_labels_through_and_maps_rows_to_parents() {
    let out = resolve(
        &strings(&["s__a", "s__b"]),
        &strings(&["s__a", "s__b"]),
        &strings(&["9606"]),
        &pairs(&[("9606", "s__Homo sapiens")]),
        &strings(&["000005825.2"]),
        &pairs(&[("000005825.2", "s__Bacillus pseudofirmus")]),
    )
    .unwrap();
    assert_eq!(
        out,
        strings(&["s__a", "s__b", "s__Homo sapiens", "s__Bacillus pseudofirmus"])
    );
}

#[test]
fn scenario_missing_taxid_yields_single_not_found_with_exactly_that_id() {
    let err = resolve(
        &strings(&[]),
        &strings(&[]),
        &strings(&["1", "2", "3"]),
        &pairs(&[("1", "s__one"), ("3", "s__three")]),
        &strings(&[]),
        &pairs(&[]),
    )
    .unwrap_err();
    assert_eq!(err, TaxoError::NotFound(strings(&["2"])));
}

#[test]
fn shortfalls_are_collected_across_all_batches() {
    let err = resolve(
        &strings(&["s__a"]),
        &strings(&[]),
        &strings(&["7"]),
        &pairs(&[]),
        &strings(&["1.2"]),
        &pairs(&[]),
    )
    .unwrap_err();
    assert_eq!(err, TaxoError::NotFound(strings(&["s__a", "7", "1.2"])));
}

#[test]
fn resolve_of_nothing_succeeds_with_nothing() {
    let out = resolve(
        &strings(&[]),
        &strings(&[]),
        &strings(&[]),
        &pairs(&[]),
        &strings(&[]),
        &pairs(&[]),
    )
    .unwrap();
    assert!(out.is_empty());
}

#[test]
fn domain_files_are_classified_by_name() {
    let d = classify_domain_file(&"ar53.tree".to_string(), "/x/ar53.tree".to_string());
    assert!(matches!(d, Some(DomainFile::ArTree(p)) if p == "/x/ar53.tree"));
    let d = classify_domain_file(&"bac120.tree".to_string(), "/x/bac120.tree".to_string());
    assert!(matches!(d, Some(DomainFile::BacTree(p)) if p == "/x/bac120.tree"));
    let d = classify_domain_file(&"ar53_metadata.tsv".to_string(), "m1".to_string());
    assert!(matches!(d, Some(DomainFile::ArMetadata(p)) if p == "m1"));
    let d = classify_domain_file(&"bac120_metadata.tsv".to_string(), "m2".to_string());
    assert!(matches!(d, Some(DomainFile::BacMetadata(p)) if p == "m2"));
    assert!(classify_domain_file(&"readme.txt".to_string(), "r".to_string()).is_none());
}

#[test]
fn storage_error_carries_the_backing_message() {
    // the variant the backing layer's caller wraps its failures in
    let e = TaxoError::StorageError("no such table".to_string());
    assert_eq!(e, TaxoError::StorageError("no such table".to_string()));
    assert_ne!(e, TaxoError::EmptyResult);
}
