//! Registry behaviour: duplicate rejection, distinct labels, substring search.

use bird_collection::{Bird, Classification, Collection};

fn strings(names: &[&str]) -> Vec<String> {
    names.iter().map(|n| n.to_string()).collect()
}

fn bird(name: &str, common: &str, labels: &[&str]) -> Bird {
    Bird::from_names(name.to_string(), common.to_string(), strings(labels))
}

#[test]
fn duplicate_bird_rejected() {
    let mut coll = Collection::new();
    let first = coll.add_and_check_for_duplicates_bird(bird("Corvus corax", "Raven", &["Aves"]));
    assert_eq!(first, Some(1));
    assert_eq!(coll.birds.len(), 1);
    let second = coll.add_and_check_for_duplicates_bird(bird("Corvus corax", "Raven", &["Aves"]));
    assert!(second.is_none());
    assert_eq!(coll.birds.len(), 1);
}

#[test]
fn inserting_a_record_returns_the_record_count() {
    let mut coll = Collection::new();
    // The label set plays no part in the returned number.
    let aves = Classification::new("Aves".to_string(), None);
    assert_eq!(coll.add_and_check_for_duplicates_classifications(&aves), Some(1));
    assert_eq!(coll.add_and_check_for_duplicates_bird(bird("Pica pica", "Magpie", &[])), Some(1));
    assert_eq!(
        coll.add_and_check_for_duplicates_bird(bird("Corvus corax", "Raven", &[])),
        Some(2)
    );
}

#[test]
fn inserted_label_starts_as_root() {
    let mut coll = Collection::new();
    let parent = Classification::new("Aves".to_string(), None);
    let child = Classification::new("Corvidae".to_string(), Some(parent));
    assert_eq!(coll.add_and_check_for_duplicates_classifications(&child), Some(1));
    assert_eq!(coll.classifications[0].name, "Corvidae");
    assert!(coll.classifications[0].parent_classification.is_none());
}

#[test]
fn bird_differing_in_labels_is_not_a_duplicate() {
    let mut coll = Collection::new();
    assert!(coll
        .add_and_check_for_duplicates_bird(bird("Corvus corax", "Raven", &["Aves"]))
        .is_some());
    assert!(coll
        .add_and_check_for_duplicates_bird(bird("Corvus corax", "Raven", &["Aves", "Corvidae"]))
        .is_some());
    assert_eq!(coll.birds.len(), 2);
}

#[test]
fn bird_differing_in_common_name_is_not_a_duplicate() {
    let mut coll = Collection::new();
    assert!(coll
        .add_and_check_for_duplicates_bird(bird("Corvus corax", "Raven", &[]))
        .is_some());
    assert!(coll
        .add_and_check_for_duplicates_bird(bird("Corvus corax", "Common raven", &[]))
        .is_some());
    assert_eq!(coll.birds.len(), 2);
}

#[test]
fn duplicate_classification_rejected() {
    let mut coll = Collection::new();
    let aves = Classification::new("Aves".to_string(), None);
    assert_eq!(coll.add_and_check_for_duplicates_classifications(&aves), Some(1));
    let aves_again = Classification::new("Aves".to_string(), None);
    assert_eq!(coll.add_and_check_for_duplicates_classifications(&aves_again), None);
    assert_eq!(coll.classifications.len(), 1);
    let other = Classification::new("Passeriformes".to_string(), None);
    assert_eq!(coll.add_and_check_for_duplicates_classifications(&other), Some(2));
}

#[test]
fn distinct_labels_first_seen_order() {
    let mut coll = Collection::new();
    coll.birds.push(bird("A", "a", &["X", "Y"]));
    coll.birds.push(bird("B", "b", &["X"]));
    coll.birds.push(bird("C", "c", &["Z", "Y"]));
    let labels = coll.distinct_labels();
    assert_eq!(labels, strings(&["X", "Y", "Z"]));
}

#[test]
fn distinct_labels_of_empty_registry() {
    let coll = Collection::new();
    assert!(coll.distinct_labels().is_empty());
}

#[test]
fn distinct_labels_dedups_within_one_record() {
    let mut coll = Collection::new();
    coll.birds.push(bird("A", "a", &["X", "X", "Y"]));
    assert_eq!(coll.distinct_labels(), strings(&["X", "Y"]));
}

#[test]
fn search_by_name_matches_substring() {
    let mut coll = Collection::new();
    coll.birds.push(bird("Corvus corax", "Raven", &[]));
    coll.birds.push(bird("Pica pica", "Magpie", &[]));
    let hits = coll.search_bird_by_name("corax".to_string());
    assert_eq!(hits.len(), 1);
    assert_eq!(hits[0].name, "Corvus corax");
    assert!(coll.search_bird_by_name("Corvidae".to_string()).is_empty());
    // The empty query is contained in every name.
    assert_eq!(coll.search_bird_by_name(String::new()).len(), 2);
}

#[test]
fn search_by_name_is_case_sensitive() {
    let mut coll = Collection::new();
    coll.birds.push(bird("Corvus corax", "Raven", &[]));
    assert!(coll.search_bird_by_name("CORAX".to_string()).is_empty());
}

#[test]
fn search_by_common_name_matches_substring() {
    let mut coll = Collection::new();
    coll.birds.push(bird("Corvus corax", "Common raven", &[]));
    coll.birds.push(bird("Pica pica", "Eurasian magpie", &[]));
    let hits = coll.search_bird_by_common_name("raven".to_string());
    assert_eq!(hits.len(), 1);
    assert_eq!(hits[0].name, "Corvus corax");
    let both = coll.search_bird_by_common_name("a".to_string());
    assert_eq!(both.len(), 2);
    assert!(coll.search_bird_by_common_name("owl".to_string()).is_empty());
}
