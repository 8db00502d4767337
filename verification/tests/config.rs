//! Settings: the categories of expense names, and the known categories.

use finguard::backup::{backup_folder_name, copy_step, CopyStep, Found};
use finguard::config::{
    add_known_category, add_mapping, clear_all_mappings, get_mapping, remove_known_category,
    remove_mapping, CategoryMapping, KnownCategories,
};
use finguard::error::Error;
use indexmap::IndexMap;

fn pair(primary: &str, secondary: &str) -> CategoryMapping {
    CategoryMapping {
        primary_category: primary.to_string(),
        secondary_category: secondary.to_string(),
    }
}

fn keys(mappings: &IndexMap<String, CategoryMapping>) -> Vec<&str> {
    mappings.keys().map(String::as_str).collect()
}

#[test]
fn a_mapping_is_stored_trimmed_and_in_lower_case() {
    let mut mappings = IndexMap::new();
    add_mapping(&mut mappings, "  Metro Card ", " Transport", "METRO ", false).unwrap();
    assert_eq!(keys(&mappings), vec!["metro card"]);
    assert_eq!(get_mapping(&mappings, "METRO card"), Some(pair("transport", "metro")));
    assert_eq!(get_mapping(&mappings, "bus"), None);
}

#[test]
fn a_mapping_is_only_replaced_on_request() {
    let mut mappings = IndexMap::new();
    add_mapping(&mut mappings, "rent", "housing", "rent", false).unwrap();
    add_mapping(&mut mappings, "gym", "leisure", "gym", false).unwrap();
    let err = add_mapping(&mut mappings, "RENT", "other", "other", false).unwrap_err();
    assert!(matches!(err, Error::AlreadyExists(_)));
    assert_eq!(
        err.message(),
        "Mapping for 'rent' already exists: {'primary_category': 'housing', 'secondary_category': 'rent'}. Pass overwrite=true to replace it."
    );
    assert_eq!(get_mapping(&mappings, "rent"), Some(pair("housing", "rent")));

    add_mapping(&mut mappings, "rent", "other", "flat", true).unwrap();
    assert_eq!(get_mapping(&mappings, "rent"), Some(pair("other", "flat")));
    // A replaced mapping keeps its place.
    assert_eq!(keys(&mappings), vec!["rent", "gym"]);
}

#[test]
fn a_removed_mapping_is_handed_back_and_gone() {
    let mut mappings = IndexMap::new();
    for name in ["a", "b", "c"] {
        add_mapping(&mut mappings, name, name, "x", false).unwrap();
    }
    assert_eq!(remove_mapping(&mut mappings, " A ").unwrap(), pair("a", "x"));
    assert_eq!(keys(&mappings), vec!["b", "c"]);
    let err = remove_mapping(&mut mappings, "a").unwrap_err();
    assert!(matches!(err, Error::NotFound(_)));
    assert_eq!(err.message(), "No mapping found for 'a'.");
    clear_all_mappings(&mut mappings);
    assert!(mappings.is_empty());
}

#[test]
fn known_categories_are_kept_sorted() {
    let mut known = KnownCategories::default();
    for name in ["Travel", "Baby", "out", "Housing"] {
        add_known_category(&mut known, name, "primary").unwrap();
    }
    add_known_category(&mut known, "Baby", "secondary").unwrap();
    assert_eq!(known.primary, vec!["Baby", "Housing", "Travel", "out"]);
    assert_eq!(known.secondary, vec!["Baby"]);

    let err = add_known_category(&mut known, "Baby", "primary").unwrap_err();
    assert_eq!(err.message(), "Category 'Baby' already exists in primary categories.");
    let err = add_known_category(&mut known, "Baby", "third").unwrap_err();
    assert_eq!(err.message(), "kind must be 'primary' or 'secondary', got 'third'");

    remove_known_category(&mut known, "Housing", "primary").unwrap();
    assert_eq!(known.primary, vec!["Baby", "Travel", "out"]);
    let err = remove_known_category(&mut known, "Housing", "primary").unwrap_err();
    assert_eq!(err.message(), "Category 'Housing' not found in primary categories.");
    assert!(remove_known_category(&mut known, "Baby", "third").is_err());
    remove_known_category(&mut known, "Baby", "secondary").unwrap();
    assert!(known.secondary.is_empty());
}

#[test]
fn a_list_that_was_edited_by_hand_is_sorted_at_the_next_change() {
    let mut known = KnownCategories {
        primary: vec!["b".to_string(), "a".to_string(), "b".to_string()],
        secondary: Vec::new(),
    };
    let before = known.clone();
    add_known_category(&mut known, "c", "primary").unwrap();
    assert_eq!(known.primary, vec!["a", "b", "b", "c"]);
    remove_known_category(&mut known, "b", "primary").unwrap();
    assert_eq!(known.primary, vec!["a", "b", "c"]);
    assert_eq!(before.primary.len(), 3);
}

#[test]
fn a_backup_folder_gets_a_number_when_its_name_is_taken() {
    assert_eq!(
        backup_folder_name("20260918T101500Z", "row-id-migration", 1),
        "20260918T101500Z-row-id-migration"
    );
    assert_eq!(
        backup_folder_name("20260918T101500Z", "reset", 12),
        "20260918T101500Z-reset-12"
    );
}

#[test]
fn a_backup_follows_links_but_never_in_a_circle() {
    assert_eq!(copy_step(Found::File), CopyStep::CopyFile);
    assert_eq!(copy_step(Found::Folder { open: false }), CopyStep::CopyFolder);
    assert_eq!(copy_step(Found::Folder { open: true }), CopyStep::SkipLoop);
    assert_eq!(copy_step(Found::BrokenLink), CopyStep::SkipBrokenLink);
    assert_eq!(copy_step(Found::Unreadable), CopyStep::Fail);
}
