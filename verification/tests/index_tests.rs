//! Tests for the card location index: rebuilds, self-healing lookups and
//! the dependents table.

use speki::cache::{CardIndex, CardRecord};
use speki::CardId;

fn record(id: u128, path: &str, deps: &[u128]) -> CardRecord {
    CardRecord {
        id: CardId(id),
        path: path.to_string(),
        dependency_ids: deps.iter().map(|d| CardId(*d)).collect(),
        finished: true,
        last_modified: 100,
    }
}

fn sorted_ids(mut v: Vec<CardId>) -> Vec<u128> {
    let mut out: Vec<u128> = v.drain(..).map(|c| c.0).collect();
    out.sort();
    out
}

#[test]
fn sync_builds_reverse_dependencies() {
    // a depends on b and c; b depends on c.
    let scan = vec![
        record(1, "a", &[2, 3]),
        record(2, "b", &[3]),
        record(3, "c", &[]),
    ];
    let mut index = CardIndex::new();
    index.sync_cache(&scan);
    assert_eq!(sorted_ids(index.dependents_from_id(CardId(3), &scan)), vec![1, 2]);
    assert_eq!(sorted_ids(index.dependents_from_id(CardId(2), &scan)), vec![1]);
    assert_eq!(sorted_ids(index.dependents_from_id(CardId(1), &scan)), vec![]);
}

#[test]
fn sync_twice_is_idempotent() {
    let scan = vec![
        record(1, "a", &[2, 3]),
        record(2, "b", &[3]),
        record(3, "c", &[1]),
    ];
    let mut first = CardIndex::new();
    first.sync_cache(&scan);
    let mut again = CardIndex::new();
    again.sync_cache(&scan);
    again.sync_cache(&scan);
    for id in [1u128, 2, 3] {
        assert_eq!(
            sorted_ids(first.dependents_from_id(CardId(id), &scan)),
            sorted_ids(again.dependents_from_id(CardId(id), &scan)),
        );
    }
}

#[test]
fn path_lookup_serves_cached_entry() {
    let scan = vec![record(1, "a", &[]), record(2, "b", &[])];
    let mut index = CardIndex::new();
    index.sync_cache(&scan);
    assert_eq!(index.path_from_id(CardId(1), &scan), Some("a".to_string()));
    assert_eq!(index.path_from_id(CardId(2), &scan), Some("b".to_string()));
}

#[test]
fn unknown_id_triggers_exactly_one_resync_then_absent() {
    let scan1 = vec![record(1, "a", &[2]), record(2, "b", &[])];
    let mut index = CardIndex::new();

    // The miss on an empty index triggers one rebuild from scan1, then
    // reports the id as absent.
    assert_eq!(index.path_from_id(CardId(99), &scan1), None);

    // The rebuild really happened, and happened once, against scan1: a
    // later lookup whose entry is still valid serves the scan1-built
    // dependents even when handed a scan that would disagree.
    let scan2 = vec![record(1, "a", &[]), record(2, "b", &[1])];
    assert_eq!(sorted_ids(index.dependents_from_id(CardId(2), &scan2)), vec![1]);
}

#[test]
fn dangling_path_heals_through_resync() {
    let scan1 = vec![record(1, "old_place", &[])];
    let mut index = CardIndex::new();
    index.sync_cache(&scan1);

    // The file moved: the cached path no longer exists, so the lookup
    // rebuilds from the new scan and serves the new path.
    let scan2 = vec![record(1, "new_place", &[])];
    assert_eq!(index.path_from_id(CardId(1), &scan2), Some("new_place".to_string()));
}

#[test]
fn add_dependent_to_self_is_a_no_op() {
    let scan = vec![record(1, "a", &[])];
    let mut index = CardIndex::new();
    index.sync_cache(&scan);
    assert!(index.add_dependent(CardId(1), CardId(1), &scan));
    assert_eq!(sorted_ids(index.dependents_from_id(CardId(1), &scan)), vec![]);
}

#[test]
fn add_dependent_is_idempotent() {
    let scan = vec![record(1, "a", &[]), record(2, "b", &[])];
    let mut index = CardIndex::new();
    index.sync_cache(&scan);
    assert!(index.add_dependent(CardId(1), CardId(2), &scan));
    assert!(index.add_dependent(CardId(1), CardId(2), &scan));
    assert_eq!(sorted_ids(index.dependents_from_id(CardId(1), &scan)), vec![2]);
}

#[test]
fn add_dependent_heals_on_miss_and_reports_unknown() {
    let scan = vec![record(1, "a", &[]), record(2, "b", &[])];
    let mut index = CardIndex::new();
    // Miss on the empty index: one resync, then the insertion succeeds.
    assert!(index.add_dependent(CardId(1), CardId(2), &scan));
    assert_eq!(sorted_ids(index.dependents_from_id(CardId(1), &scan)), vec![2]);
    // A card unknown even after the resync is reported, not thrown.
    assert!(!index.add_dependent(CardId(99), CardId(1), &scan));
}

#[test]
fn entries_expose_paths_and_dependents_for_persistence() {
    let scan = vec![record(1, "a", &[2]), record(2, "b", &[])];
    let mut index = CardIndex::new();
    index.sync_cache(&scan);
    let entries = index.entries();
    assert_eq!(entries.len(), 2);
    assert_eq!(entries[0].id, CardId(1));
    assert_eq!(entries[0].path, "a");
    assert_eq!(entries[1].id, CardId(2));
    assert_eq!(entries[1].dependents, vec![CardId(1)]);
}
