//! Tests for the card cache's freshness handling and the dependency
//! resolver.

use speki::cache::CardRecord;
use speki::card::{CacheState, CardCache};
use speki::CardId;

fn record(id: u128, path: &str, deps: &[u128], finished: bool, mtime: u64) -> CardRecord {
    CardRecord {
        id: CardId(id),
        path: path.to_string(),
        dependency_ids: deps.iter().map(|d| CardId(*d)).collect(),
        finished,
        last_modified: mtime,
    }
}

fn sorted_ids(mut v: Vec<CardId>) -> Vec<u128> {
    let mut out: Vec<u128> = v.drain(..).map(|c| c.0).collect();
    out.sort();
    out
}

#[test]
fn classification_covers_all_four_states() {
    let fs1 = vec![record(1, "a", &[], true, 100)];
    let mut cache = CardCache::new();
    assert_eq!(cache.classify(CardId(1), &fs1), CacheState::MissingFromCache);

    cache.try_get(CardId(1), &fs1);
    assert_eq!(cache.classify(CardId(1), &fs1), CacheState::UpToDate);

    let fs2 = vec![record(1, "a", &[], true, 101)];
    assert_eq!(cache.classify(CardId(1), &fs2), CacheState::NeedsUpdate);

    let fs3 = vec![record(1, "elsewhere", &[], true, 100)];
    assert_eq!(cache.classify(CardId(1), &fs3), CacheState::FileMissing);
}

#[test]
fn touched_file_is_reloaded_on_next_access() {
    // A card cached with last_modified = 100 ...
    let fs1 = vec![record(1, "a", &[], false, 100)];
    let mut cache = CardCache::new();
    let first = cache.try_get(CardId(1), &fs1).unwrap();
    assert_eq!(first.last_modified, 100);
    assert!(!first.finished);

    // ... whose file is then touched to 101 must be reloaded, not served
    // stale, on the very next access.
    let fs2 = vec![record(1, "a", &[], true, 101)];
    let second = cache.try_get(CardId(1), &fs2).unwrap();
    assert_eq!(second.last_modified, 101);
    assert!(second.finished);
}

#[test]
fn fresh_slot_serves_cached_snapshot_unchanged() {
    let fs1 = vec![record(1, "a", &[], false, 100)];
    let mut cache = CardCache::new();
    cache.try_get(CardId(1), &fs1);

    // Same modification time but different content: the cache trusts the
    // timestamp and serves its own snapshot.
    let fs2 = vec![record(1, "a", &[], true, 100)];
    let served = cache.try_get(CardId(1), &fs2).unwrap();
    assert!(!served.finished);
}

#[test]
fn missing_card_is_absent_and_slot_dropped() {
    let fs1 = vec![record(1, "a", &[], true, 100)];
    let mut cache = CardCache::new();
    cache.try_get(CardId(1), &fs1);

    let empty: Vec<CardRecord> = vec![];
    assert!(cache.try_get(CardId(1), &empty).is_none());
    assert_eq!(cache.classify(CardId(1), &empty), CacheState::MissingFromCache);
}

#[test]
fn get_owned_and_get_ref_agree() {
    let fs = vec![record(1, "a", &[2], true, 100)];
    let mut cache = CardCache::new();
    let owned = cache.get_owned(CardId(1), &fs).unwrap();
    let borrowed = cache.get_ref(CardId(1), &fs).unwrap();
    assert_eq!(borrowed.id, CardId(1));
    assert_eq!(owned.id, CardId(1));
    assert_eq!(owned.dependency_ids, vec![CardId(2)]);
    assert!(cache.get_ref(CardId(9), &fs).is_none());
}

#[test]
fn snapshot_getters_and_staleness() {
    let fs = vec![record(7, "p", &[1], false, 50)];
    let mut cache = CardCache::new();
    let snap = cache.try_get(CardId(7), &fs).unwrap();
    assert_eq!(snap.id(), CardId(7));
    assert_eq!(snap.as_path(), "p");
    assert_eq!(snap.last_modified(), 50);
    assert!(!snap.is_finished());
    assert_eq!(snap.dependency_ids(), vec![CardId(1)]);
    assert!(!snap.is_outdated(50));
    assert!(snap.is_outdated(51));
}

#[test]
fn all_ids_orders_most_recently_modified_first() {
    let fs = vec![
        record(1, "a", &[], true, 100),
        record(2, "b", &[], true, 300),
        record(3, "c", &[], true, 200),
    ];
    let mut cache = CardCache::new();
    for id in [1u128, 2, 3] {
        cache.try_get(CardId(id), &fs);
    }
    let ids: Vec<u128> = cache.all_ids(&fs).iter().map(|c| c.0).collect();
    assert_eq!(ids, vec![2, 3, 1]);

    // A stale slot falls back to the live filesystem stat for ordering.
    let fs2 = vec![
        record(1, "a", &[], true, 400),
        record(2, "b", &[], true, 300),
        record(3, "c", &[], true, 200),
    ];
    let ids: Vec<u128> = cache.all_ids(&fs2).iter().map(|c| c.0).collect();
    assert_eq!(ids, vec![1, 2, 3]);
}

#[test]
fn direct_dependencies_of_unresolvable_card_are_empty() {
    let cache = CardCache::new();
    let fs = vec![record(1, "a", &[2, 3], true, 100)];
    assert_eq!(sorted_ids(cache.direct_dependencies(CardId(1), &fs)), vec![2, 3]);
    assert_eq!(cache.direct_dependencies(CardId(9), &fs), vec![]);
}

#[test]
fn cycle_yields_the_other_node_and_terminates() {
    // a -> b -> a: queried from a, the closure is exactly {b}; the walk
    // completes despite the cycle and excludes the start itself.
    let fs = vec![
        record(1, "a", &[2], true, 100),
        record(2, "b", &[1], true, 100),
    ];
    let cache = CardCache::new();
    assert_eq!(sorted_ids(cache.all_dependencies(CardId(1), &fs)), vec![2]);
    assert_eq!(sorted_ids(cache.all_dependencies(CardId(2), &fs)), vec![1]);
}

#[test]
fn transitive_dependencies_are_collected_once() {
    // a -> b, c; b -> c, d; d -> a (cycle back to the start).
    let fs = vec![
        record(1, "a", &[2, 3], true, 100),
        record(2, "b", &[3, 4], true, 100),
        record(3, "c", &[], true, 100),
        record(4, "d", &[1], true, 100),
    ];
    let cache = CardCache::new();
    assert_eq!(sorted_ids(cache.all_dependencies(CardId(1), &fs)), vec![2, 3, 4]);
}

#[test]
fn dangling_dependency_is_a_dead_end_not_a_failure() {
    // b was deleted from disk but a still points at it; the walk keeps the
    // dangling id and moves on, and resolution is not blocked by it.
    let fs = vec![record(1, "a", &[2], true, 100)];
    let cache = CardCache::new();
    assert_eq!(sorted_ids(cache.all_dependencies(CardId(1), &fs)), vec![2]);
    assert!(cache.is_resolved(CardId(1), &fs));
}

#[test]
fn unfinished_dependency_blocks_resolution() {
    let fs = vec![
        record(1, "a", &[2], true, 100),
        record(2, "b", &[3], true, 100),
        record(3, "c", &[], false, 100),
    ];
    let cache = CardCache::new();
    assert!(!cache.is_resolved(CardId(1), &fs));
    assert!(cache.is_resolved(CardId(3), &fs));

    let finished = vec![
        record(1, "a", &[2], true, 100),
        record(2, "b", &[3], true, 100),
        record(3, "c", &[], true, 100),
    ];
    assert!(cache.is_resolved(CardId(1), &finished));
}
