use std::collections::HashMap;

use renderer::cache::{
    CacheEntry, MAX_TEXT_EFFECT_CACHE_ENTRIES, MAX_TEXT_RASTER_CACHE_ENTRIES, cached_cache_entry, evict_lru_cache_entry, gradient_layer_fits, insert_clearing_when_full,
    insert_lru_cache_entry, lookup_with_next_stamp, next_cache_use, store_built_entry, note_gradient_layer_sighting,
};

#[test]
fn use_stamps_count_up_and_saturate() {
    let mut next = 5_u64;
    assert_eq!(next_cache_use(&mut next), 5);
    assert_eq!(next, 6);
    let mut last = u64::MAX;
    assert_eq!(next_cache_use(&mut last), u64::MAX);
    assert_eq!(last, u64::MAX);
}

#[test]
fn a_lookup_returns_the_stored_value_and_refreshes_it() {
    let mut entries: HashMap<u64, CacheEntry<String>> = HashMap::new();
    insert_lru_cache_entry(&mut entries, 7, "seven".to_string(), 1, 4);
    assert_eq!(cached_cache_entry(&mut entries, 7, 9), Some("seven".to_string()));
    assert_eq!(entries[&7].last_used, 9);
    assert_eq!(cached_cache_entry(&mut entries, 8, 10), None);
    assert_eq!(entries.len(), 1);
}

#[test]
fn the_least_recently_used_entry_is_evicted_when_full() {
    let mut entries: HashMap<u64, CacheEntry<u32>> = HashMap::new();
    let mut next = 0_u64;
    for key in 0..4_u64 {
        let stamp = next_cache_use(&mut next);
        insert_lru_cache_entry(&mut entries, key, key as u32 * 10, stamp, 4);
    }
    // Key 0 is used again, so key 1 is now the oldest.
    let stamp = next_cache_use(&mut next);
    assert_eq!(cached_cache_entry(&mut entries, 0, stamp), Some(0));
    let stamp = next_cache_use(&mut next);
    insert_lru_cache_entry(&mut entries, 99, 990, stamp, 4);
    assert_eq!(entries.len(), 4);
    assert!(entries.contains_key(&0));
    assert!(!entries.contains_key(&1));
    assert_eq!(entries[&99].value, 990);
}

#[test]
fn replacing_a_key_never_evicts() {
    let mut entries: HashMap<u64, CacheEntry<u32>> = HashMap::new();
    insert_lru_cache_entry(&mut entries, 1, 10, 0, 2);
    insert_lru_cache_entry(&mut entries, 2, 20, 1, 2);
    insert_lru_cache_entry(&mut entries, 1, 11, 2, 2);
    assert_eq!(entries.len(), 2);
    assert_eq!(entries[&1].value, 11);
    assert_eq!(entries[&1].last_used, 2);
}

#[test]
fn a_cache_of_no_entries_stores_nothing_and_an_empty_one_evicts_nothing() {
    let mut entries: HashMap<u64, CacheEntry<u32>> = HashMap::new();
    insert_lru_cache_entry(&mut entries, 1, 10, 0, 0);
    assert!(entries.is_empty());
    evict_lru_cache_entry(&mut entries);
    assert!(entries.is_empty());
}

#[test]
fn an_oversized_cache_shrinks_to_its_limit() {
    let mut entries: HashMap<u64, CacheEntry<u32>> = HashMap::new();
    for key in 0..6_u64 {
        entries.insert(key, CacheEntry { value: 0, last_used: key });
    }
    insert_lru_cache_entry(&mut entries, 50, 5, 100, 3);
    assert_eq!(entries.len(), 3);
    assert!(entries.contains_key(&4) && entries.contains_key(&5) && entries.contains_key(&50));
}

#[test]
fn the_clearing_cache_starts_over_when_full() {
    let mut entries: HashMap<u64, u32> = HashMap::new();
    insert_clearing_when_full(&mut entries, 1, 1, 2);
    insert_clearing_when_full(&mut entries, 2, 2, 2);
    assert_eq!(entries.len(), 2);
    insert_clearing_when_full(&mut entries, 3, 3, 2);
    assert_eq!(entries.len(), 1);
    assert_eq!(entries[&3], 3);
}

#[test]
fn gradient_layers_need_reuse_and_room() {
    let mut seen: HashMap<u64, u8> = HashMap::new();
    assert!(!note_gradient_layer_sighting(&mut seen, 4, 2));
    assert!(note_gradient_layer_sighting(&mut seen, 4, 2));
    assert_eq!(seen[&4], 2);
    seen.insert(5, u8::MAX);
    assert!(note_gradient_layer_sighting(&mut seen, 5, 200));
    assert_eq!(seen[&5], u8::MAX);

    assert!(gradient_layer_fits(100, 200, 3, 4, 500, 600));
    assert!(!gradient_layer_fits(300, 200, 3, 4, 0, 600));
    assert!(!gradient_layer_fits(100, 200, 4, 4, 0, 600));
    assert!(!gradient_layer_fits(100, 200, 0, 4, 550, 600));
    assert!(!gradient_layer_fits(100, 200, 0, 4, usize::MAX, usize::MAX - 1));
}

/// Looks `key` up and, when absent, builds a new value (a fresh id) and
/// stores it, as the text mask caches do.
fn cached_or_built(
    entries: &mut HashMap<u64, CacheEntry<u64>>,
    next_use: &mut u64,
    next_id: &mut u64,
    key: u64,
    max_entries: usize,
) -> u64 {
    let last_used = next_cache_use(next_use);
    if let Some(value) = cached_cache_entry(entries, key, last_used) {
        return value;
    }
    *next_id += 1;
    let value = *next_id;
    let last_used = next_cache_use(next_use);
    insert_lru_cache_entry(entries, key, value, last_used, max_entries);
    value
}

fn lru_scenario(max_entries: usize) {
    let mut entries = HashMap::new();
    let mut next_use = 0;
    let mut next_id = 0;
    let first = cached_or_built(&mut entries, &mut next_use, &mut next_id, 0, max_entries);
    let retained = cached_or_built(&mut entries, &mut next_use, &mut next_id, 1, max_entries);
    for key in 2..max_entries as u64 {
        cached_or_built(&mut entries, &mut next_use, &mut next_id, key, max_entries);
    }
    let retained_again = cached_or_built(&mut entries, &mut next_use, &mut next_id, 1, max_entries);
    cached_or_built(&mut entries, &mut next_use, &mut next_id, max_entries as u64, max_entries);
    let first_after = cached_or_built(&mut entries, &mut next_use, &mut next_id, 0, max_entries);

    assert_eq!(retained, retained_again);
    assert_ne!(first, first_after);
    assert_eq!(entries.len(), max_entries);
}

#[test]
fn text_raster_cache_evicts_lru_entries_without_clearing_everything() {
    lru_scenario(MAX_TEXT_RASTER_CACHE_ENTRIES);
}

#[test]
fn text_effect_cache_evicts_lru_entries_without_clearing_everything() {
    lru_scenario(MAX_TEXT_EFFECT_CACHE_ENTRIES);
}

#[test]
fn a_stored_entry_is_found_again() {
    let mut entries: HashMap<u64, CacheEntry<u32>> = HashMap::new();
    for key in 0..3 {
        insert_lru_cache_entry(&mut entries, key, key as u32 * 10, key, 3);
    }
    insert_lru_cache_entry(&mut entries, 9, 90, 5, 3);
    assert!(entries.len() <= 3);
    assert_eq!(cached_cache_entry(&mut entries, 9, 6), Some(90));
}

#[test]
fn a_value_built_on_a_miss_is_stored_unless_one_arrived_first() {
    let mut entries: HashMap<u64, CacheEntry<u32>> = HashMap::new();
    let mut next_use = 0u64;
    assert_eq!(lookup_with_next_stamp(&mut entries, &mut next_use, 4), None);
    assert_eq!(next_use, 1);
    assert_eq!(store_built_entry(&mut entries, &mut next_use, 4, 40, 8), 40);
    assert_eq!(entries[&4].last_used, 1);
    assert_eq!(next_use, 2);
    // A second build of the same key keeps the value stored first.
    assert_eq!(store_built_entry(&mut entries, &mut next_use, 4, 41, 8), 40);
    assert_eq!(entries[&4].value, 40);
    assert_eq!(entries[&4].last_used, 2);
    assert_eq!(lookup_with_next_stamp(&mut entries, &mut next_use, 4), Some(40));
    assert_eq!(entries.len(), 1);
}
