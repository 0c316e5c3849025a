//! Caches of rendered masks and layers, keyed by 64-bit keys: a
//! least-recently-used cache, a cache that empties itself when full, and
//! the admission rule of the gradient layer cache.

use std::collections::HashMap;

use vstd::prelude::*;

verus! {

broadcast use vstd::std_specs::hash::group_hash_axioms;

/// The most rasterized text masks kept.
pub const MAX_TEXT_RASTER_CACHE_ENTRIES: usize = 256;

/// The most text effect masks (strokes, shadows) kept.
pub const MAX_TEXT_EFFECT_CACHE_ENTRIES: usize = 512;

/// A cached value and the use stamp of its last use.
pub struct CacheEntry<V> {
    pub value: V,
    pub last_used: u64,
}

/// The use stamp after `stamp` (saturating).
pub open spec fn next_stamp(stamp: u64) -> u64 {
    if stamp == u64::MAX { stamp } else { (stamp + 1) as u64 }
}

/// Hands out the next use stamp: the current count, which then advances
/// (saturating at `u64::MAX`).
pub fn next_cache_use(next_use: &mut u64) -> (r: u64)
    ensures
        r == *old(next_use),
        *final(next_use) == next_stamp(*old(next_use)),
{
    let last_used = *next_use;
    *next_use = next_use.saturating_add(1);
    last_used
}

/// What a lookup of `key` stamped `last_used` does to a cache `before`,
/// giving the cache `after` and the answer `r`: a present entry is answered
/// with a clone of its value and gets the new stamp, all else unchanged; an
/// absent key is answered `None` and changes nothing.
pub open spec fn lru_looked_up<V: Clone>(
    before: Map<u64, CacheEntry<V>>,
    after: Map<u64, CacheEntry<V>>,
    key: u64,
    last_used: u64,
    r: Option<V>,
) -> bool {
    &&& before.contains_key(key) ==> {
        &&& r matches Some(v) && cloned::<V>(before[key].value, v)
        &&& after.dom() == before.dom()
        &&& after[key].value == before[key].value
        &&& after[key].last_used == last_used
        &&& forall|k: u64| k != key && #[trigger] before.contains_key(k) ==> after[k] == before[k]
    }
    &&& !before.contains_key(key) ==> r is None && after == before
}

/// Looks an entry up and stamps it as used: its value (cloned), or `None`
/// when the key is absent (and nothing changes).
pub fn cached_cache_entry<V: Clone>(entries: &mut HashMap<u64, CacheEntry<V>>, key: u64, last_used: u64) -> (r:
    Option<V>)
    ensures
        lru_looked_up(old(entries)@, final(entries)@, key, last_used, r),
{
    match entries.remove(&key) {
        Some(entry) => {
            let value = entry.value.clone();
            entries.insert(key, CacheEntry { value: entry.value, last_used });
            proof {
                assert(final(entries)@.dom() =~= old(entries)@.dom());
            }
            Some(value)
        },
        None => {
            proof {
                assert(entries@ =~= old(entries)@);
            }
            None
        },
    }
}

/// The key of an entry whose last use is the oldest, if any.
fn least_recently_used_key<V>(entries: &HashMap<u64, CacheEntry<V>>) -> (r: Option<u64>)
    ensures
        r matches Some(k) ==> entries@.contains_key(k) && forall|j: u64| #[trigger]
            entries@.contains_key(j) ==> entries@[k].last_used <= entries@[j].last_used,
        entries@.len() > 0 ==> r is Some,
{
    let mut best: Option<u64> = None;
    let mut best_used: u64 = 0;
    for k in it: entries.keys()
        invariant
            best matches Some(b) ==> entries@.contains_key(b) && entries@[b].last_used == best_used,
            it.index() > 0 ==> best is Some,
            forall|j: int| 0 <= j < it.index() ==> entries@[*it.seq()[j]].last_used >= best_used,
            forall|j: u64| #[trigger]
                entries@.contains_key(j) ==> exists|i: int| 0 <= i < it.seq().len() && *it.seq()[i] == j,
    {
        let used = match entries.get(k) {
            Some(e) => e.last_used,
            None => 0,
        };
        if best.is_none() || used < best_used {
            best = Some(*k);
            best_used = used;
        }
    }
    best
}

/// Removes an entry whose last use is the oldest (which one, among entries
/// used at the same stamp, depends on the map's order); an empty map stays
/// empty.
pub fn evict_lru_cache_entry<V>(entries: &mut HashMap<u64, CacheEntry<V>>)
    ensures
        old(entries)@.len() == 0 ==> final(entries)@ == old(entries)@,
        old(entries)@.len() > 0 ==> exists|k: u64|
            #![trigger old(entries)@.contains_key(k)]
            old(entries)@.contains_key(k) && (forall|j: u64| #[trigger]
                old(entries)@.contains_key(j) ==> old(entries)@[k].last_used <= old(entries)@[j].last_used)
                && final(entries)@ == old(entries)@.remove(k),
{
    match least_recently_used_key(entries) {
        Some(key) => {
            entries.remove(&key);
        },
        None => {},
    }
}

/// What storing `value` under `key`, stamped `last_used`, does to a cache
/// `before` of at most `max_entries` entries, giving the cache `after`: an
/// entry already under the key is replaced; otherwise, when the cache may
/// hold entries at all, the new entry is added and the least recently used
/// entries make room for it; a cache of no entries stays as it is.
pub open spec fn lru_inserted<V>(
    before: Map<u64, CacheEntry<V>>,
    after: Map<u64, CacheEntry<V>>,
    key: u64,
    value: V,
    last_used: u64,
    max_entries: usize,
) -> bool {
    &&& before.contains_key(key) ==> after == before.insert(key, CacheEntry { value, last_used })
    &&& !before.contains_key(key) && max_entries == 0 ==> after == before
    &&& !before.contains_key(key) && max_entries > 0 ==> {
        &&& after.contains_key(key)
        &&& after[key] == (CacheEntry { value, last_used })
        &&& after.len() == if before.len() < max_entries {
            before.len() + 1int
        } else {
            max_entries as int
        }
        &&& forall|k: u64| k != key && #[trigger] after.contains_key(k) ==> before.contains_key(k)
            && after[k] == before[k]
        &&& forall|kept: u64, gone: u64|
            kept != key && #[trigger] after.contains_key(kept) && #[trigger] before.contains_key(gone)
                && !after.contains_key(gone) ==> before[gone].last_used <= before[kept].last_used
    }
}

/// Stores an entry in a cache of at most `max_entries` entries: an entry
/// already under the key is replaced; otherwise the least recently used
/// entries are evicted until there is room. A cache of no entries stores
/// nothing.
pub fn insert_lru_cache_entry<V>(
    entries: &mut HashMap<u64, CacheEntry<V>>,
    key: u64,
    value: V,
    last_used: u64,
    max_entries: usize,
)
    ensures
        lru_inserted(old(entries)@, final(entries)@, key, value, last_used, max_entries),
{
    if entries.contains_key(&key) {
        entries.insert(key, CacheEntry { value, last_used });
        return;
    }
    if max_entries == 0 {
        return;
    }
    let ghost original = entries@;
    while entries.len() >= max_entries
        invariant
            max_entries > 0,
            !original.contains_key(key),
            entries@.len() <= original.len(),
            original.len() < max_entries ==> entries@ == original,
            original.len() >= max_entries ==> entries@.len() >= max_entries - 1,
            !entries@.contains_key(key),
            forall|k: u64| #[trigger] entries@.contains_key(k) ==> original.contains_key(k) && entries@[k]
                == original[k],
            forall|kept: u64, gone: u64|
                #[trigger] entries@.contains_key(kept) && #[trigger] original.contains_key(gone)
                    && !entries@.contains_key(gone) ==> original[gone].last_used <= original[kept].last_used,
        decreases entries@.len(),
    {
        let ghost before = entries@;
        evict_lru_cache_entry(entries);
        proof {
            let k = choose|k: u64|
                #![trigger before.contains_key(k)]
                before.contains_key(k) && (forall|j: u64| #[trigger]
                    before.contains_key(j) ==> before[k].last_used <= before[j].last_used) && entries@
                    == before.remove(k);
            assert(entries@.len() == before.len() - 1);
            assert forall|kept: u64, gone: u64|
                #[trigger] entries@.contains_key(kept) && #[trigger] original.contains_key(gone)
                    && !entries@.contains_key(gone) implies original[gone].last_used <= original[kept].last_used by {
                assert(before.contains_key(kept));
                if gone == k {
                    assert(before[k].last_used <= before[kept].last_used);
                }
            }
        }
    }
    entries.insert(key, CacheEntry { value, last_used });
}

/// Stores an entry in a cache that empties itself when it holds
/// `max_entries` entries (or more) and a new one arrives.
pub fn insert_clearing_when_full<V>(entries: &mut HashMap<u64, V>, key: u64, value: V, max_entries: usize)
    ensures
        final(entries)@ == if old(entries)@.len() >= max_entries {
            Map::<u64, V>::empty().insert(key, value)
        } else {
            old(entries)@.insert(key, value)
        },
{
    if entries.len() >= max_entries {
        entries.clear();
    }
    entries.insert(key, value);
}

/// Whether a rasterized gradient layer gets stored: its key must have been
/// seen `min_reuses` times, its raster must not exceed `max_raster_bytes`,
/// and the cache must have room for one more entry and for its bytes
/// within `max_total_bytes`.
pub open spec fn admits_gradient_layer(
    seen: int,
    min_reuses: int,
    raster_bytes: int,
    max_raster_bytes: int,
    cached_layers: int,
    max_entries: int,
    total_bytes: int,
    max_total_bytes: int,
) -> bool {
    &&& seen >= min_reuses
    &&& raster_bytes <= max_raster_bytes
    &&& cached_layers < max_entries
    &&& (if total_bytes + raster_bytes > usize::MAX { usize::MAX as int } else { total_bytes + raster_bytes })
        <= max_total_bytes
}

/// Counts one more sighting of a gradient layer key (saturating) and tells
/// whether it has now been seen often enough to rasterize it.
pub fn note_gradient_layer_sighting(seen_counts: &mut HashMap<u64, u8>, key: u64, min_reuses: u8) -> (r: bool)
    ensures
        ({
            let before = if old(seen_counts)@.contains_key(key) { old(seen_counts)@[key] } else { 0u8 };
            let after = if before == u8::MAX { before } else { (before + 1) as u8 };
            &&& final(seen_counts)@ == old(seen_counts)@.insert(key, after)
            &&& r == (after >= min_reuses)
        }),
{
    let before = match seen_counts.get(&key) {
        Some(count) => *count,
        None => 0,
    };
    let after = before.saturating_add(1);
    seen_counts.insert(key, after);
    after >= min_reuses
}

/// Whether a rasterized gradient layer of `raster_bytes` fits in the cache
/// (see `admits_gradient_layer`, the sighting count already checked).
pub fn gradient_layer_fits(
    raster_bytes: usize,
    max_raster_bytes: usize,
    cached_layers: usize,
    max_entries: usize,
    total_bytes: usize,
    max_total_bytes: usize,
) -> (r: bool)
    ensures
        r == admits_gradient_layer(
            0,
            0,
            raster_bytes as int,
            max_raster_bytes as int,
            cached_layers as int,
            max_entries as int,
            total_bytes as int,
            max_total_bytes as int,
        ),
{
    raster_bytes <= max_raster_bytes && cached_layers < max_entries && total_bytes.saturating_add(raster_bytes)
        <= max_total_bytes
}

/// A cache that holds at most `max_entries` entries still does after a
/// store.
pub proof fn lemma_lru_store_keeps_capacity<V>(
    before: Map<u64, CacheEntry<V>>,
    after: Map<u64, CacheEntry<V>>,
    key: u64,
    value: V,
    last_used: u64,
    max_entries: usize,
)
    requires
        lru_inserted(before, after, key, value, last_used, max_entries),
        before.len() <= max_entries,
    ensures
        after.len() <= max_entries,
{
    if before.contains_key(key) {
        assert(after.dom() =~= before.dom());
    }
}

/// A lookup of a key just stored, in a cache that may hold entries, finds
/// the stored value (a clone of it), and the entry keeps that value.
pub proof fn lemma_lru_lookup_after_store<V: Clone>(
    before: Map<u64, CacheEntry<V>>,
    stored: Map<u64, CacheEntry<V>>,
    after: Map<u64, CacheEntry<V>>,
    key: u64,
    value: V,
    stored_at: u64,
    looked_up_at: u64,
    max_entries: usize,
    r: Option<V>,
)
    requires
        max_entries > 0,
        lru_inserted(before, stored, key, value, stored_at, max_entries),
        lru_looked_up(stored, after, key, looked_up_at, r),
    ensures
        r matches Some(v) && cloned::<V>(value, v),
        after.contains_key(key) && after[key].value == value,
{
}

/// The first step of a cache that builds values on a miss: takes the next
/// use stamp and looks `key` up with it (see `lru_looked_up`).
pub fn lookup_with_next_stamp<V: Clone>(entries: &mut HashMap<u64, CacheEntry<V>>, next_use: &mut u64, key: u64) -> (r:
    Option<V>)
    ensures
        *final(next_use) == next_stamp(*old(next_use)),
        lru_looked_up(old(entries)@, final(entries)@, key, *old(next_use), r),
{
    let last_used = next_cache_use(next_use);
    cached_cache_entry(entries, key, last_used)
}

/// The last step of a cache that builds values on a miss: with the next use
/// stamp, checks the cache again (the value may have been stored while it
/// was built) and answers with the stored value when there is one;
/// otherwise stores `built` (see `lru_inserted`) and answers with it.
pub fn store_built_entry<V: Clone>(
    entries: &mut HashMap<u64, CacheEntry<V>>,
    next_use: &mut u64,
    key: u64,
    built: V,
    max_entries: usize,
) -> (r: V)
    ensures
        *final(next_use) == next_stamp(*old(next_use)),
        old(entries)@.contains_key(key) ==> lru_looked_up(
            old(entries)@,
            final(entries)@,
            key,
            *old(next_use),
            Some(r),
        ),
        !old(entries)@.contains_key(key) ==> lru_inserted(
            old(entries)@,
            final(entries)@,
            key,
            built,
            *old(next_use),
            max_entries,
        ) && cloned::<V>(built, r),
{
    let last_used = next_cache_use(next_use);
    match cached_cache_entry(entries, key, last_used) {
        Some(existing) => existing,
        None => {
            let answer = built.clone();
            insert_lru_cache_entry(entries, key, built, last_used, max_entries);
            answer
        },
    }
}

} // verus!
