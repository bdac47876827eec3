//! The content-addressed cache of processed units, backed by the moka
//! crate's synchronous cache.
//!
//! The cache is bounded in capacity and expires entries an hour after
//! insertion; both policies may fire at any time between calls. The
//! contracts here model that honestly: `cache_entries` names the live
//! entries of a cache value, every operation may first drop an arbitrary
//! set of entries (expiry, capacity eviction), and is then exact about what
//! remains. Nothing ever appears in the cache except by `cache_insert`.

use vstd::prelude::*;
use crate::syntax_parser::ReadyVec;

verus! {

/// moka's synchronous cache type, opaque to the library.
#[verifier::external_type_specification]
#[verifier::external_body]
#[verifier::reject_recursive_types(K)]
#[verifier::reject_recursive_types(V)]
#[verifier::reject_recursive_types(S)]
pub struct ExMokaCache<K, V, S>(moka::sync::Cache<K, V, S>);

/// The map holding no entries.
pub open spec fn no_entries() -> Map<Seq<u64>, ReadyVec> {
    Map::empty()
}

/// The live entries of the cache: a map from content key to stored unit.
pub uninterp spec fn cache_entries(c: moka::sync::Cache<Vec<u64>, ReadyVec>) -> Map<
    Seq<u64>,
    ReadyVec,
>;

/// Relies on moka's Cache::builder: a fresh cache, bounded by `capacity`
/// entries and expiring each entry an hour after insertion, holds nothing.
#[verifier::external_body]
pub(crate) fn cache_new(capacity: u64) -> (r: moka::sync::Cache<Vec<u64>, ReadyVec>)
    ensures
        cache_entries(r) == no_entries(),
{
    moka::sync::Cache::builder().max_capacity(capacity).time_to_live(
        std::time::Duration::from_secs(3600),
    ).build()
}

/// Relies on moka's Cache::insert: stores the unit under the key. Expiry
/// and capacity eviction may drop entries at any time - the new one
/// included - so afterwards the cache holds at most the old entries and the
/// new one.
#[verifier::external_body]
pub(crate) fn cache_insert(
    c: &mut moka::sync::Cache<Vec<u64>, ReadyVec>,
    key: Vec<u64>,
    value: ReadyVec,
)
    ensures
        cache_entries(*final(c)).submap_of(cache_entries(*old(c)).insert(key@, value)),
{
    c.insert(key, value);
}

/// Relies on moka's Cache::contains_key: expiry and eviction may first drop
/// an arbitrary set of entries; the answer is then exact for what remains.
#[verifier::external_body]
pub(crate) fn cache_contains(c: &mut moka::sync::Cache<Vec<u64>, ReadyVec>, key: &Vec<u64>) -> (r:
    bool)
    ensures
        cache_entries(*final(c)).submap_of(cache_entries(*old(c))),
        r == cache_entries(*final(c)).dom().contains(key@),
{
    c.contains_key(key)
}

/// Relies on moka's Cache::iter: a consistent snapshot of the live entries,
/// each key once with its stored unit. Expiry and eviction may first drop an
/// arbitrary set of entries; the snapshot then lists exactly what remains.
#[verifier::external_body]
pub(crate) fn cache_entries_vec(c: &mut moka::sync::Cache<Vec<u64>, ReadyVec>) -> (r: Vec<
    (Vec<u64>, ReadyVec),
>)
    ensures
        cache_entries(*final(c)).submap_of(cache_entries(*old(c))),
        forall|i: int|
            0 <= i < r@.len() ==> cache_entries(*final(c)).contains_pair(
                (#[trigger] r@[i]).0@,
                r@[i].1,
            ),
        forall|i: int, j: int| 0 <= i < j < r@.len() ==> r@[i].0@ != r@[j].0@,
        forall|k: Seq<u64>|
            cache_entries(*final(c)).dom().contains(k) ==> exists|i: int|
                0 <= i < r@.len() && (#[trigger] r@[i]).0@ == k,
{
    c.iter().map(|(k, v)| ((*k).clone(), v)).collect()
}

/// Relies on moka's Cache::invalidate: discards any entry under the key;
/// expiry and eviction may drop further entries, and none appears.
#[verifier::external_body]
pub(crate) fn cache_invalidate(c: &mut moka::sync::Cache<Vec<u64>, ReadyVec>, key: &Vec<u64>)
    ensures
        cache_entries(*final(c)).submap_of(cache_entries(*old(c))),
        !cache_entries(*final(c)).dom().contains(key@),
{
    c.invalidate(key);
}

/// Relies on moka's Cache::invalidate_all: no entry inserted before the
/// call is served afterwards. moka implements this by hiding entries whose
/// write timestamp is strictly before the call's clock reading, so the
/// empty-map clause additionally trusts that every held entry was inserted
/// at a strictly earlier instant; on a clock too coarse to separate an
/// insertion from this call, an entry could survive it.
#[verifier::external_body]
pub(crate) fn cache_invalidate_all(c: &mut moka::sync::Cache<Vec<u64>, ReadyVec>)
    ensures
        cache_entries(*final(c)) == no_entries(),
{
    c.invalidate_all();
}

} // verus!
