//! Trusted boundary to the `lru` crate.
//!
//! The registry stores its entries in an `lru::LruCache`.  Verus does not
//! read that crate, so its behaviour is stated here and believed: the cache's
//! contents are named by [`cache_entries`], a sequence of entries in
//! most-recently-used-first order, and [`cache_capacity`] names the bound the
//! cache was created with.  Each wrapper's contract states, over those two
//! names, what the corresponding `lru` method does.

use crate::model::{lookup, put_entries, touch_entries, without_key, Entry};
use vstd::prelude::*;

verus! {

#[verifier::external_type_specification]
#[verifier::external_body]
#[verifier::reject_recursive_types(K)]
#[verifier::reject_recursive_types(V)]
#[verifier::reject_recursive_types(S)]
pub struct ExLruCache<K, V, S>(lru::LruCache<K, V, S>);

/// The concrete cache the registry uses: keyed by channel identity, holding
/// handle tokens, hashed with std's seeded default hasher.
pub type HandleCache = lru::LruCache<(u64, u64), u64, std::collections::hash_map::RandomState>;

/// The contents of the cache as a sequence of entries, most recently used
/// first.
pub uninterp spec fn cache_entries(c: &HandleCache) -> Seq<Entry>;

/// The maximum entry count the cache was created with.
pub uninterp spec fn cache_capacity(c: &HandleCache) -> nat;

/// Relies on `lru::LruCache::new`: builds an empty cache with the given
/// capacity.  `new` takes a `NonZeroUsize`, so a capacity of zero is kept out.
#[verifier::external_body]
pub(crate) fn cache_new(cap: usize) -> (c: HandleCache)
    requires
        1 <= cap,
    ensures
        cache_entries(&c) == Seq::<Entry>::empty(),
        cache_capacity(&c) == cap as nat,
{
    lru::LruCache::with_hasher(
        std::num::NonZeroUsize::new(cap).unwrap(),
        std::collections::hash_map::RandomState::new(),
    )
}

/// Relies on `lru::LruCache::put`: an existing key's value is replaced and
/// the entry becomes the most recently used; a fresh key is inserted at the
/// most-recently-used position, evicting the least recently used entry when
/// the cache is full.
#[verifier::external_body]
pub(crate) fn cache_put(c: &mut HandleCache, k: (u64, u64), v: u64)
    ensures
        cache_capacity(final(c)) == cache_capacity(old(c)),
        cache_entries(final(c)) == put_entries(
            cache_entries(old(c)),
            cache_capacity(old(c)),
            k,
            v,
        ),
{
    c.put(k, v);
}

/// Relies on `lru::LruCache::pop`: removes the entry under the key, if any,
/// returning its value; the order of the remaining entries is unchanged.
#[verifier::external_body]
pub(crate) fn cache_pop(c: &mut HandleCache, k: (u64, u64)) -> (r: Option<
    u64,
>)
    ensures
        cache_capacity(final(c)) == cache_capacity(old(c)),
        cache_entries(final(c)) == without_key(cache_entries(old(c)), k),
        r == lookup(cache_entries(old(c)), k),
{
    c.pop(&k)
}

/// Relies on `lru::LruCache::promote`: marks the entry under the key, if
/// any, as the most recently used, leaving its value and every other entry
/// unchanged; returns whether the key was present.
#[verifier::external_body]
pub(crate) fn cache_promote(c: &mut HandleCache, k: (u64, u64)) -> (r: bool)
    ensures
        cache_capacity(final(c)) == cache_capacity(old(c)),
        cache_entries(final(c)) == touch_entries(cache_entries(old(c)), k),
        r == lookup(cache_entries(old(c)), k) is Some,
{
    c.promote(&k)
}

/// Relies on `lru::LruCache::iter`: visits all entries in
/// most-recently-used-first order.
#[verifier::external_body]
pub(crate) fn cache_snapshot(c: &HandleCache) -> (r: Vec<Entry>)
    ensures
        r@ == cache_entries(c),
{
    c.iter().map(|(k, v)| (*k, *v)).collect()
}

/// Relies on `lru::LruCache::len`: the number of entries held.
#[verifier::external_body]
pub(crate) fn cache_len(c: &HandleCache) -> (r: usize)
    ensures
        r == cache_entries(c).len(),
{
    c.len()
}

} // verus!
