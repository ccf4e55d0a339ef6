//! The bounded, least-recently-used session handle registry.
//!
//! One registry is shared by every connection handler.  It maps a channel's
//! identity — the pair of session number and channel number — to the token of
//! the writable handle bound to that channel, holds at most its configured
//! capacity of entries, and evicts the least recently used entry when a fresh
//! key is inserted into a full registry.

use crate::cache::{
    cache_capacity, cache_entries, cache_len, cache_new, cache_pop, cache_promote,
    cache_snapshot, cache_put, HandleCache,
};
use crate::model::{
    distinct_keys, has_key, lemma_put_entries, lemma_touch_entries, lemma_without_key, lookup,
    put_entries, touch_entries, without_key, Entry,
};
use vstd::prelude::*;

verus! {

/// The shared registry of channel write handles.
pub struct Registry {
    cache: HandleCache,
}

impl Registry {
    /// The registry's contents, most recently used first.
    pub closed spec fn entries(&self) -> Seq<Entry> {
        cache_entries(&self.cache)
    }

    /// The maximum number of entries the registry may hold.
    pub closed spec fn capacity(&self) -> nat {
        cache_capacity(&self.cache)
    }

    /// Well-formedness: the capacity is positive, the contents never exceed
    /// it, and no key is registered twice.
    pub open spec fn wf(&self) -> bool {
        &&& 1 <= self.capacity()
        &&& self.entries().len() <= self.capacity()
        &&& distinct_keys(self.entries())
    }

    /// An empty registry bounded by `capacity` entries.
    pub fn new(capacity: usize) -> (r: Registry)
        requires
            1 <= capacity,
        ensures
            r.wf(),
            r.capacity() == capacity,
            r.entries() == Seq::<Entry>::empty(),
    {
        Registry { cache: cache_new(capacity) }
    }

    /// Inserts or replaces the handle token for the channel
    /// `(session_id, channel_id)`.  The entry becomes the most recently
    /// used; if the key is fresh and the registry is full, the least
    /// recently used entry is evicted.  Insertion always succeeds: a newly
    /// accepted connection must always be able to register.
    pub fn insert(&mut self, session_id: u64, channel_id: u64, handle: u64)
        requires
            old(self).wf(),
        ensures
            final(self).wf(),
            final(self).capacity() == old(self).capacity(),
            final(self).entries() == put_entries(
                old(self).entries(),
                old(self).capacity(),
                (session_id, channel_id),
                handle,
            ),
    {
        proof {
            lemma_put_entries(
                self.entries(),
                self.capacity(),
                (session_id, channel_id),
                handle,
            );
        }
        cache_put(&mut self.cache, (session_id, channel_id), handle);
    }

    /// Removes the entry for `(session_id, channel_id)` if present and
    /// returns its handle token; a no-op returning `None` otherwise.  Called
    /// when a connection or channel terminates, so that no future broadcast
    /// is aimed at a dead handle.
    pub fn remove(&mut self, session_id: u64, channel_id: u64) -> (r: Option<u64>)
        requires
            old(self).wf(),
        ensures
            final(self).wf(),
            final(self).capacity() == old(self).capacity(),
            final(self).entries() == without_key(
                old(self).entries(),
                (session_id, channel_id),
            ),
            r == lookup(old(self).entries(), (session_id, channel_id)),
            r is Some <==> has_key(old(self).entries(), (session_id, channel_id)),
    {
        proof {
            lemma_without_key(self.entries(), (session_id, channel_id));
            crate::model::lemma_lookup_some_iff_has_key(
                self.entries(),
                (session_id, channel_id),
            );
        }
        cache_pop(&mut self.cache, (session_id, channel_id))
    }

    /// Refreshes the entry for `(session_id, channel_id)`: if present it
    /// becomes the most recently used, with its handle and every other entry
    /// unchanged.  Returns whether the key was registered.
    pub fn touch(&mut self, session_id: u64, channel_id: u64) -> (r: bool)
        requires
            old(self).wf(),
        ensures
            final(self).wf(),
            final(self).capacity() == old(self).capacity(),
            final(self).entries() == touch_entries(
                old(self).entries(),
                (session_id, channel_id),
            ),
            r <==> has_key(old(self).entries(), (session_id, channel_id)),
    {
        proof {
            lemma_touch_entries(self.entries(), (session_id, channel_id));
            crate::model::lemma_lookup_some_iff_has_key(
                self.entries(),
                (session_id, channel_id),
            );
        }
        cache_promote(&mut self.cache, (session_id, channel_id))
    }

    /// The number of entries currently held.
    pub fn len(&self) -> (r: usize)
        ensures
            r == self.entries().len(),
    {
        cache_len(&self.cache)
    }

    /// A copy of the contents, most recently used first.
    pub fn snapshot(&self) -> (r: Vec<Entry>)
        ensures
            r@ == self.entries(),
    {
        cache_snapshot(&self.cache)
    }

    /// The entries every broadcast from `(session_id, channel_id)` must
    /// reach: all entries except the sender's own, in unchanged order.  The
    /// contents are copied out under the registry's exclusive borrow, so a
    /// broadcast sees each entry fully or not at all.
    pub fn recipients(&self, session_id: u64, channel_id: u64) -> (r: Vec<Entry>)
        ensures
            r@ == without_key(self.entries(), (session_id, channel_id)),
    {
        let all = cache_snapshot(&self.cache);
        let mut r: Vec<Entry> = Vec::new();
        let ghost key = (session_id, channel_id);
        proof {
            assert(all@.take(0) =~= Seq::<Entry>::empty());
            assert(without_key(all@.take(0), key) =~= Seq::<Entry>::empty());
        }
        let n = all.len();
        let mut i: usize = 0;
        while i < n
            invariant
                n == all@.len(),
                i <= n,
                r@ == without_key(all@.take(i as int), key),
                key == (session_id, channel_id),
            decreases n - i,
        {
            let e = all[i];
            proof {
                assert(all@.take(i + 1).drop_last() =~= all@.take(i as int));
                assert(all@.take(i + 1).last() == all@[i as int]);
            }
            if !(e.0.0 == session_id && e.0.1 == channel_id) {
                r.push(e);
            }
            i = i + 1;
        }
        proof {
            assert(all@.take(n as int) =~= all@);
        }
        r
    }
}

/// The contents after a whole sequence of insertions into an empty registry
/// of capacity `cap`, applied left to right.
pub open spec fn fill_entries(cap: nat, ks: Seq<Entry>) -> Seq<Entry>
    decreases ks.len(),
{
    if ks.len() == 0 {
        Seq::empty()
    } else {
        put_entries(fill_entries(cap, ks.drop_last()), cap, ks.last().0, ks.last().1)
    }
}

/// Law of bounded LRU eviction: inserting any sequence of pairwise distinct
/// keys into an empty registry of capacity `cap` leaves exactly
/// `min(cap, n)` entries — the most recently inserted keys, most recent
/// first, each with its handle — and when more keys were inserted than the
/// capacity admits, the evicted ones are exactly the least recently used
/// `n - cap` at the time of each overflow: the earliest inserted.
pub proof fn lemma_lru_fill(cap: nat, ks: Seq<Entry>)
    requires
        1 <= cap,
        distinct_keys(ks),
    ensures
        fill_entries(cap, ks).len() == (if ks.len() <= cap {
            ks.len() as int
        } else {
            cap as int
        }),
        forall|i: int|
            0 <= i < fill_entries(cap, ks).len() ==> #[trigger] fill_entries(cap, ks)[i]
                == ks[ks.len() - 1 - i],
        forall|j: int| 0 <= j < ks.len() - cap ==> !has_key(fill_entries(cap, ks), ks[j].0),
    decreases ks.len(),
{
    let n = ks.len() as int;
    let f = fill_entries(cap, ks);
    if ks.len() > 0 {
        let d = ks.drop_last();
        let x = ks.last();
        let prev = fill_entries(cap, d);
        assert(distinct_keys(d)) by {
            assert forall|a: int, b: int| 0 <= a < b < d.len() implies (#[trigger] d[a]).0
                != (#[trigger] d[b]).0 by {
                assert(ks[a].0 != ks[b].0);
            }
        }
        lemma_lru_fill(cap, d);
        assert(!has_key(prev, x.0)) by {
            if has_key(prev, x.0) {
                let i = choose|i: int| 0 <= i < prev.len() && (#[trigger] prev[i]).0 == x.0;
                assert(prev[i] == d[d.len() - 1 - i]);
                assert(ks[n - 2 - i].0 == ks[n - 1].0);
            }
        }
        assert(x == (x.0, x.1));
        if prev.len() < cap {
            assert(f == seq![(x.0, x.1)] + prev);
            assert(f[0] == x);
            assert forall|i: int| 0 <= i < f.len() implies #[trigger] f[i] == ks[n - 1 - i] by {
                if i > 0 {
                    assert(f[i] == prev[i - 1]);
                    assert(prev[i - 1] == d[d.len() - 1 - (i - 1)]);
                    assert(d[n - 1 - i] == ks[n - 1 - i]);
                }
            }
        } else {
            assert(f == seq![(x.0, x.1)] + prev.drop_last());
            assert(f[0] == x);
            assert forall|i: int| 0 <= i < f.len() implies #[trigger] f[i] == ks[n - 1 - i] by {
                if i > 0 {
                    assert(f[i] == prev.drop_last()[i - 1]);
                    assert(prev[i - 1] == d[d.len() - 1 - (i - 1)]);
                    assert(d[n - 1 - i] == ks[n - 1 - i]);
                }
            }
        }
        assert forall|j: int| 0 <= j < ks.len() - cap implies !has_key(f, ks[j].0) by {
            if has_key(f, ks[j].0) {
                let i = choose|i: int| 0 <= i < f.len() && (#[trigger] f[i]).0 == ks[j].0;
                assert(f[i] == ks[n - 1 - i]);
                assert(n - 1 - i >= n - cap);
                assert(ks[n - 1 - i].0 != ks[j].0);
            }
        }
    }
}

/// Law of removal: removing (or evicting) the entry of key `k` stops every
/// future broadcast from reaching `k` — no sender's fan-out set contains it
/// any more — while any other registered channel `b` keeps exactly the
/// delivery it had: it is in a sender's fan-out set afterwards, with the
/// same handle, exactly when it was before.
pub proof fn lemma_removal_stops_delivery(
    e: Seq<Entry>,
    k: crate::model::ChannelKey,
    s: crate::model::ChannelKey,
    b: crate::model::ChannelKey,
)
    requires
        b != k,
    ensures
        !has_key(without_key(e, k), k),
        !has_key(without_key(without_key(e, k), s), k),
        has_key(without_key(without_key(e, k), s), b) <==> has_key(without_key(e, s), b),
        lookup(without_key(without_key(e, k), s), b) == lookup(without_key(e, s), b),
{
    let r = without_key(e, k);
    lemma_without_key(e, k);
    lemma_without_key(e, s);
    lemma_without_key(r, s);
    crate::model::lemma_lookup_some_iff_has_key(without_key(r, s), k);
    if b == s {
        crate::model::lemma_lookup_some_iff_has_key(without_key(r, s), b);
        crate::model::lemma_lookup_some_iff_has_key(without_key(e, s), b);
        assert(!has_key(without_key(r, s), b));
        assert(!has_key(without_key(e, s), b));
        assert(lookup(without_key(r, s), b) is None);
        assert(lookup(without_key(e, s), b) is None);
    } else {
        assert(lookup(without_key(r, s), b) == lookup(r, b));
        assert(lookup(r, b) == lookup(e, b));
        assert(lookup(without_key(e, s), b) == lookup(e, b));
        assert(has_key(without_key(r, s), b) <==> has_key(r, b));
        assert(has_key(r, b) <==> has_key(e, b));
        assert(has_key(without_key(e, s), b) <==> has_key(e, b));
    }
}

} // verus!

