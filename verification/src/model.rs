//! Mathematical model of the registry's contents.
//!
//! The registry is modelled as a sequence of entries ordered by recency of
//! use, most recently used first.  Every contract in this crate is stated
//! over this model.

use vstd::prelude::*;

verus! {

/// Identity of one registered channel: the session's number paired with the
/// transport-assigned channel number within that session.
pub type ChannelKey = (u64, u64);

/// One registry entry: a channel's identity together with the token of the
/// writable handle bound to that channel.
pub type Entry = ((u64, u64), u64);

/// Does some entry of `e` carry the key `k`?
pub open spec fn has_key(e: Seq<Entry>, k: ChannelKey) -> bool {
    exists|i: int| 0 <= i < e.len() && (#[trigger] e[i]).0 == k
}

/// No two entries of `e` carry the same key.
pub open spec fn distinct_keys(e: Seq<Entry>) -> bool {
    forall|i: int, j: int|
        0 <= i < j < e.len() ==> (#[trigger] e[i]).0 != (#[trigger] e[j]).0
}

/// The entries of `e` whose key is not `k`, in unchanged order.
pub open spec fn without_key(e: Seq<Entry>, k: ChannelKey) -> Seq<Entry>
    decreases e.len(),
{
    if e.len() == 0 {
        Seq::empty()
    } else if e.last().0 == k {
        without_key(e.drop_last(), k)
    } else {
        without_key(e.drop_last(), k).push(e.last())
    }
}

/// The handle token stored under key `k`, if any.  On sequences with
/// distinct keys (the only ones the registry produces) the direction of the
/// search does not matter.
pub open spec fn lookup(e: Seq<Entry>, k: ChannelKey) -> Option<u64>
    decreases e.len(),
{
    if e.len() == 0 {
        Option::None
    } else if e.last().0 == k {
        Option::Some(e.last().1)
    } else {
        lookup(e.drop_last(), k)
    }
}

/// Contents after an insertion at capacity `cap`: the new entry becomes the
/// most recently used; an entry already under `k` is replaced in place of
/// rank; a fresh key inserted into a full registry evicts the least recently
/// used entry.
pub open spec fn put_entries(e: Seq<Entry>, cap: nat, k: ChannelKey, v: u64) -> Seq<Entry> {
    if has_key(e, k) {
        seq![(k, v)] + without_key(e, k)
    } else if e.len() < cap {
        seq![(k, v)] + e
    } else {
        seq![(k, v)] + e.drop_last()
    }
}

/// Contents after key `k` is refreshed (counted as used): its entry, if
/// present, moves to the most-recently-used position with its handle
/// unchanged; an absent key changes nothing.
pub open spec fn touch_entries(e: Seq<Entry>, k: ChannelKey) -> Seq<Entry> {
    match lookup(e, k) {
        Option::Some(v) => seq![(k, v)] + without_key(e, k),
        Option::None => e,
    }
}

/// A key is present exactly when `lookup` finds a handle for it.
pub proof fn lemma_lookup_some_iff_has_key(e: Seq<Entry>, k: ChannelKey)
    ensures
        lookup(e, k) is Some <==> has_key(e, k),
    decreases e.len(),
{
    if e.len() > 0 {
        lemma_lookup_some_iff_has_key(e.drop_last(), k);
        if e.last().0 == k {
            assert(e[e.len() - 1].0 == k);
        } else {
            if has_key(e, k) {
                let i = choose|i: int| 0 <= i < e.len() && (#[trigger] e[i]).0 == k;
                assert(i < e.len() - 1);
                assert(e.drop_last()[i].0 == k);
            }
            if has_key(e.drop_last(), k) {
                let i = choose|i: int|
                    0 <= i < e.drop_last().len() && (#[trigger] e.drop_last()[i]).0 == k;
                assert(e[i].0 == k);
            }
        }
    }
}

/// What filtering one key out of the contents does: it removes exactly the
/// entries under that key, keeps every other entry with its handle, preserves
/// order and distinctness, and never grows the sequence.
pub proof fn lemma_without_key(e: Seq<Entry>, k: ChannelKey)
    ensures
        without_key(e, k).len() <= e.len(),
        !has_key(e, k) ==> without_key(e, k) == e,
        has_key(e, k) ==> without_key(e, k).len() < e.len(),
        distinct_keys(e) && has_key(e, k) ==> without_key(e, k).len() == e.len() - 1,
        !has_key(without_key(e, k), k),
        distinct_keys(e) ==> distinct_keys(without_key(e, k)),
        forall|k2: ChannelKey| k2 != k ==> lookup(without_key(e, k), k2) == lookup(e, k2),
        forall|k2: ChannelKey| k2 != k ==> (has_key(without_key(e, k), k2) <==> has_key(e, k2)),
    decreases e.len(),
{
    lemma_lookup_some_iff_has_key(e, k);
    if e.len() == 0 {
        assert(without_key(e, k) =~= e);
    } else {
        let d = e.drop_last();
        let s = without_key(d, k);
        lemma_without_key(d, k);
        lemma_push_facts(s, e.last());
        // Relate membership in `e` to membership in `d` plus the last entry.
        assert forall|k2: ChannelKey|
            has_key(e, k2) <==> (e.last().0 == k2 || has_key(d, k2)) by {
            lemma_last_membership(e, k2);
        }
        if e.last().0 == k {
            // The last entry is dropped; the recursive result stands as is.
            assert(has_key(e, k)) by {
                assert(e[e.len() - 1].0 == k);
            }
            if distinct_keys(e) {
                assert(!has_key(d, k)) by {
                    if has_key(d, k) {
                        let i = choose|i: int| 0 <= i < d.len() && (#[trigger] d[i]).0 == k;
                        assert(e[i].0 == e[e.len() - 1].0);
                    }
                }
                assert(without_key(e, k) == d);
            }
            assert forall|k2: ChannelKey| k2 != k implies lookup(without_key(e, k), k2)
                == lookup(e, k2) by {
                assert(lookup(e, k2) == lookup(d, k2));
            }
            assert forall|k2: ChannelKey| k2 != k implies (has_key(without_key(e, k), k2)
                <==> has_key(e, k2)) by {
                assert(has_key(e, k2) <==> has_key(d, k2));
            }
        } else {
            // The last entry is kept: the result is `s.push(e.last())`.
            if !has_key(e, k) {
                assert(without_key(e, k) =~= e);
            }
            if distinct_keys(e) {
                assert(distinct_keys(d)) by {
                    assert forall|i: int, j: int| 0 <= i < j < d.len() implies (#[trigger] d[i]).0
                        != (#[trigger] d[j]).0 by {
                        assert(e[i].0 != e[j].0);
                    }
                }
                assert(!has_key(d, e.last().0)) by {
                    if has_key(d, e.last().0) {
                        let i = choose|i: int|
                            0 <= i < d.len() && (#[trigger] d[i]).0 == e.last().0;
                        assert(e[i].0 == e[e.len() - 1].0);
                    }
                }
                assert(!has_key(s, e.last().0));
            }
            assert forall|k2: ChannelKey| k2 != k implies lookup(without_key(e, k), k2)
                == lookup(e, k2) by {
                if e.last().0 == k2 {
                    assert(lookup(e, k2) == Option::Some(e.last().1));
                } else {
                    assert(lookup(e, k2) == lookup(d, k2));
                    assert(lookup(s, k2) == lookup(d, k2));
                }
            }
            assert(without_key(e, k) == s.push(e.last()));
            assert forall|k2: ChannelKey| k2 != k implies (has_key(without_key(e, k), k2)
                <==> has_key(e, k2)) by {
                lemma_last_membership(e, k2);
                assert(has_key(s.push(e.last()), k2) <==> (e.last().0 == k2 || has_key(s, k2)));
            }
        }
    }
}

/// Placing an entry at the most-recently-used position: length, membership,
/// distinctness, lookup and key removal over the result.
pub proof fn lemma_prepend_facts(s: Seq<Entry>, x: Entry)
    ensures
        (seq![x] + s).len() == s.len() + 1,
        (seq![x] + s)[0] == x,
        forall|k2: ChannelKey| has_key(seq![x] + s, k2) <==> (x.0 == k2 || has_key(s, k2)),
        distinct_keys(seq![x] + s) <==> (distinct_keys(s) && !has_key(s, x.0)),
        forall|k2: ChannelKey| #[trigger]
            lookup(seq![x] + s, k2) == (if has_key(s, k2) {
                lookup(s, k2)
            } else if x.0 == k2 {
                Option::Some(x.1)
            } else {
                Option::None
            }),
        forall|k2: ChannelKey| #[trigger]
            without_key(seq![x] + s, k2) == (if x.0 == k2 {
                without_key(s, k2)
            } else {
                seq![x] + without_key(s, k2)
            }),
    decreases s.len(),
{
    reveal_with_fuel(lookup, 3);
    reveal_with_fuel(without_key, 3);
    let p = seq![x] + s;
    assert forall|k2: ChannelKey| has_key(p, k2) <==> (x.0 == k2 || has_key(s, k2)) by {
        if has_key(p, k2) {
            let i = choose|i: int| 0 <= i < p.len() && (#[trigger] p[i]).0 == k2;
            if i > 0 {
                assert(s[i - 1].0 == k2);
            }
        }
        if x.0 == k2 {
            assert(p[0].0 == k2);
        }
        if has_key(s, k2) {
            let i = choose|i: int| 0 <= i < s.len() && (#[trigger] s[i]).0 == k2;
            assert(p[i + 1].0 == k2);
        }
    }
    assert(distinct_keys(p) <==> (distinct_keys(s) && !has_key(s, x.0))) by {
        if distinct_keys(s) && !has_key(s, x.0) {
            assert forall|i: int, j: int| 0 <= i < j < p.len() implies (#[trigger] p[i]).0
                != (#[trigger] p[j]).0 by {
                if i > 0 {
                    assert(s[i - 1].0 != s[j - 1].0);
                } else {
                    if p[j].0 == x.0 {
                        assert(s[j - 1].0 == x.0);
                    }
                }
            }
        }
        if distinct_keys(p) {
            assert forall|i: int, j: int| 0 <= i < j < s.len() implies (#[trigger] s[i]).0
                != (#[trigger] s[j]).0 by {
                assert(p[i + 1].0 != p[j + 1].0);
            }
            if has_key(s, x.0) {
                let i = choose|i: int| 0 <= i < s.len() && (#[trigger] s[i]).0 == x.0;
                assert(p[0].0 == p[i + 1].0);
            }
        }
    }
    if s.len() == 0 {
        assert(p =~= seq![x]);
        assert forall|k2: ChannelKey| #[trigger]
            lookup(p, k2) == (if has_key(s, k2) {
                lookup(s, k2)
            } else if x.0 == k2 {
                Option::Some(x.1)
            } else {
                Option::None
            }) by {
            assert(p.last() == x);
            assert(p.drop_last() =~= Seq::<Entry>::empty());
        }
        assert forall|k2: ChannelKey| #[trigger]
            without_key(p, k2) == (if x.0 == k2 {
                without_key(s, k2)
            } else {
                seq![x] + without_key(s, k2)
            }) by {
            assert(p.last() == x);
            assert(p.drop_last() =~= Seq::<Entry>::empty());
            assert(without_key(s, k2) =~= Seq::<Entry>::empty());
            if x.0 != k2 {
                assert(without_key(p, k2) =~= seq![x] + without_key(s, k2));
            }
        }
    } else {
        let d = s.drop_last();
        lemma_prepend_facts(d, x);
        assert(p.last() == s.last());
        assert(p.drop_last() =~= seq![x] + d);
        assert forall|k2: ChannelKey| #[trigger]
            lookup(p, k2) == (if has_key(s, k2) {
                lookup(s, k2)
            } else if x.0 == k2 {
                Option::Some(x.1)
            } else {
                Option::None
            }) by {
            lemma_last_membership(s, k2);
            if s.last().0 != k2 {
                assert(lookup(p, k2) == lookup(seq![x] + d, k2));
                assert(lookup(s, k2) == lookup(d, k2));
            }
        }
        assert forall|k2: ChannelKey| #[trigger]
            without_key(p, k2) == (if x.0 == k2 {
                without_key(s, k2)
            } else {
                seq![x] + without_key(s, k2)
            }) by {
            if s.last().0 == k2 {
                assert(without_key(p, k2) == without_key(seq![x] + d, k2));
                assert(without_key(s, k2) == without_key(d, k2));
            } else {
                assert(without_key(p, k2) == without_key(seq![x] + d, k2).push(s.last()));
                assert(without_key(s, k2) == without_key(d, k2).push(s.last()));
                if x.0 != k2 {
                    assert((seq![x] + without_key(d, k2)).push(s.last()) =~= seq![x]
                        + without_key(d, k2).push(s.last()));
                }
            }
        }
    }
}

/// Membership in a nonempty sequence splits into the last entry and the rest.
pub proof fn lemma_last_membership(e: Seq<Entry>, k: ChannelKey)
    requires
        e.len() > 0,
    ensures
        has_key(e, k) <==> (e.last().0 == k || has_key(e.drop_last(), k)),
{
    let d = e.drop_last();
    if e.last().0 == k {
        assert(e[e.len() - 1].0 == k);
    }
    if has_key(d, k) {
        let i = choose|i: int| 0 <= i < d.len() && (#[trigger] d[i]).0 == k;
        assert(e[i].0 == k);
    }
    if has_key(e, k) && e.last().0 != k {
        let i = choose|i: int| 0 <= i < e.len() && (#[trigger] e[i]).0 == k;
        assert(i < e.len() - 1);
        assert(d[i].0 == k);
    }
}

/// What an insertion does to well-formed contents: the new entry takes the
/// most-recently-used position and holds the given handle, distinctness and
/// the capacity bound are preserved, and the length grows by one exactly when
/// the key is fresh and the registry is not full.
pub proof fn lemma_put_entries(e: Seq<Entry>, cap: nat, k: ChannelKey, v: u64)
    requires
        1 <= cap,
        e.len() <= cap,
        distinct_keys(e),
    ensures
        distinct_keys(put_entries(e, cap, k, v)),
        put_entries(e, cap, k, v).len() == (if has_key(e, k) {
            e.len() as int
        } else if e.len() < cap {
            e.len() as int + 1
        } else {
            cap as int
        }),
        put_entries(e, cap, k, v).len() <= cap,
        put_entries(e, cap, k, v)[0] == (k, v),
        lookup(put_entries(e, cap, k, v), k) == Option::Some(v),
        has_key(put_entries(e, cap, k, v), k),
{
    lemma_without_key(e, k);
    lemma_lookup_some_iff_has_key(e, k);
    if has_key(e, k) {
        let s = without_key(e, k);
        lemma_prepend_facts(s, (k, v));
        lemma_lookup_some_iff_has_key(s, k);
    } else if e.len() < cap {
        lemma_prepend_facts(e, (k, v));
        assert(put_entries(e, cap, k, v)[0].0 == k);
    } else {
        let d = e.drop_last();
        assert(distinct_keys(d)) by {
            assert forall|i: int, j: int| 0 <= i < j < d.len() implies (#[trigger] d[i]).0
                != (#[trigger] d[j]).0 by {
                assert(e[i].0 != e[j].0);
            }
        }
        assert(!has_key(d, k)) by {
            if has_key(d, k) {
                let i = choose|i: int| 0 <= i < d.len() && (#[trigger] d[i]).0 == k;
                assert(e[i].0 == k);
            }
        }
        lemma_prepend_facts(d, (k, v));
    }
    assert(put_entries(e, cap, k, v)[0].0 == k);
}

/// What refreshing a key does to well-formed contents: the length, the key
/// set and every handle are unchanged, distinctness is preserved, and the
/// contents seen by any broadcast excluding any key are the same before and
/// after.
pub proof fn lemma_touch_entries(e: Seq<Entry>, k: ChannelKey)
    requires
        distinct_keys(e),
    ensures
        distinct_keys(touch_entries(e, k)),
        touch_entries(e, k).len() == e.len(),
        forall|k2: ChannelKey| has_key(touch_entries(e, k), k2) <==> has_key(e, k2),
        forall|k2: ChannelKey| #[trigger] lookup(touch_entries(e, k), k2) == lookup(e, k2),
        without_key(touch_entries(e, k), k) == without_key(e, k),
{
    lemma_without_key(e, k);
    lemma_lookup_some_iff_has_key(e, k);
    match lookup(e, k) {
        Option::Some(v) => {
            let s = without_key(e, k);
            let t = seq![(k, v)] + s;
            lemma_prepend_facts(s, (k, v));
            lemma_lookup_some_iff_has_key(s, k);
            lemma_without_key(s, k);
            assert forall|k2: ChannelKey| #[trigger] lookup(t, k2) == lookup(e, k2) by {
                if k2 != k {
                    lemma_lookup_some_iff_has_key(e, k2);
                    lemma_lookup_some_iff_has_key(s, k2);
                }
            }
            assert(without_key(t, k) == without_key(s, k));
            assert(without_key(s, k) == s);
        },
        Option::None => {
            assert(touch_entries(e, k) == e);
        },
    }
}

/// On contents with distinct keys, `lookup` at any entry's key finds that
/// entry's handle.
pub proof fn lemma_lookup_at_index(e: Seq<Entry>, i: int)
    requires
        distinct_keys(e),
        0 <= i < e.len(),
    ensures
        lookup(e, e[i].0) == Option::Some(e[i].1),
    decreases e.len(),
{
    if i == e.len() - 1 {
        assert(e.last() == e[i]);
    } else {
        assert(e.last().0 != e[i].0);
        let d = e.drop_last();
        assert(distinct_keys(d)) by {
            assert forall|a: int, b: int| 0 <= a < b < d.len() implies (#[trigger] d[a]).0
                != (#[trigger] d[b]).0 by {
                assert(e[a].0 != e[b].0);
            }
        }
        lemma_lookup_at_index(d, i);
        assert(d[i] == e[i]);
    }
}

/// Every entry that survives the removal of a key stood in the contents
/// before the removal.
pub proof fn lemma_without_key_subset(e: Seq<Entry>, k: ChannelKey)
    ensures
        forall|i: int|
            0 <= i < without_key(e, k).len() ==> exists|j: int|
                0 <= j < e.len() && e[j] == #[trigger] without_key(e, k)[i],
    decreases e.len(),
{
    if e.len() > 0 {
        let d = e.drop_last();
        lemma_without_key_subset(d, k);
        assert forall|i: int| 0 <= i < without_key(e, k).len() implies exists|j: int|
            0 <= j < e.len() && e[j] == #[trigger] without_key(e, k)[i] by {
            let s = without_key(d, k);
            if e.last().0 == k {
                let j = choose|j: int| 0 <= j < d.len() && d[j] == without_key(e, k)[i];
                assert(e[j] == without_key(e, k)[i]);
            } else {
                assert(without_key(e, k) == s.push(e.last()));
                if i < s.len() {
                    assert(without_key(e, k)[i] == s[i]);
                    let j = choose|j: int| 0 <= j < d.len() && d[j] == s[i];
                    assert(e[j] == without_key(e, k)[i]);
                } else {
                    assert(without_key(e, k)[i] == e.last());
                    assert(e[e.len() - 1] == without_key(e, k)[i]);
                }
            }
        }
    }
}

/// Pushing an entry: membership, distinctness and lookup over the result.
pub proof fn lemma_push_facts(s: Seq<Entry>, x: Entry)
    ensures
        forall|k2: ChannelKey| has_key(s.push(x), k2) <==> (x.0 == k2 || has_key(s, k2)),
        distinct_keys(s.push(x)) <==> (distinct_keys(s) && !has_key(s, x.0)),
        forall|k2: ChannelKey| #[trigger]
            lookup(s.push(x), k2) == (if x.0 == k2 {
                Option::Some(x.1)
            } else {
                lookup(s, k2)
            }),
{
    let p = s.push(x);
    assert(p.drop_last() =~= s);
    assert(p.last() == x);
    assert forall|k2: ChannelKey| has_key(p, k2) <==> (x.0 == k2 || has_key(s, k2)) by {
        lemma_last_membership(p, k2);
    }
    if distinct_keys(s) && !has_key(s, x.0) {
        assert forall|i: int, j: int| 0 <= i < j < p.len() implies (#[trigger] p[i]).0
            != (#[trigger] p[j]).0 by {
            if j < p.len() - 1 {
                assert(s[i].0 != s[j].0);
            } else {
                assert(p[j] == x);
                if p[i].0 == x.0 {
                    assert(s[i].0 == x.0);
                }
            }
        }
    }
    if distinct_keys(p) {
        assert forall|i: int, j: int| 0 <= i < j < s.len() implies (#[trigger] s[i]).0
            != (#[trigger] s[j]).0 by {
            assert(p[i].0 != p[j].0);
        }
        if has_key(s, x.0) {
            let i = choose|i: int| 0 <= i < s.len() && (#[trigger] s[i]).0 == x.0;
            assert(p[i].0 == p[p.len() - 1].0);
        }
    }
}

} // verus!
