//! The least-recently-used cache of answers, kept by the `lru` crate.

use lru::LruCache;
use std::num::NonZeroUsize;
use vstd::prelude::*;

verus! {

/// `lru::LruCache`, the least-recently-used cache of the `lru` crate.
#[verifier::external_type_specification]
#[verifier::external_body]
#[verifier::reject_recursive_types(K)]
#[verifier::reject_recursive_types(V)]
#[verifier::reject_recursive_types(S)]
pub struct ExLruCache<K, V, S>(LruCache<K, V, S>);

/// `lru::DefaultHasher`, the hasher that the `lru` crate gives a cache made
/// by `LruCache::new`.
#[verifier::external_type_specification]
#[verifier::external_body]
pub struct ExCacheHasher(lru::DefaultHasher);

/// A cache from normalized queries to what they resolve to: the key as the
/// file spells it, and the record's bytes.
pub type PayloadCache = LruCache<Vec<u8>, (String, Vec<u8>)>;

/// What a cache holds for one query.
pub type Cached = (Seq<u8>, (Seq<char>, Seq<u8>));

/// What an `LruCache` holds, the most recently used entry first.
pub uninterp spec fn cache_entries(cache: PayloadCache) -> Seq<Cached>;

/// The number of entries that an `LruCache` was made to hold at most.
pub uninterp spec fn cache_limit(cache: PayloadCache) -> nat;

/// The position of the first entry for a query from `from` on.
pub open spec fn position_of(entries: Seq<Cached>, query: Seq<u8>, from: int) -> Option<int>
    decreases entries.len() - from,
{
    if from < 0 || from >= entries.len() {
        None
    } else if entries[from].0 == query {
        Some(from)
    } else {
        position_of(entries, query, from + 1)
    }
}

/// The entries after the one at `i` was used: it moved to the front.
pub open spec fn touched(entries: Seq<Cached>, i: int) -> Seq<Cached> {
    seq![entries[i]] + entries.remove(i)
}

/// The entries after a value was put in for a query. The new entry stands
/// at the front. It takes the place of an entry for the same query; else,
/// in a full cache, the least recently used entry leaves.
pub open spec fn inserted(entries: Seq<Cached>, limit: nat, entry: Cached) -> Seq<Cached> {
    match position_of(entries, entry.0, 0) {
        Some(i) => seq![entry] + entries.remove(i),
        None => if entries.len() >= limit && entries.len() > 0 {
            seq![entry] + entries.drop_last()
        } else {
            seq![entry] + entries
        },
    }
}

/// Whether no two entries belong to the same query.
pub open spec fn distinct_queries(entries: Seq<Cached>) -> bool {
    forall|i: int, j: int|
        0 <= i < j < entries.len() ==> (#[trigger] entries[i]).0 != (#[trigger] entries[j]).0
}

/// Calls `LruCache::new`, which makes an empty cache that holds at most
/// `limit` entries. `NonZeroUsize::new` gives nothing for zero.
#[verifier::external_body]
pub(crate) fn cache_new(limit: usize) -> (cache: PayloadCache)
    requires
        limit > 0,
    ensures
        cache_entries(cache) == Seq::<Cached>::empty(),
        cache_limit(cache) == limit,
{
    LruCache::new(NonZeroUsize::new(limit).unwrap())
}

/// Calls `LruCache::get`, which gives the value for a key and moves the
/// key's entry to the front; a key that the cache does not hold leaves it
/// as it is. The value is handed out as a copy.
#[verifier::external_body]
pub(crate) fn cache_get(cache: &mut PayloadCache, query: &[u8]) -> (r: Option<(String, Vec<u8>)>)
    ensures
        cache_limit(*final(cache)) == cache_limit(*old(cache)),
        match position_of(cache_entries(*old(cache)), query@, 0) {
            Some(i) => r matches Some(value) && (value.0@, value.1@) == cache_entries(
                *old(cache),
            )[i].1 && cache_entries(*final(cache)) == touched(cache_entries(*old(cache)), i),
            None => r is None && cache_entries(*final(cache)) == cache_entries(*old(cache)),
        },
{
    cache.get(query).cloned()
}

/// Calls `LruCache::put`, which puts a value in for a key at the front of
/// the cache. An entry for the same key is replaced; else, where the cache
/// holds as many entries as it may, its least recently used entry leaves.
#[verifier::external_body]
pub(crate) fn cache_put(cache: &mut PayloadCache, query: Vec<u8>, value: (String, Vec<u8>))
    ensures
        cache_limit(*final(cache)) == cache_limit(*old(cache)),
        cache_entries(*final(cache)) == inserted(
            cache_entries(*old(cache)),
            cache_limit(*old(cache)),
            (query@, (value.0@, value.1@)),
        ),
{
    cache.put(query, value);
}

/// Calls `LruCache::len`, which gives the number of entries in the cache.
#[verifier::external_body]
pub(crate) fn cache_len(cache: &PayloadCache) -> (n: usize)
    ensures
        n == cache_entries(*cache).len(),
{
    cache.len()
}

/// Calls `LruCache::contains`, which tells whether the cache holds a key and
/// leaves the order of use as it is.
#[verifier::external_body]
pub(crate) fn cache_contains(cache: &PayloadCache, query: &[u8]) -> (r: bool)
    ensures
        r == (position_of(cache_entries(*cache), query@, 0) is Some),
{
    cache.contains(query)
}

/// What `position_of` finds is an entry for the query, and no entry between
/// `from` and it is one.
pub proof fn lemma_position_of(entries: Seq<Cached>, query: Seq<u8>, from: int)
    requires
        0 <= from,
    ensures
        position_of(entries, query, from) matches Some(i) ==> from <= i < entries.len()
            && entries[i].0 == query,
        position_of(entries, query, from) is None ==> forall|j: int|
            from <= j < entries.len() ==> (#[trigger] entries[j]).0 != query,
    decreases entries.len() - from,
{
    if from < entries.len() && entries[from].0 != query {
        lemma_position_of(entries, query, from + 1);
    }
}

/// Using an entry keeps the entries what they are, but for their order.
pub proof fn lemma_touched(entries: Seq<Cached>, i: int)
    requires
        0 <= i < entries.len(),
        distinct_queries(entries),
    ensures
        touched(entries, i).len() == entries.len(),
        distinct_queries(touched(entries, i)),
        forall|j: int|
            0 <= j < touched(entries, i).len() ==> exists|k: int|
                0 <= k < entries.len() && entries[k] == #[trigger] touched(entries, i)[j],
{
    let after = touched(entries, i);
    assert forall|j: int| 0 <= j < after.len() implies exists|k: int|
        0 <= k < entries.len() && entries[k] == #[trigger] after[j] by {
        if j == 0 {
            assert(entries[i] == after[0]);
        } else if j - 1 < i {
            assert(entries[j - 1] == after[j]);
        } else {
            assert(entries[j] == after[j]);
        }
    }
    assert forall|a: int, b: int| 0 <= a < b < after.len() implies (#[trigger] after[a]).0 != (
    #[trigger] after[b]).0 by {
        let ka = if a == 0 {
            i
        } else if a - 1 < i {
            a - 1
        } else {
            a
        };
        let kb = if b - 1 < i {
            b - 1
        } else {
            b
        };
        assert(after[a] == entries[ka]);
        assert(after[b] == entries[kb]);
        assert(ka != kb);
        if ka < kb {
            assert(entries[ka].0 != entries[kb].0);
        } else {
            assert(entries[kb].0 != entries[ka].0);
        }
    }
}

/// Putting an entry in keeps the queries distinct and the cache within its
/// limit, and every entry afterwards is the new one or was there before.
pub proof fn lemma_inserted(entries: Seq<Cached>, limit: nat, entry: Cached)
    requires
        distinct_queries(entries),
        entries.len() <= limit,
        limit > 0,
    ensures
        distinct_queries(inserted(entries, limit, entry)),
        inserted(entries, limit, entry).len() <= limit,
        inserted(entries, limit, entry).len() > 0,
        inserted(entries, limit, entry)[0] == entry,
        forall|j: int|
            1 <= j < inserted(entries, limit, entry).len() ==> exists|k: int|
                0 <= k < entries.len() && entries[k] == #[trigger] inserted(
                    entries,
                    limit,
                    entry,
                )[j],
{
    let after = inserted(entries, limit, entry);
    lemma_position_of(entries, entry.0, 0);
    match position_of(entries, entry.0, 0) {
        Some(i) => {
            assert forall|j: int| 1 <= j < after.len() implies exists|k: int|
                0 <= k < entries.len() && entries[k] == #[trigger] after[j] by {
                if j - 1 < i {
                    assert(entries[j - 1] == after[j]);
                } else {
                    assert(entries[j] == after[j]);
                }
            }
            assert forall|a: int, b: int| 0 <= a < b < after.len() implies (#[trigger] after[a]).0
                != (#[trigger] after[b]).0 by {
                let kb = if b - 1 < i {
                    b - 1
                } else {
                    b
                };
                assert(after[b] == entries[kb]);
                if a == 0 {
                    if kb < i {
                        assert(entries[kb].0 != entries[i].0);
                    } else {
                        assert(entries[i].0 != entries[kb].0);
                    }
                } else {
                    let ka = if a - 1 < i {
                        a - 1
                    } else {
                        a
                    };
                    assert(after[a] == entries[ka]);
                    assert(entries[ka].0 != entries[kb].0);
                }
            }
        },
        None => {
            assert forall|j: int| 1 <= j < after.len() implies exists|k: int|
                0 <= k < entries.len() && entries[k] == #[trigger] after[j] by {
                assert(entries[j - 1] == after[j]);
            }
            assert forall|a: int, b: int| 0 <= a < b < after.len() implies (#[trigger] after[a]).0
                != (#[trigger] after[b]).0 by {
                assert(after[b] == entries[b - 1]);
                if a > 0 {
                    assert(after[a] == entries[a - 1]);
                    assert(entries[a - 1].0 != entries[b - 1].0);
                }
            }
        },
    }
}

} // verus!
