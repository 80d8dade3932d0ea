//! A least-recently-used cache from user names to chat-session numbers, kept
//! in an `lru::LruCache`.

use vstd::prelude::*;
use lru::LruCache;

verus! {

/// The `lru` crate's cache.
#[verifier::external_type_specification]
#[verifier::external_body]
#[verifier::reject_recursive_types(K)]
#[verifier::reject_recursive_types(V)]
#[verifier::reject_recursive_types(S)]
pub struct ExLruCache<K, V, S>(LruCache<K, V, S>);

/// The hasher the `lru` crate's cache uses by default.
#[verifier::external_type_specification]
#[verifier::external_body]
pub struct ExDefaultHasher(lru::DefaultHasher);

/// The entries of a cache, most recently used first, each key taken by its
/// characters.
pub uninterp spec fn lru_entries(cache: LruCache<String, u64>) -> Seq<(Seq<char>, u64)>;

/// The number of entries a cache holds at most.
pub uninterp spec fn lru_capacity(cache: LruCache<String, u64>) -> nat;

/// The position of the entry for `key`, if any.
pub open spec fn position_of(entries: Seq<(Seq<char>, u64)>, key: Seq<char>) -> int
    decreases entries.len(),
{
    if entries.len() == 0 {
        -1
    } else if entries[0].0 == key {
        0
    } else {
        let rest = position_of(entries.subrange(1, entries.len() as int), key);
        if rest < 0 {
            -1
        } else {
            rest + 1
        }
    }
}

/// The entries with entry `i` moved to the front.
pub open spec fn moved_to_front(entries: Seq<(Seq<char>, u64)>, i: int) -> Seq<(Seq<char>, u64)> {
    seq![entries[i]] + entries.remove(i)
}

/// Calls `LruCache::new` with capacity `cap`. The crate's source builds an
/// empty cache with that capacity.
#[verifier::external_body]
pub(crate) fn lru_new(cap: usize) -> (cache: LruCache<String, u64>)
    requires
        cap > 0,
    ensures
        lru_entries(cache) == Seq::<(Seq<char>, u64)>::empty(),
        lru_capacity(cache) == cap,
{
    LruCache::new(std::num::NonZeroUsize::new(cap).unwrap())
}

/// Calls `LruCache::get_mut`. The crate's source returns the value stored for
/// `key` and moves its entry to the front (most recently used); without an
/// entry it returns nothing and leaves the cache alone.
#[verifier::external_body]
pub(crate) fn lru_get_mut(cache: &mut LruCache<String, u64>, key: &String) -> (value: Option<u64>)
    ensures
        lru_capacity(*final(cache)) == lru_capacity(*old(cache)),
        position_of(lru_entries(*old(cache)), key@) < 0 ==> value is None && lru_entries(*final(cache))
            == lru_entries(*old(cache)),
        position_of(lru_entries(*old(cache)), key@) >= 0 ==> value == Some(
            lru_entries(*old(cache))[position_of(lru_entries(*old(cache)), key@)].1,
        ) && lru_entries(*final(cache)) == moved_to_front(
            lru_entries(*old(cache)),
            position_of(lru_entries(*old(cache)), key@),
        ),
{
    cache.get_mut(key).copied()
}

/// Calls `LruCache::push`. The crate's source puts `(key, value)` at the front;
/// an entry for the same key is replaced and handed back with the old value;
/// otherwise, when the cache is full, the least recently used entry (the last)
/// is evicted and handed back; otherwise nothing is handed back.
#[verifier::external_body]
pub(crate) fn lru_push(cache: &mut LruCache<String, u64>, key: String, value: u64) -> (displaced: Option<(String, u64)>)
    ensures
        lru_capacity(*final(cache)) == lru_capacity(*old(cache)),
        ({
            let old_entries = lru_entries(*old(cache));
            let i = position_of(old_entries, key@);
            if i >= 0 {
                &&& lru_entries(*final(cache)) == seq![(key@, value)] + old_entries.remove(i)
                &&& displaced matches Some(d) && d.0@ == key@ && d.1 == old_entries[i].1
            } else if old_entries.len() == lru_capacity(*old(cache)) {
                &&& lru_entries(*final(cache)) == seq![(key@, value)] + old_entries.drop_last()
                &&& displaced matches Some(d) && d.0@ == old_entries.last().0 && d.1 == old_entries.last().1
            } else {
                &&& lru_entries(*final(cache)) == seq![(key@, value)] + old_entries
                &&& displaced is None
            }
        }),
{
    cache.push(key, value)
}

} // verus!
