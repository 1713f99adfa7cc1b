//! The values that a node stores for others: as many as fit, the least recently used leaving
//! first.

use crate::buffer::content;
use crate::id::Id;
use crate::item::{ItemView, MutableItem};
use crate::routing_table::at_most;
use crate::seqs::first_index;
use bytes::Bytes;
use lru::LruCache;
use vstd::prelude::*;

verus! {

/// `lru::LruCache`, a map that holds at most a set number of entries.
#[verifier::external_type_specification]
#[verifier::external_body]
#[verifier::reject_recursive_types(K)]
#[verifier::reject_recursive_types(V)]
#[verifier::reject_recursive_types(S)]
pub struct ExLruCache<K, V, S>(lru::LruCache<K, V, S>);

/// The hasher that `lru::LruCache` uses unless it is given another.
#[verifier::external_type_specification]
#[verifier::external_body]
pub struct ExDefaultHasher(lru::DefaultHasher);

/// A value that a node stores for others.
#[derive(Debug)]
pub enum Stored {
    Immutable(Bytes),
    Mutable(MutableItem),
}

/// What a [`Stored`] says.
#[verifier::ext_equal]
pub enum StoredView {
    Immutable(Seq<u8>),
    Mutable(ItemView),
}

impl View for Stored {
    type V = StoredView;

    open spec fn view(&self) -> StoredView {
        match *self {
            Stored::Immutable(value) => StoredView::Immutable(content(value)),
            Stored::Mutable(item) => StoredView::Mutable(item@),
        }
    }
}

/// The key of an entry: the two words of an identifier.
pub type Key = (u128, u32);

/// The entries of a cache, most recently used first.
pub uninterp spec fn cache_entries(cache: LruCache<Key, Stored>) -> Seq<(Key, StoredView)>;

/// How many entries a cache holds at most.
pub uninterp spec fn cache_capacity(cache: LruCache<Key, Stored>) -> nat;

/// The key under which an identifier's value is kept.
pub open spec fn key_of(id: Id) -> Key {
    (id.hi, id.lo)
}

/// Whether an entry has this key.
pub open spec fn has_key(key: Key) -> spec_fn((Key, StoredView)) -> bool {
    |e: (Key, StoredView)| e.0 == key
}

/// Whether an entry has another key than this.
pub open spec fn other_key(key: Key) -> spec_fn((Key, StoredView)) -> bool {
    |e: (Key, StoredView)| e.0 != key
}

/// The value that entries hold under a key.
pub open spec fn find_value(entries: Seq<(Key, StoredView)>, key: Key) -> Option<StoredView> {
    let index = first_index(entries, has_key(key));
    if index < entries.len() {
        Some(entries[index].1)
    } else {
        None
    }
}

/// The entries after the one with a key was used: it comes first.
pub open spec fn used(entries: Seq<(Key, StoredView)>, key: Key) -> Seq<(Key, StoredView)> {
    match find_value(entries, key) {
        Some(value) => seq![(key, value)] + entries.filter(other_key(key)),
        None => entries,
    }
}

/// The entries after a value was put under a key: it comes first, in place of what was there, and
/// what does not fit leaves at the end.
pub open spec fn stored(
    entries: Seq<(Key, StoredView)>,
    capacity: nat,
    key: Key,
    value: StoredView,
) -> Seq<(Key, StoredView)> {
    at_most(seq![(key, value)] + entries.filter(other_key(key)), capacity)
}

/// `LruCache::new`: a cache without entries, which holds at most `capacity` of them. It makes
/// room for all of them at once, so the number is kept small.
#[verifier::external_body]
pub(crate) fn cache_new(capacity: usize) -> (r: LruCache<Key, Stored>)
    requires
        0 < capacity <= 65_536,
    ensures
        cache_entries(r).len() == 0,
        cache_capacity(r) == capacity,
{
    LruCache::new(std::num::NonZeroUsize::new(capacity).unwrap())
}

/// `LruCache::get`: the value under a key, which then is the most recently used one.
#[verifier::external_body]
pub(crate) fn cache_get<'a>(cache: &'a mut LruCache<Key, Stored>, key: &Key) -> (r: Option<
    &'a Stored,
>)
    ensures
        match r {
            Some(value) => find_value(cache_entries(*old(cache)), *key) == Some(value@),
            None => find_value(cache_entries(*old(cache)), *key) is None,
        },
        cache_entries(*final(cache)) == used(cache_entries(*old(cache)), *key),
        cache_capacity(*final(cache)) == cache_capacity(*old(cache)),
{
    cache.get(key)
}

/// `LruCache::put`: a value under a key, in place of what was there; where the cache is full and
/// the key new, the least recently used entry leaves.
#[verifier::external_body]
pub(crate) fn cache_put(cache: &mut LruCache<Key, Stored>, key: Key, value: Stored)
    ensures
        cache_entries(*final(cache)) == stored(
            cache_entries(*old(cache)),
            cache_capacity(*old(cache)),
            key,
            value@,
        ),
        cache_capacity(*final(cache)) == cache_capacity(*old(cache)),
{
    let _ = cache.put(key, value);
}

} // verus!
