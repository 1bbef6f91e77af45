//! Hash maps and hash sets with the Fx hasher.
//!
//! The maps and sets of this crate are those of `rustc_hash`: standard hash
//! tables with a fast hasher that has no state of its own. The functions
//! here are the operations that the crate uses on them, each with what it
//! does to the contents. The contents of a map `m` are `m@`, the contents
//! of a set `s` are `s@`.

use rustc_hash::{FxHashMap, FxHashSet, FxHasher};
use std::hash::{BuildHasherDefault, Hash};
use vstd::prelude::*;
use vstd::std_specs::hash::obeys_key_model;

verus! {

/// `rustc_hash::FxHasher`, the hasher of the maps and sets: nothing is
/// said of it.
#[verifier::external_type_specification]
#[verifier::external_body]
pub struct ExFxHasher(FxHasher);

/// `std::hash::BuildHasherDefault`, which makes the hasher of a map or set
/// from the hasher's default: nothing is said of it.
#[verifier::external_type_specification]
#[verifier::external_body]
#[verifier::reject_recursive_types(H)]
pub struct ExBuildHasherDefault<H>(BuildHasherDefault<H>);

/// `<u64 as Hash>::hash`: feeds the number to a hasher. Nothing is said of
/// what the hasher holds afterwards.
pub assume_specification<H: std::hash::Hasher>[ <u64 as std::hash::Hash>::hash::<H> ](
    value: &u64,
    state: &mut H,
);

/// `FxHashMap::len`: the number of keys.
#[verifier::external_body]
pub(crate) fn map_len<K: Eq + Hash, V>(m: &FxHashMap<K, V>) -> (n: usize)
    requires
        obeys_key_model::<K>(),
    ensures
        n == m@.len(),
{
    m.len()
}

/// `FxHashMap::get`: the value of a key, if the map has it.
#[verifier::external_body]
pub(crate) fn map_get<'a, K: Eq + Hash, V>(m: &'a FxHashMap<K, V>, k: &K) -> (r: Option<&'a V>)
    requires
        obeys_key_model::<K>(),
    ensures
        r == (if m@.contains_key(*k) {
            Some(&m@[*k])
        } else {
            None
        }),
{
    m.get(k)
}

/// `FxHashMap::insert`: the key has the new value afterwards, and the value
/// that it had comes back.
#[verifier::external_body]
pub(crate) fn map_insert<K: Eq + Hash, V>(m: &mut FxHashMap<K, V>, k: K, v: V) -> (had: Option<V>)
    requires
        obeys_key_model::<K>(),
    ensures
        final(m)@ == old(m)@.insert(k, v),
        had == (if old(m)@.contains_key(k) {
            Some(old(m)@[k])
        } else {
            None
        }),
{
    m.insert(k, v)
}

/// `FxHashMap::remove`: the key is gone afterwards, and the value that it
/// had comes back.
#[verifier::external_body]
pub(crate) fn map_remove<K: Eq + Hash, V>(m: &mut FxHashMap<K, V>, k: &K) -> (had: Option<V>)
    requires
        obeys_key_model::<K>(),
    ensures
        final(m)@ == old(m)@.remove(*k),
        had == (if old(m)@.contains_key(*k) {
            Some(old(m)@[*k])
        } else {
            None
        }),
{
    m.remove(k)
}

/// `FxHashMap::keys`: every key once, in an order that the contents do not
/// determine.
#[verifier::external_body]
pub(crate) fn map_keys<K: Eq + Hash + Copy, V>(m: &FxHashMap<K, V>) -> (keys: Vec<K>)
    requires
        obeys_key_model::<K>(),
    ensures
        keys@.no_duplicates(),
        forall|k: K| keys@.contains(k) <==> m@.contains_key(k),
{
    m.keys().copied().collect()
}

/// `FxHashSet::insert`: the value is in the set afterwards; the result says
/// whether it is new.
#[verifier::external_body]
pub(crate) fn set_insert<K: Eq + Hash>(s: &mut FxHashSet<K>, k: K) -> (fresh: bool)
    requires
        obeys_key_model::<K>(),
    ensures
        final(s)@ == old(s)@.insert(k),
        fresh == !old(s)@.contains(k),
{
    s.insert(k)
}

/// `FxHashSet::contains`: whether the value is in the set.
#[verifier::external_body]
pub(crate) fn set_contains<K: Eq + Hash>(s: &FxHashSet<K>, k: &K) -> (r: bool)
    requires
        obeys_key_model::<K>(),
    ensures
        r == s@.contains(*k),
{
    s.contains(k)
}

} // verus!
