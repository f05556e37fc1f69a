//! The aircraft table: a map from address to aircraft that remembers an order.
//!
//! The map is `hashlink::LinkedHashMap`, hashed with `rustc_hash::FxHasher`.
//! [`entries`] names what it holds, front to back, and [`remaining`] what a walk
//! over it has still to visit.

use crate::state::Aircraft;
use hashlink::linked_hash_map::Iter;
use hashlink::LinkedHashMap;
use rustc_hash::FxHasher;
use std::hash::BuildHasherDefault;
use vstd::prelude::*;

verus! {

/// `hashlink::LinkedHashMap`.
#[verifier::external_type_specification]
#[verifier::external_body]
#[verifier::reject_recursive_types(K)]
#[verifier::reject_recursive_types(V)]
#[verifier::reject_recursive_types(S)]
pub struct ExLinkedHashMap<K, V, S>(hashlink::LinkedHashMap<K, V, S>);

/// `hashlink::linked_hash_map::Iter`.
#[verifier::external_type_specification]
#[verifier::external_body]
#[verifier::reject_recursive_types(K)]
#[verifier::reject_recursive_types(V)]
pub struct ExIter<'a, K, V>(hashlink::linked_hash_map::Iter<'a, K, V>);

/// `std::hash::BuildHasherDefault`.
#[verifier::external_type_specification]
#[verifier::external_body]
#[verifier::reject_recursive_types(H)]
pub struct ExBuildHasherDefault<H>(std::hash::BuildHasherDefault<H>);

/// `rustc_hash::FxHasher`.
#[verifier::external_type_specification]
#[verifier::external_body]
pub struct ExFxHasher(rustc_hash::FxHasher);

/// The table of aircraft by address. Its front is the aircraft heard longest ago.
pub type AircraftMap = LinkedHashMap<u32, Aircraft, BuildHasherDefault<FxHasher>>;

/// The entries of a table, front to back.
pub uninterp spec fn entries(m: LinkedHashMap<u32, Aircraft, BuildHasherDefault<FxHasher>>) -> Seq<(u32, Aircraft)>;

/// The entries that a walk has still to visit, front to back.
pub uninterp spec fn remaining(it: Iter<'_, u32, Aircraft>) -> Seq<(u32, Aircraft)>;

/// Some entry has the key.
pub open spec fn has_key(e: Seq<(u32, Aircraft)>, k: u32) -> bool {
    exists|i: int| 0 <= i < e.len() && (#[trigger] e[i]).0 == k
}

/// Where the key is.
pub open spec fn index_of(e: Seq<(u32, Aircraft)>, k: u32) -> int {
    choose|i: int| 0 <= i < e.len() && (#[trigger] e[i]).0 == k
}

/// No key occurs twice.
pub open spec fn distinct_keys(e: Seq<(u32, Aircraft)>) -> bool {
    forall|i: int, j: int|
        0 <= i < e.len() && 0 <= j < e.len() && (#[trigger] e[i]).0 == (#[trigger] e[j]).0 ==> i == j
}

/// The entries with the one of the key moved to the back.
pub open spec fn moved_to_back(e: Seq<(u32, Aircraft)>, k: u32) -> Seq<(u32, Aircraft)> {
    if has_key(e, k) {
        e.remove(index_of(e, k)).push(e[index_of(e, k)])
    } else {
        e
    }
}

/// `LinkedHashMap::with_capacity_and_hasher`: the map is empty. The bound keeps the
/// bucket array, at most `16 / 7` times the capacity of nine bytes each, within
/// what can be allocated.
#[verifier::external_body]
pub(crate) fn new_table(capacity: usize) -> (m: AircraftMap)
    requires
        32 * capacity + 64 <= isize::MAX,
    ensures
        entries(m) == Seq::<(u32, Aircraft)>::empty(),
{
    LinkedHashMap::with_capacity_and_hasher(capacity, BuildHasherDefault::default())
}

/// `LinkedHashMap::len`: the number of entries.
#[verifier::external_body]
pub(crate) fn table_len(m: &AircraftMap) -> (n: usize)
    ensures
        n == entries(*m).len(),
{
    m.len()
}

/// `LinkedHashMap::contains_key`: whether some entry has the key.
#[verifier::external_body]
pub(crate) fn table_contains(m: &AircraftMap, k: u32) -> (yes: bool)
    ensures
        yes == has_key(entries(*m), k),
{
    m.contains_key(&k)
}

/// `LinkedHashMap::get`: the value at the key.
#[verifier::external_body]
pub(crate) fn table_get(m: &AircraftMap, k: u32) -> (v: Option<&Aircraft>)
    ensures
        match v {
            Some(a) => has_key(entries(*m), k) && *a == entries(*m)[index_of(entries(*m), k)].1,
            None => !has_key(entries(*m), k),
        },
{
    m.get(&k)
}

/// `LinkedHashMap::get_mut`: the value at the key, to be changed in place.
#[verifier::external_body]
pub(crate) fn table_get_mut(m: &mut AircraftMap, k: u32) -> (v: Option<&mut Aircraft>)
    ensures
        match v {
            Some(a) => {
                let e = entries(*old(m));
                let i = index_of(e, k);
                &&& has_key(e, k)
                &&& *a == e[i].1
                &&& entries(*final(m)) == e.update(i, (k, *final(a)))
            },
            None => !has_key(entries(*old(m)), k) && entries(*final(m)) == entries(*old(m)),
        },
{
    m.get_mut(&k)
}

/// `LinkedHashMap::insert`: a new key goes to the back.
#[verifier::external_body]
pub(crate) fn table_insert(m: &mut AircraftMap, k: u32, v: Aircraft)
    requires
        !has_key(entries(*old(m)), k),
    ensures
        entries(*final(m)) == entries(*old(m)).push((k, v)),
{
    m.insert(k, v);
}

/// `LinkedHashMap::to_back`: the entry of the key moves to the back.
#[verifier::external_body]
pub(crate) fn table_to_back(m: &mut AircraftMap, k: u32)
    ensures
        entries(*final(m)) == moved_to_back(entries(*old(m)), k),
{
    m.to_back(&k);
}

/// `LinkedHashMap::front`: the first entry.
#[verifier::external_body]
pub(crate) fn table_front(m: &AircraftMap) -> (r: Option<(&u32, &Aircraft)>)
    ensures
        match r {
            Some((k, a)) => entries(*m).len() > 0 && (*k, *a) == entries(*m)[0],
            None => entries(*m).len() == 0,
        },
{
    m.front()
}

/// `LinkedHashMap::pop_front`: the first entry is removed and returned.
#[verifier::external_body]
pub(crate) fn table_pop_front(m: &mut AircraftMap) -> (r: Option<(u32, Aircraft)>)
    ensures
        match r {
            Some(e) => {
                &&& entries(*old(m)).len() > 0
                &&& e == entries(*old(m))[0]
                &&& entries(*final(m)) == entries(*old(m)).skip(1)
            },
            None => entries(*old(m)).len() == 0 && entries(*final(m)) == entries(*old(m)),
        },
{
    m.pop_front()
}

/// `LinkedHashMap::iter`: a walk over all entries.
#[verifier::external_body]
pub(crate) fn table_iter(m: &AircraftMap) -> (it: Iter<'_, u32, Aircraft>)
    ensures
        remaining(it) == entries(*m),
{
    m.iter()
}

/// `Iter::next`: the next entry from the front.
#[verifier::external_body]
pub(crate) fn iter_next<'a>(it: &mut Iter<'a, u32, Aircraft>) -> (r: Option<(&'a u32, &'a Aircraft)>)
    ensures
        match r {
            Some((k, a)) => {
                &&& remaining(*old(it)).len() > 0
                &&& (*k, *a) == remaining(*old(it))[0]
                &&& remaining(*final(it)) == remaining(*old(it)).skip(1)
            },
            None => remaining(*old(it)).len() == 0 && remaining(*final(it)) == remaining(*old(it)),
        },
{
    it.next()
}

/// `Iter::next_back`: the next entry from the back.
#[verifier::external_body]
pub(crate) fn iter_next_back<'a>(it: &mut Iter<'a, u32, Aircraft>) -> (r: Option<(&'a u32, &'a Aircraft)>)
    ensures
        match r {
            Some((k, a)) => {
                &&& remaining(*old(it)).len() > 0
                &&& (*k, *a) == remaining(*old(it)).last()
                &&& remaining(*final(it)) == remaining(*old(it)).drop_last()
            },
            None => remaining(*old(it)).len() == 0 && remaining(*final(it)) == remaining(*old(it)),
        },
{
    it.next_back()
}

} // verus!
