//! The hash collections of `bevy::utils`, as far as the library uses them.
//!
//! `bevy::utils::HashSet` and `bevy::utils::HashMap` are the standard
//! library's collections with the hasher of the `ahash` crate. What a set or
//! a map holds is its view: a `Set` of its members, a `Map` of its keys to
//! their values. The contracts in this module are believed, not proved.

use bevy::utils::{HashMap, HashSet};
use std::hash::Hash;
use vstd::prelude::*;
use vstd::std_specs::hash::obeys_key_model;

verus! {

/// `ahash::RandomState`, the hasher state inside the collections of
/// `bevy::utils`. Nothing is said of what it holds.
#[verifier::external_type_specification]
#[verifier::external_body]
pub struct ExRandomState(ahash::RandomState);

/// `HashSet::insert` on a `bevy::utils::HashSet`: afterwards the set holds
/// `id` besides what it held, and the result says whether `id` is new in it.
/// This is claimed for identifiers whose `Hash` and `Eq` agree with equality
/// of values.
#[verifier::external_body]
pub(crate) fn set_insert<T: Copy + Hash + Eq>(set: &mut HashSet<T>, id: T) -> (fresh: bool)
    requires
        obeys_key_model::<T>(),
    ensures
        final(set)@ == old(set)@.insert(id),
        fresh == !old(set)@.contains(id),
{
    set.insert(id)
}

/// `HashSet::iter` on a `bevy::utils::HashSet`, each member copied out: the
/// result holds every member of the set once and nothing else. The order is
/// that in which the set is walked, of which nothing is said.
#[verifier::external_body]
pub(crate) fn set_members<T: Copy + Hash + Eq>(set: &HashSet<T>) -> (members: Vec<T>)
    requires
        obeys_key_model::<T>(),
    ensures
        members@.to_set() == set@,
        members@.no_duplicates(),
{
    set.iter().copied().collect()
}

/// `HashMap::contains_key` on a `bevy::utils::HashMap`: whether the map has
/// a value for `key`.
#[verifier::external_body]
pub(crate) fn map_contains_key<T: Copy + Hash + Eq>(map: &HashMap<T, T>, key: T) -> (held: bool)
    requires
        obeys_key_model::<T>(),
    ensures
        held == map@.contains_key(key),
{
    map.contains_key(&key)
}

/// `HashMap::insert` on a `bevy::utils::HashMap`: afterwards the map gives
/// `value` for `key`, in place of what it gave for `key` before if it gave
/// anything, and is unchanged for every other key.
#[verifier::external_body]
pub(crate) fn map_insert<T: Copy + Hash + Eq>(map: &mut HashMap<T, T>, key: T, value: T)
    requires
        obeys_key_model::<T>(),
    ensures
        final(map)@ == old(map)@.insert(key, value),
{
    map.insert(key, value);
}

} // verus!
