//! Hash collections with the XXH3 hasher.

use std::collections::{HashMap, HashSet};
use std::hash::Hash;
use vstd::prelude::*;
use vstd::std_specs::hash::obeys_key_model;
use xxhash_rust::xxh3::Xxh3Builder;

verus! {

/// The hasher factory; its contents are not examined.
#[verifier::external_type_specification]
#[verifier::external_body]
pub struct ExXxh3Builder(Xxh3Builder);

/// Whether hash collections can tell items of type `I` apart by their value, and only by it.
pub open spec fn keyed<I: DeepView>() -> bool {
    &&& obeys_key_model::<I>()
    &&& forall|a: I, b: I| #[trigger] a.deep_view() == #[trigger] b.deep_view() ==> a == b
}

/// [`HashSet::with_hasher`] gives a set without members. The hasher is that of
/// [`Xxh3Builder::new`], which has a fixed seed.
#[verifier::external_body]
fn make_set<I: Eq + Hash>() -> (set: HashSet<I, Xxh3Builder>)
    ensures
        set@ == (Set::<I>::empty()),
{
    HashSet::with_hasher(Xxh3Builder::new())
}

/// [`HashSet::insert`] adds a member and says whether it is new. With the XXH3 hasher, which is a
/// function of what is hashed, that holds of every type of key that obeys the key model. Of other
/// types of key nothing is said.
#[verifier::external_body]
fn insert_member<I: Eq + Hash>(set: &mut HashSet<I, Xxh3Builder>, item: I) -> (new: bool)
    ensures
        obeys_key_model::<I>() ==> final(set)@ == old(set)@.insert(item),
        obeys_key_model::<I>() ==> new == !old(set)@.contains(item),
{
    set.insert(item)
}

/// [`HashSet::contains`] says whether an item is a member, as above.
#[verifier::external_body]
fn has_member<I: Eq + Hash>(set: &HashSet<I, Xxh3Builder>, item: &I) -> (member: bool)
    ensures
        obeys_key_model::<I>() ==> member == set@.contains(*item),
{
    set.contains(item)
}

/// [`HashMap::with_hasher`] gives a map without entries. The hasher is that of
/// [`Xxh3Builder::new`], which has a fixed seed.
#[verifier::external_body]
fn make_map<I: Eq + Hash, N>() -> (map: HashMap<I, N, Xxh3Builder>)
    ensures
        map@ == (Map::<I, N>::empty()),
{
    HashMap::with_hasher(Xxh3Builder::new())
}

/// [`HashMap::contains_key`] says whether there is an entry for a key. With the XXH3 hasher, which is
/// a function of what is hashed, that holds of every type of key that obeys the key model. Of other
/// types of key nothing is said.
#[verifier::external_body]
fn has_key<I: Eq + Hash, N>(map: &HashMap<I, N, Xxh3Builder>, key: &I) -> (known: bool)
    ensures
        obeys_key_model::<I>() ==> known == map@.contains_key(*key),
{
    map.contains_key(key)
}

/// [`HashMap::insert`] records a value for a key, as above.
#[verifier::external_body]
fn record<I: Eq + Hash, N>(map: &mut HashMap<I, N, Xxh3Builder>, key: I, value: N)
    ensures
        obeys_key_model::<I>() ==> final(map)@ == old(map)@.insert(key, value),
{
    map.insert(key, value);
}

/// A set without members.
pub fn empty_set<I: Eq + Hash>() -> (set: HashSet<I, Xxh3Builder>)
    ensures
        set@ == (Set::<I>::empty()),
{
    make_set()
}

/// Adds a member, and says whether it is new.
pub fn enter<I: Eq + Hash>(set: &mut HashSet<I, Xxh3Builder>, item: I) -> (new: bool)
    ensures
        obeys_key_model::<I>() ==> final(set)@ == old(set)@.insert(item),
        obeys_key_model::<I>() ==> new == !old(set)@.contains(item),
{
    insert_member(set, item)
}

/// Whether an item is a member.
pub fn member<I: Eq + Hash>(set: &HashSet<I, Xxh3Builder>, item: &I) -> (member: bool)
    ensures
        obeys_key_model::<I>() ==> member == set@.contains(*item),
{
    has_member(set, item)
}

/// A map without entries.
pub fn empty_map<I: Eq + Hash, N>() -> (map: HashMap<I, N, Xxh3Builder>)
    ensures
        map@ == (Map::<I, N>::empty()),
{
    make_map()
}

/// Whether there is an entry for a key.
pub fn known<I: Eq + Hash, N>(map: &HashMap<I, N, Xxh3Builder>, key: &I) -> (known: bool)
    ensures
        obeys_key_model::<I>() ==> known == map@.contains_key(*key),
{
    has_key(map, key)
}

/// Records a value for a key.
pub fn note<I: Eq + Hash, N>(map: &mut HashMap<I, N, Xxh3Builder>, key: I, value: N)
    ensures
        obeys_key_model::<I>() ==> final(map)@ == old(map)@.insert(key, value),
{
    record(map, key, value)
}

} // verus!
