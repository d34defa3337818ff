use std::collections::HashSet;

use ahash::RandomState;
use vstd::prelude::*;

verus! {

// vstd states `HashSet`'s operations only for key types and hash builders of
// its own model, which 20-byte keys and ahash's builder are not; these items
// state them for the one kind of set this crate keeps: infohashes hashed by
// ahash's builder, whose hashes are consistent with `==` on the keys.

#[verifier::external_type_specification]
#[verifier::external_body]
pub struct ExAhashRandomState(RandomState);

/// A set of infohashes.
pub type KeySet = HashSet<[u8; 20], RandomState>;

/// `ahash::RandomState::new`: a hash builder with random keys. Nothing is
/// stated of it: it is random.
#[verifier::external_body]
pub(crate) fn new_hasher() -> RandomState {
    RandomState::new()
}

/// `HashSet::with_hasher`: an empty set.
#[verifier::external_body]
pub(crate) fn new_key_set(hasher: RandomState) -> (set: KeySet)
    ensures
        set@ == Set::<[u8; 20]>::empty(),
{
    HashSet::with_hasher(hasher)
}


/// `HashSet::insert`: the key is in the set afterwards, nothing else changes,
/// and the result says whether it was absent before.
#[verifier::external_body]
pub(crate) fn key_set_insert(set: &mut KeySet, key: [u8; 20]) -> (added: bool)
    ensures
        final(set)@ == old(set)@.insert(key),
        added == !old(set)@.contains(key),
{
    set.insert(key)
}

/// `HashSet::remove`: the key is absent afterwards, nothing else changes,
/// and the result says whether it was present before.
#[verifier::external_body]
pub(crate) fn key_set_remove(set: &mut KeySet, key: &[u8; 20]) -> (removed: bool)
    ensures
        final(set)@ == old(set)@.remove(*key),
        removed == old(set)@.contains(*key),
{
    set.remove(key)
}

/// `HashSet::contains`: whether the key is in the set.
#[verifier::external_body]
pub(crate) fn key_set_contains(set: &KeySet, key: &[u8; 20]) -> (found: bool)
    ensures
        found == set@.contains(*key),
{
    set.contains(key)
}

/// `HashSet::len`: the number of keys in the set.
#[verifier::external_body]
pub(crate) fn key_set_len(set: &KeySet) -> (count: usize)
    ensures
        count == set@.len(),
{
    set.len()
}

/// `HashSet::iter`: an iterator that yields every key of the set once, as
/// vstd states it for key types of its own model.
#[verifier::external_body]
fn key_set_iter<'a>(set: &'a KeySet) -> (keys: std::collections::hash_set::Iter<'a, [u8; 20]>)
    ensures
        keys == vstd::std_specs::hash::spec_hash_keys_iter(set),
        vstd::std_specs::iter::IteratorSpec::decrease(&keys) is Some,
        vstd::std_specs::iter::IteratorSpec::initial_value_relation(&keys, &keys),
{
    set.iter()
}

/// Every key of the set, each once, in the set's iteration order.
pub(crate) fn key_set_keys(set: &KeySet) -> (keys: Vec<[u8; 20]>)
    ensures
        keys@.no_duplicates(),
        keys@.to_set() == set@,
{
    let mut keys: Vec<[u8; 20]> = Vec::new();
    let ghost all = vstd::std_specs::iter::IteratorSpec::remaining(
        &vstd::std_specs::hash::spec_hash_keys_iter(set),
    );
    proof {
        vstd::std_specs::hash::axiom_spec_hash_keys_iter(set);
    }
    for k in it: key_set_iter(set)
        invariant
            all == vstd::std_specs::iter::IteratorSpec::remaining(
                &vstd::std_specs::hash::spec_hash_keys_iter(set),
            ),
            all.unref().to_set() == set@,
            all.no_duplicates(),
            it.seq() == all,
            keys@.len() == it.index(),
            forall|j: int| 0 <= j < keys@.len() ==> keys@[j] == *all[j],
    {
        keys.push(*k);
    }
    proof {
        assert(keys@ =~= all.unref());
        assert forall|a: int, b: int| 0 <= a < b < keys@.len() implies keys@[a] != keys@[b] by {
            assert(all[a] != all[b]);
        }
    }
    keys
}

} // verus!
