//! Hash sets and maps with the Fx hasher, over integer keys.
//!
//! Everything in this file that is marked `external_body` states what the standard hash tables do
//! when `rustc_hash::FxBuildHasher` hashes their keys. That hasher is a pure function of the key,
//! so the tables behave as finite sets and maps.

use itertools::Itertools;
use rustc_hash::{FxBuildHasher, FxHashMap, FxHashSet};
use vstd::prelude::*;

use crate::link::SymbolRef;

verus! {

/// `rustc_hash::FxBuildHasher`: the hasher of every table in this crate.
#[verifier::external_type_specification]
#[verifier::external_body]
pub struct ExFxBuildHasher(FxBuildHasher);

/// `HashSet::insert`: adds `key` and says whether it was missing before.
#[verifier::external_body]
pub(crate) fn set_insert(set: &mut FxHashSet<usize>, key: usize) -> (added: bool)
    ensures
        final(set)@ == old(set)@.insert(key),
        added == !old(set)@.contains(key),
{
    set.insert(key)
}

/// `HashSet::contains`: whether `key` is a member.
#[verifier::external_body]
pub(crate) fn set_contains(set: &FxHashSet<usize>, key: usize) -> (found: bool)
    ensures
        found == set@.contains(key),
{
    set.contains(&key)
}

/// `HashSet::len`: the number of members.
#[verifier::external_body]
pub(crate) fn set_len(set: &FxHashSet<usize>) -> (len: usize)
    ensures
        len == set@.len(),
{
    set.len()
}

/// Adds every element of `keys`.
pub(crate) fn set_extend(set: &mut FxHashSet<usize>, keys: &Vec<usize>)
    ensures
        final(set)@ == old(set)@ + keys@.to_set(),
{
    let mut i: usize = 0;
    assert(keys@.take(0).to_set() =~= Set::empty());
    assert(set@ =~= old(set)@ + keys@.take(0).to_set());
    while i < keys.len()
        invariant
            i <= keys@.len(),
            set@ == old(set)@ + keys@.take(i as int).to_set(),
        decreases keys.len() - i,
    {
        set_insert(set, keys[i]);
        proof {
            assert(keys@.take(i + 1) =~= keys@.take(i as int).push(keys@[i as int]));
            assert(keys@.take(i + 1).to_set() =~= keys@.take(i as int).to_set().insert(
                keys@[i as int],
            )) by {
                keys@.take(i as int).lemma_push_to_set_commute(keys@[i as int]);
            }
            assert(set@ =~= old(set)@ + keys@.take(i + 1).to_set());
        }
        i = i + 1;
    }
    assert(keys@.take(keys@.len() as int) =~= keys@);
}

/// `HashSet::iter` gathered with `itertools::Itertools::collect_vec`: every member once, in no
/// promised order.
#[verifier::external_body]
pub(crate) fn set_items(set: &FxHashSet<usize>) -> (items: Vec<usize>)
    ensures
        items@.no_duplicates(),
        items@.to_set() == set@,
{
    set.iter().copied().collect_vec()
}

/// `HashSet::clone`: a set with the same members.
#[verifier::external_body]
pub(crate) fn set_clone(set: &FxHashSet<usize>) -> (copy: FxHashSet<usize>)
    ensures
        copy@ == set@,
{
    set.clone()
}

/// `HashSet::symmetric_difference` gathered with `itertools::Itertools::collect_vec`: every member
/// of one set that the other lacks, once, in no promised order.
#[verifier::external_body]
pub(crate) fn set_symmetric_difference(a: &FxHashSet<usize>, b: &FxHashSet<usize>) -> (items: Vec<
    usize,
>)
    ensures
        items@.no_duplicates(),
        items@.to_set() == a@.difference(b@) + b@.difference(a@),
{
    a.symmetric_difference(b).copied().collect_vec()
}

/// `HashSet::insert` for pairs: adds `key` and says whether it was missing before.
#[verifier::external_body]
pub(crate) fn pair_set_insert(set: &mut FxHashSet<(usize, usize)>, key: (usize, usize)) -> (added:
    bool)
    ensures
        final(set)@ == old(set)@.insert(key),
        added == !old(set)@.contains(key),
{
    set.insert(key)
}

/// `HashSet::contains` for pairs: whether `key` is a member.
#[verifier::external_body]
pub(crate) fn pair_set_contains(set: &FxHashSet<(usize, usize)>, key: (usize, usize)) -> (found:
    bool)
    ensures
        found == set@.contains(key),
{
    set.contains(&key)
}

/// `HashMap::insert`: maps `key` to `value`, in place of what it was mapped to before.
#[verifier::external_body]
pub(crate) fn map_insert(map: &mut FxHashMap<usize, usize>, key: usize, value: usize)
    ensures
        final(map)@ == old(map)@.insert(key, value),
{
    map.insert(key, value);
}

/// `HashMap::get`: what `key` is mapped to, if it is.
#[verifier::external_body]
pub(crate) fn map_get(map: &FxHashMap<usize, usize>, key: usize) -> (value: Option<usize>)
    ensures
        value == if map@.contains_key(key) {
            Some(map@[key])
        } else {
            None::<usize>
        },
{
    map.get(&key).copied()
}

/// `HashMap::values` gathered with `itertools::Itertools::collect_vec`: what the keys are mapped to,
/// once for each key, in no promised order.
#[verifier::external_body]
pub(crate) fn map_values(map: &FxHashMap<usize, usize>) -> (values: Vec<usize>)
    ensures
        values@.to_set() == map@.values(),
        values@.len() == map@.len(),
{
    map.values().copied().collect_vec()
}

/// `HashMap::get` for symbols, as owner and number: what `key` is mapped to, if it is.
#[verifier::external_body]
pub(crate) fn symbol_map_get<'a>(
    map: &'a FxHashMap<(usize, usize), Vec<SymbolRef>>,
    key: (usize, usize),
) -> (value: Option<&'a Vec<SymbolRef>>)
    ensures
        value == if map@.contains_key(key) {
            Some(&map@[key])
        } else {
            None::<&Vec<SymbolRef>>
        },
{
    map.get(&key)
}

} // verus!
