//! The jump table: a map from operation index to operation index, kept in an
//! `FxHashMap`, which is std's `HashMap` hashing with `rustc_hash`'s
//! `FxBuildHasher`. Neither the map nor the hasher is verified here: the
//! three functions below state, without proof, what the map's operations do
//! to its entries, seen as a `Map` through `@`.

use rustc_hash::FxBuildHasher;
use rustc_hash::FxHashMap;
use vstd::prelude::*;

verus! {

/// `rustc_hash::FxBuildHasher`, the hasher factory in the type of
/// `FxHashMap`: named so that the map's type can be written, never inspected.
#[verifier::external_type_specification]
#[verifier::external_body]
pub struct ExFxBuildHasher(FxBuildHasher);

/// Calls `FxHashMap::default`, that is `HashMap::default` with a default
/// `FxBuildHasher`. Claimed: the new table holds no entry.
#[verifier::external_body]
pub(crate) fn empty_table() -> (fresh: FxHashMap<usize, usize>)
    ensures
        (fresh@ == Map::<usize, usize>::empty()),
{
    FxHashMap::default()
}

/// Calls `HashMap::insert` on an `FxHashMap` and drops what it returns.
/// Claimed: afterwards `key` maps to `value`, and every other entry is as it
/// was.
#[verifier::external_body]
pub(crate) fn record(table: &mut FxHashMap<usize, usize>, key: usize, value: usize)
    ensures
        final(table)@ == old(table)@.insert(key, value),
{
    table.insert(key, value);
}

/// Calls `HashMap::get` on an `FxHashMap` and copies the value out of the
/// reference. Claimed: the result is the value stored under `key`, or `None`
/// where `key` has no entry.
#[verifier::external_body]
pub(crate) fn lookup(table: &FxHashMap<usize, usize>, key: usize) -> (found: Option<usize>)
    ensures
        found == (if table@.contains_key(key) {
            Some(table@[key])
        } else {
            None
        }),
{
    table.get(&key).copied()
}

} // verus!
