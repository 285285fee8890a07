//! Hashing and hash sets from rustc-hash, behind small trusted wrappers.
use vstd::prelude::*;

use rustc_hash::{FxHashSet, FxHasher};
use std::hash::{BuildHasherDefault, Hash, Hasher};

use crate::position::Pos;

verus! {

#[verifier::external_type_specification]
#[verifier::external_body]
pub struct ExFxHasher(FxHasher);

#[verifier::external_type_specification]
#[verifier::external_body]
#[verifier::reject_recursive_types(H)]
pub struct ExBuildHasherDefault<H>(BuildHasherDefault<H>);

/// The 64-bit FxHash digest of a sequence of positions.
pub uninterp spec fn fx_hash_of(s: Seq<Pos>) -> u64;

/// The keys held by a hash set of 64-bit keys.
pub uninterp spec fn key_set_contents(set: FxHashSet<u64>) -> Set<u64>;

/// Relies on rustc_hash's `FxHasher`: it has no random seed, so the digest
/// is a function of the positions hashed.
#[verifier::external_body]
pub(crate) fn fx_hash_positions(v: &[Pos]) -> (r: u64)
    ensures
        r == fx_hash_of(v@),
{
    let mut hasher = FxHasher::default();
    v.hash(&mut hasher);
    hasher.finish()
}

/// Relies on `FxHashSet::default` (std's `HashSet::default`): a new set is empty.
#[verifier::external_body]
pub(crate) fn new_key_set() -> (r: FxHashSet<u64>)
    ensures
        key_set_contents(r) == Set::<u64>::empty(),
{
    FxHashSet::default()
}

/// Relies on `HashSet::insert`: adds the key and reports whether it was absent.
#[verifier::external_body]
pub(crate) fn key_set_insert(set: &mut FxHashSet<u64>, k: u64) -> (r: bool)
    ensures
        key_set_contents(*final(set)) == key_set_contents(*old(set)).insert(k),
        r == !key_set_contents(*old(set)).contains(k),
{
    set.insert(k)
}

/// Relies on `HashSet::contains`: whether the key is held.
#[verifier::external_body]
pub(crate) fn key_set_contains(set: &FxHashSet<u64>, k: u64) -> (r: bool)
    ensures
        r == key_set_contents(*set).contains(k),
{
    set.contains(&k)
}

} // verus!
