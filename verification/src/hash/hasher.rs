//! How the keys of a table are hashed.
use rustc_hash::FxBuildHasher;
use std::hash::BuildHasher;
use vstd::prelude::*;
use vstd::std_specs::cmp::PartialEqSpec;

verus! {

/// What hashes the keys of a table. The hash of a key is the same whenever it is asked for.
pub trait KeyHasher<K> {
    /// The hash of a key.
    spec fn spec_hash(&self, key: &K) -> u64;

    /// Computes the hash of a key.
    fn hash_key(&self, key: &K) -> (hash: u64)
        ensures
            hash == self.spec_hash(key),
    ;
}

/// The hash function of a hasher.
pub open spec fn hash_fn<K, S: KeyHasher<K>>(hasher: S) -> spec_fn(K) -> u64 {
    |key: K| hasher.spec_hash(&key)
}

/// Equal keys have equal hashes.
pub open spec fn respects_eq<K: PartialEq>(hash: spec_fn(K) -> u64) -> bool {
    forall|a: K, b: K| #[trigger] a.eq_spec(&b) ==> hash(a) == hash(b)
}

/// The comparison of keys is reflexive, symmetric and transitive.
pub open spec fn eq_is_equivalence<K: PartialEq>() -> bool {
    &&& forall|a: K| #[trigger] a.eq_spec(&a)
    &&& forall|a: K, b: K| #[trigger] a.eq_spec(&b) ==> b.eq_spec(&a)
    &&& forall|a: K, b: K, c: K| #[trigger]
        a.eq_spec(&b) && #[trigger] b.eq_spec(&c) ==> a.eq_spec(&c)
}

/// The default hasher, of the crate `rustc_hash`.
#[verifier::external_type_specification]
#[verifier::external_body]
pub struct ExFxBuildHasher(FxBuildHasher);

/// `FxBuildHasher::default` makes the hasher. The type has one value only, so nothing needs to
/// be said of it.
pub assume_specification[ <FxBuildHasher as Default>::default ]() -> FxBuildHasher;

/// The hash that `FxBuildHasher` gives to a `u32`, on a machine with pointers of so many bits.
pub uninterp spec fn fx_hash_u32(key: u32, pointer_bits: u32) -> u64;

/// The hash that `FxBuildHasher` gives to a `u64`, on a machine with pointers of so many bits.
pub uninterp spec fn fx_hash_u64(key: u64, pointer_bits: u32) -> u64;

/// The hash that `FxBuildHasher` gives to a `u128`, on a machine with pointers of so many bits.
pub uninterp spec fn fx_hash_u128(key: u128, pointer_bits: u32) -> u64;

/// `BuildHasher::hash_one` of `FxBuildHasher`, on a `u32`. The hasher starts from the same state
/// each time and computes on words as wide as a pointer, so the hash is a function of the key
/// and of that width.
#[verifier::external_body]
fn fx_hash_one_u32(hasher: &FxBuildHasher, key: &u32) -> (hash: u64)
    ensures
        hash == fx_hash_u32(*key, usize::BITS),
{
    hasher.hash_one(key)
}

/// `BuildHasher::hash_one` of `FxBuildHasher`, on a `u64`. The hasher starts from the same state
/// each time and computes on words as wide as a pointer, so the hash is a function of the key
/// and of that width.
#[verifier::external_body]
fn fx_hash_one_u64(hasher: &FxBuildHasher, key: &u64) -> (hash: u64)
    ensures
        hash == fx_hash_u64(*key, usize::BITS),
{
    hasher.hash_one(key)
}

/// `BuildHasher::hash_one` of `FxBuildHasher`, on a `u128`. The hasher starts from the same state
/// each time and computes on words as wide as a pointer, so the hash is a function of the key
/// and of that width.
#[verifier::external_body]
fn fx_hash_one_u128(hasher: &FxBuildHasher, key: &u128) -> (hash: u64)
    ensures
        hash == fx_hash_u128(*key, usize::BITS),
{
    hasher.hash_one(key)
}

impl KeyHasher<u32> for FxBuildHasher {
    open spec fn spec_hash(&self, key: &u32) -> u64 {
        fx_hash_u32(*key, usize::BITS)
    }

    fn hash_key(&self, key: &u32) -> (hash: u64)
        ensures
            hash == fx_hash_u32(*key, usize::BITS),
    {
        fx_hash_one_u32(self, key)
    }
}

impl KeyHasher<u64> for FxBuildHasher {
    open spec fn spec_hash(&self, key: &u64) -> u64 {
        fx_hash_u64(*key, usize::BITS)
    }

    fn hash_key(&self, key: &u64) -> (hash: u64)
        ensures
            hash == fx_hash_u64(*key, usize::BITS),
    {
        fx_hash_one_u64(self, key)
    }
}

impl KeyHasher<u128> for FxBuildHasher {
    open spec fn spec_hash(&self, key: &u128) -> u64 {
        fx_hash_u128(*key, usize::BITS)
    }

    fn hash_key(&self, key: &u128) -> (hash: u64)
        ensures
            hash == fx_hash_u128(*key, usize::BITS),
    {
        fx_hash_one_u128(self, key)
    }
}

/// The default hasher gives to every key the hash that `hash_one` gives to that very key.
pub proof fn law_fx_hash_is_hash_one(hasher: FxBuildHasher, a: u32, b: u64, c: u128)
    ensures
        hasher.spec_hash(&a) == fx_hash_u32(a, usize::BITS),
        hasher.spec_hash(&b) == fx_hash_u64(b, usize::BITS),
        hasher.spec_hash(&c) == fx_hash_u128(c, usize::BITS),
{
}

/// The hash function of a hasher gives to every key the hash that the hasher computes for it.
pub proof fn law_hash_fn_is_the_hasher<K, S: KeyHasher<K>>(hasher: S, key: K)
    ensures
        hash_fn(hasher)(key) == hasher.spec_hash(&key),
{
}

} // verus!
