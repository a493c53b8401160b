use vstd::prelude::*;

verus! {

/// The 64-bit hash of a key, as std's `DefaultHasher` (created by `new`, so
/// with fixed keys, not seeded per process) computes it over the key's text.
pub uninterp spec fn key_hash(s: Seq<char>) -> u64;

/// Relies on `BuildHasher::hash_one` over `BuildHasherDefault<DefaultHasher>`:
/// it builds a fresh `DefaultHasher`, feeds it the string and returns
/// `finish()`, a value that depends on the string alone.
#[verifier::external_body]
fn default_hash(key: &str) -> (r: u64)
    ensures
        r == key_hash(key@),
{
    let builder = std::hash::BuildHasherDefault::<std::collections::hash_map::DefaultHasher>::default();
    std::hash::BuildHasher::hash_one(&builder, key)
}

/// The hash under which an entry with the given key is filed.
pub fn hash_f(key: &str) -> (r: u64)
    ensures
        r == key_hash(key@),
{
    default_hash(key)
}

} // verus!
