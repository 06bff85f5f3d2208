//! The hashing boundary of the tree: an opaque, deterministic digest function
//! on strings, and the decimal-string encoding under which two sibling digests
//! are combined into their parent digest.

use std::hash::{DefaultHasher, Hash, Hasher};
use vstd::prelude::*;
use vstd::string::StringExecFns;

verus! {

/// The decimal digit character for `d` (meaningful for `d < 10`).
pub open spec fn dec_digit(d: nat) -> char {
    if d == 0 {
        '0'
    } else if d == 1 {
        '1'
    } else if d == 2 {
        '2'
    } else if d == 3 {
        '3'
    } else if d == 4 {
        '4'
    } else if d == 5 {
        '5'
    } else if d == 6 {
        '6'
    } else if d == 7 {
        '7'
    } else if d == 8 {
        '8'
    } else {
        '9'
    }
}

/// The decimal representation of `n`: its digits in order, without a sign and
/// without leading zeroes.
pub open spec fn dec_rep(n: nat) -> Seq<char>
    decreases n,
{
    if n < 10 {
        seq![dec_digit(n)]
    } else {
        dec_rep(n / 10).push(dec_digit(n % 10))
    }
}

/// The digest of a string under the environment's hash primitive. The
/// primitive is deterministic but otherwise opaque: nothing else is assumed
/// of it, so no collision-freedom is available to any proof.
pub uninterp spec fn hash_of(s: Seq<char>) -> u64;

/// The parent digest of two sibling digests: the digest of the two decimal
/// representations laid end to end. The encoding is ambiguous — the pairs
/// `(12, 3)` and `(1, 23)` both concatenate to `"123"` — and that ambiguity
/// is part of the format this tree commits to.
pub open spec fn combine(left: u64, right: u64) -> u64 {
    hash_of(dec_rep(left as nat) + dec_rep(right as nat))
}

/// Hashes a string element.
///
/// Relies on `std::hash::DefaultHasher` and `str`'s `Hash` impl: every
/// hasher created through `new` is documented to hash identically, and it is
/// not seeded per process, so for one toolchain the digest is a function of
/// the characters alone.
#[verifier::external_body]
pub fn hash_element(element: &str) -> (digest: u64)
    ensures
        digest == hash_of(element@),
{
    let mut hasher = DefaultHasher::new();
    element.hash(&mut hasher);
    hasher.finish()
}

/// Relies on `u64`'s `Display` (through `ToString`): the decimal
/// representation of the value, without a sign or leading zeroes.
#[verifier::external_body]
fn u64_to_string(value: u64) -> (s: String)
    ensures
        s@ == dec_rep(value as nat),
{
    value.to_string()
}

/// Concatenates the decimal representations of two digests; the result is
/// what gets hashed to form their parent node.
pub fn concatenate_elements(elem1: u64, elem2: u64) -> (s: String)
    ensures
        s@ == dec_rep(elem1 as nat) + dec_rep(elem2 as nat),
{
    let first = u64_to_string(elem1);
    let second = u64_to_string(elem2);
    first.concat(second.as_str())
}

/// Computes the parent digest of two sibling digests.
pub fn combine_nodes(left: u64, right: u64) -> (digest: u64)
    ensures
        digest == combine(left, right),
{
    let concatenated = concatenate_elements(left, right);
    hash_element(concatenated.as_str())
}

} // verus!
