//! Identifying names by hash, and the single-letter names given to nodes
//! built from lists.
use vstd::prelude::*;

verus! {

/// Name for the hash that std's `DefaultHasher`, created with `new`, gives a
/// string: a function of the string alone within one build of the program.
pub uninterp spec fn str_hash(s: Seq<char>) -> u64;

/// Calculates the hash of `name` with std's `DefaultHasher`
/// (`BuildHasher::hash_one` on a `BuildHasherDefault<DefaultHasher>`: a fresh
/// `DefaultHasher::new()`, the name hashed into it, then `finish`).
/// Claimed: the result is `str_hash` of the name's characters, that is, the
/// same name always gives the same hash. Not claimed: which value that is,
/// nor that distinct names give distinct hashes.
#[verifier::external_body]
pub(crate) fn calculate_hash(name: &str) -> (h: u64)
    ensures
        h == str_hash(name@),
{
    std::hash::BuildHasher::hash_one(
        &std::hash::BuildHasherDefault::<std::hash::DefaultHasher>::default(),
        name,
    )
}

/// Whether `v` is a Unicode scalar value, that is, the code of some `char`.
pub open spec fn is_scalar_value(v: u32) -> bool {
    v <= 0x10FFFF && !(0xD800 <= v <= 0xDFFF)
}

/// std's `char::from_u32`: claimed, as its documentation states, to return
/// the `char` whose code is `v` (`v as char`) when `v` is a Unicode scalar value, and
/// `None` otherwise.
#[verifier::external_body]
pub(crate) fn char_from_u32(v: u32) -> (c: Option<char>)
    ensures
        c is Some <==> is_scalar_value(v),
        c matches Some(ch) ==> ch == v as char,
{
    std::char::from_u32(v)
}

/// std's `ToString::to_string` on a `char`: claimed to return the string
/// made of that one character.
#[verifier::external_body]
pub(crate) fn char_to_string(c: char) -> (s: String)
    ensures
        s@ == seq![c],
{
    std::string::ToString::to_string(&c)
}

/// The name given to the `i`-th item built from a list: the single letter
/// whose code is 65 + i ("A", "B", ...).
pub open spec fn letter_name(i: int) -> Seq<char> {
    seq![(65 + i) as char]
}

/// The largest number of items that can be named by `letter_name`: the codes
/// from 65 up to the first surrogate code, 0xD800, exclusive.
pub open spec fn max_named() -> int {
    0xD800 - 65
}

/// Returns `letter_name(i)` as a `String`.
pub fn letter(i: usize) -> (s: String)
    requires
        i < max_named(),
    ensures
        s@ == letter_name(i as int),
{
    let ch = char_from_u32(65 + i as u32).unwrap();
    char_to_string(ch)
}

} // verus!
