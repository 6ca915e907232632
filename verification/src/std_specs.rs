//! What this crate takes from the standard library on trust: the three
//! functions below, of which vstd says nothing. Nothing here is proved; each
//! contract says no more than the documentation of the function does.

use vstd::prelude::*;

verus! {

/// Whether `c` is an uppercase letter, as `char::is_uppercase` of the standard
/// library tells it (the Unicode property `Uppercase`).
pub uninterp spec fn char_is_uppercase(c: char) -> bool;

/// The lowercase form of `c`, as `char::to_lowercase` of the standard library
/// gives it: one character or more.
pub uninterp spec fn char_lowercase(c: char) -> Seq<char>;

/// `char::is_uppercase` of the standard library. Its answer is what
/// `char_is_uppercase` names.
pub assume_specification[ char::is_uppercase ](c: char) -> (b: bool)
    ensures
        b == char_is_uppercase(c),
;

/// `String::push` of the standard library: the character is appended, the rest
/// of the string stays.
pub assume_specification[ String::push ](s: &mut String, c: char)
    ensures
        final(s)@ == old(s)@.push(c),
;

/// `char::to_lowercase` of the standard library, its characters gathered in a
/// string. They are what `char_lowercase` names.
#[verifier::external_body]
pub(crate) fn lowercase(c: char) -> (s: String)
    ensures
        s@ == char_lowercase(c),
{
    c.to_lowercase().to_string()
}

} // verus!
