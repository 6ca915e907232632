//! Names in camel case, rewritten with dashes.

use crate::std_specs::{char_is_uppercase, char_lowercase, lowercase};
use vstd::prelude::*;

verus! {

/// What one character of a name becomes: an uppercase letter becomes a hyphen
/// and its lowercase form, any other character stays.
pub open spec fn dashed_char(c: char) -> Seq<char> {
    if char_is_uppercase(c) {
        seq!['-'] + char_lowercase(c)
    } else {
        seq![c]
    }
}

/// The dashed form of a name: each of its characters replaced by its
/// `dashed_char`, in order.
pub open spec fn dashed(name: Seq<char>) -> Seq<char>
    decreases name.len(),
{
    if name.len() == 0 {
        Seq::empty()
    } else {
        dashed(name.drop_last()) + dashed_char(name.last())
    }
}

/// A name without uppercase letters.
pub open spec fn is_plain(name: Seq<char>) -> bool {
    forall|i: int| 0 <= i < name.len() ==> !char_is_uppercase(#[trigger] name[i])
}

/// Puts behind `out` what the character `c` of a name becomes, where
/// `uppercase` tells whether it is an uppercase letter and `lower` is its
/// lowercase form: a hyphen and `lower`, or `c` itself.
pub fn push_dashed(out: &mut String, c: char, uppercase: bool, lower: &str)
    ensures
        final(out)@ == old(out)@ + if uppercase {
            seq!['-'] + lower@
        } else {
            seq![c]
        },
{
    let ghost before = out@;
    if uppercase {
        out.push('-');
        out.append(lower);
        proof {
            assert(out@ =~= before + (seq!['-'] + lower@));
        }
    } else {
        out.push(c);
        proof {
            assert(out@ =~= before + seq![c]);
        }
    }
}

/// Rewrites a name from camel case to dashes: `fontFamily` to `font-family`.
pub fn camelcase_to_dashed(property_name: &str) -> (res: String)
    ensures
        res@ == dashed(property_name@),
{
    let mut res = String::new();
    for character in it: property_name.chars()
        invariant
            it.seq() == property_name@,
            res@ == dashed(it.seq().take(it.index())),
    {
        proof {
            assert(it.seq().take(it.index() + 1).drop_last() =~= it.seq().take(it.index()));
        }
        if character.is_uppercase() {
            let lower = lowercase(character);
            push_dashed(&mut res, character, true, lower.as_str());
        } else {
            push_dashed(&mut res, character, false, "");
        }
    }
    proof {
        assert(property_name@.take(property_name@.len() as int) =~= property_name@);
    }
    res
}

/// A name that is dashed already stays as it is: rewriting changes nothing
/// where no uppercase letter is left.
pub proof fn lemma_dashed_plain(name: Seq<char>)
    requires
        is_plain(name),
    ensures
        dashed(name) == name,
    decreases name.len(),
{
    if name.len() > 0 {
        lemma_dashed_plain(name.drop_last());
        assert(name.drop_last().push(name.last()) =~= name);
    }
}

} // verus!
