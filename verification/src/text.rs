//! Character and string helpers shared by the tokenizer and the tree
//! constructor.

use vstd::prelude::*;

verus! {

/// Whether `c` counts as whitespace for parsing: space, newline or tab.
pub open spec fn spec_is_ws(c: char) -> bool {
    c == ' ' || c == '\n' || c == '\t'
}

/// Whether the character has the Unicode "Alphabetic" property.
pub uninterp spec fn is_alpha(c: char) -> bool;

/// Relies on char::is_alphabetic: true exactly when the character has the
/// Unicode "Alphabetic" property, a function of the character alone; on the
/// ASCII range that property holds exactly for the letters a-z and A-Z.
#[verifier::external_body]
pub(crate) fn char_is_alphabetic(c: char) -> (r: bool)
    ensures
        r == is_alpha(c),
        (c as u32) < 128 ==> r == (97 <= c as u32 <= 122 || 65 <= c as u32 <= 90),
{
    c.is_alphabetic()
}

/// Relies on String::push: appends the given character to the end of the
/// string, changing nothing else.
#[verifier::external_body]
pub(crate) fn push_char(s: &mut String, c: char)
    ensures
        final(s)@ == old(s)@.push(c),
{
    s.push(c);
}

/// A string holding the single character `c`.
pub(crate) fn char_to_string(c: char) -> (r: String)
    ensures
        r@ == seq![c],
{
    let mut s = String::new();
    push_char(&mut s, c);
    proof {
        assert(s@ =~= seq![c]);
    }
    s
}

/// Equality of two string slices, decided through owned copies.
pub(crate) fn str_eq(a: &str, b: &str) -> (r: bool)
    ensures
        r == (a@ == b@),
{
    let ao: String = a.to_owned();
    let bo: String = b.to_owned();
    ao.eq(&bo)
}

} // verus!
