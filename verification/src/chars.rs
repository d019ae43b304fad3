//! Characters and strings: the Unicode character classes that the index
//! relies on, and the conversions between strings and character vectors.
//!
//! The character classes are those of the standard library. Their tables are
//! not restated here: each class has a name, and the contracts below say only
//! that the standard library's function returns what the name stands for.

use vstd::prelude::*;

verus! {

/// Whether `c` has the Unicode property `Alphabetic`, as `char::is_alphabetic`
/// reports it.
pub uninterp spec fn alphabetic(c: char) -> bool;

/// Whether `c` has the Unicode property `White_Space`, as
/// `char::is_whitespace` reports it.
pub uninterp spec fn whitespace(c: char) -> bool;

/// The lowercase mapping of `c`, as `char::to_lowercase` yields it: the
/// characters that stand for `c` in lowercase, in order.
pub uninterp spec fn lowercase(c: char) -> Seq<char>;

/// `char::is_alphabetic` depends on the character alone; its result is what
/// [`alphabetic`] names. Nothing else is claimed of it.
pub assume_specification[ char::is_alphabetic ](c: char) -> (b: bool)
    ensures
        b == alphabetic(c),
;

/// `char::is_whitespace` depends on the character alone; its result is what
/// [`whitespace`] names. Nothing else is claimed of it.
pub assume_specification[ char::is_whitespace ](c: char) -> (b: bool)
    ensures
        b == whitespace(c),
;

/// `String::push` appends the given character to the end of the string.
pub assume_specification[ String::push ](s: &mut String, c: char)
    ensures
        final(s)@ == old(s)@.push(c),
;

/// Calls `char::to_lowercase` and collects what its iterator yields. The
/// result depends on the character alone and is what [`lowercase`] names.
/// Nothing else is claimed of it.
#[verifier::external_body]
pub(crate) fn lowercase_of(c: char) -> (out: Vec<char>)
    ensures
        out@ == lowercase(c),
{
    c.to_lowercase().collect()
}

/// The characters of `text`, in order.
pub fn chars_of(text: &str) -> (out: Vec<char>)
    ensures
        out@ == text@,
{
    let mut out: Vec<char> = Vec::new();
    for c in it: text.chars()
        invariant
            out@ == it.seq().take(it.index() as int),
            it.seq() == text@,
    {
        out.push(c);
    }
    out
}

/// The string made of `chars`, in order.
pub fn string_of(chars: &Vec<char>) -> (out: String)
    ensures
        out@ == chars@,
{
    let mut out = String::new();
    let mut i: usize = 0;
    while i < chars.len()
        invariant
            i <= chars.len(),
            out@ == chars@.take(i as int),
        decreases chars.len() - i,
    {
        out.push(chars[i]);
        i += 1;
    }
    out
}

} // verus!
