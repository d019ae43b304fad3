//! The normalizer: from a raw token to the term under which it is indexed.

use vstd::prelude::*;
use crate::chars::{alphabetic, chars_of, lowercase, lowercase_of, string_of};

verus! {

/// The term of a raw token: its alphabetic characters, each replaced by its
/// lowercase mapping. A token without alphabetic characters has the empty term.
pub open spec fn normalized(token: Seq<char>) -> Seq<char> {
    token.filter(|c: char| alphabetic(c)).flat_map(|c: char| lowercase(c))
}

/// What one more character at the end of a token adds to its term.
pub proof fn lemma_normalized_push(token: Seq<char>, c: char)
    ensures
        normalized(token.push(c)) == if alphabetic(c) {
            normalized(token) + lowercase(c)
        } else {
            normalized(token)
        },
{
    let keep = |c: char| alphabetic(c);
    let lower = |c: char| lowercase(c);
    token.lemma_filter_push(c, keep);
    if alphabetic(c) {
        token.filter(keep).lemma_flat_map_push(lower, c);
    }
}

/// A token that holds no alphabetic character has the empty term.
pub proof fn lemma_normalized_empty(token: Seq<char>)
    requires
        forall|i: int| 0 <= i < token.len() ==> !alphabetic(token[i]),
    ensures
        normalized(token) == Seq::<char>::empty(),
    decreases token.len(),
{
    if token.len() > 0 {
        let front = token.drop_last();
        lemma_normalized_empty(front);
        lemma_normalized_push(front, token.last());
        assert(front.push(token.last()) =~= token);
    } else {
        assert(token.filter(|c: char| alphabetic(c)) =~= Seq::<char>::empty());
    }
}

/// Normalizes the characters of `line` from `start` up to `end`.
pub(crate) fn normalize_span(line: &Vec<char>, start: usize, end: usize) -> (term: Vec<char>)
    requires
        start <= end <= line.len(),
    ensures
        term@ == normalized(line@.subrange(start as int, end as int)),
{
    let mut term: Vec<char> = Vec::new();
    let mut i: usize = start;
    proof {
        lemma_normalized_empty(line@.subrange(start as int, start as int));
    }
    while i < end
        invariant
            start <= i <= end <= line.len(),
            term@ == normalized(line@.subrange(start as int, i as int)),
        decreases end - i,
    {
        let c = line[i];
        proof {
            lemma_normalized_push(line@.subrange(start as int, i as int), c);
            assert(line@.subrange(start as int, i as int).push(c) =~= line@.subrange(
                start as int,
                i + 1,
            ));
        }
        if c.is_alphabetic() {
            let mut lower = lowercase_of(c);
            term.append(&mut lower);
        }
        i += 1;
    }
    term
}

/// Normalizes a raw token: keeps its alphabetic characters and lowercases each.
pub fn normalize(token: &str) -> (term: String)
    ensures
        term@ == normalized(token@),
{
    let chars = chars_of(token);
    assert(chars@.subrange(0, chars@.len() as int) =~= chars@);
    let term = normalize_span(&chars, 0, chars.len());
    string_of(&term)
}

} // verus!
