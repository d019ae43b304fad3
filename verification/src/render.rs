//! The formatter: the index as text, one line for each term.

use vstd::prelude::*;
use crate::index::{written, InvertedIndex};
use crate::model::{is_listing, lemma_listing_of, listing_of, Listing};

verus! {

/// The character that stands for the digit `d`.
pub open spec fn digit(d: nat) -> char {
    if d == 0 {
        '0'
    } else if d == 1 {
        '1'
    } else if d == 2 {
        '2'
    } else if d == 3 {
        '3'
    } else if d == 4 {
        '4'
    } else if d == 5 {
        '5'
    } else if d == 6 {
        '6'
    } else if d == 7 {
        '7'
    } else if d == 8 {
        '8'
    } else {
        '9'
    }
}

/// The decimal numeral of `n`, without leading zeros.
pub open spec fn decimal(n: nat) -> Seq<char>
    decreases n,
{
    if n < 10 {
        seq![digit(n)]
    } else {
        decimal(n / 10).push(digit(n % 10))
    }
}

/// An identifier as text: its numeral and one space.
pub open spec fn rendered_id(id: usize) -> Seq<char> {
    decimal(id as nat).push(' ')
}

/// A line of the listing as text: the term, a colon and a space, each
/// identifier followed by a space, and a line feed.
pub open spec fn rendered_line(line: (Seq<char>, Seq<usize>)) -> Seq<char> {
    (line.0 + seq![':', ' '] + line.1.flat_map(|id: usize| rendered_id(id))).push('\n')
}

/// A listing as text: its lines, one after the other.
pub open spec fn rendered(listing: Listing) -> Seq<char> {
    listing.flat_map(|line: (Seq<char>, Seq<usize>)| rendered_line(line))
}

/// The character for the digit `d`.
fn digit_of(d: usize) -> (c: char)
    requires
        d < 10,
    ensures
        c == digit(d as nat),
{
    if d == 0 {
        '0'
    } else if d == 1 {
        '1'
    } else if d == 2 {
        '2'
    } else if d == 3 {
        '3'
    } else if d == 4 {
        '4'
    } else if d == 5 {
        '5'
    } else if d == 6 {
        '6'
    } else if d == 7 {
        '7'
    } else if d == 8 {
        '8'
    } else {
        '9'
    }
}

/// Appends the decimal numeral of `n` to `out`.
fn push_decimal(out: &mut String, n: usize)
    ensures
        final(out)@ == old(out)@ + decimal(n as nat),
    decreases n,
{
    if n >= 10 {
        push_decimal(out, n / 10);
    }
    out.push(digit_of(n % 10));
}

/// Appends the characters of `text` to `out`.
fn push_text(out: &mut String, text: &str)
    ensures
        final(out)@ == old(out)@ + text@,
{
    for c in it: text.chars()
        invariant
            out@ == old(out)@ + it.seq().take(it.index() as int),
            it.seq() == text@,
    {
        out.push(c);
    }
}

/// Writes out the lines of a snapshot.
pub fn render(snapshot: &Vec<(String, Vec<usize>)>) -> (text: String)
    ensures
        text@ == rendered(written(snapshot@)),
{
    let mut text = String::new();
    let ghost listing = written(snapshot@);
    let mut i: usize = 0;
    while i < snapshot.len()
        invariant
            i <= snapshot@.len(),
            listing == written(snapshot@),
            text@ == rendered(listing.take(i as int)),
        decreases snapshot@.len() - i,
    {
        let ghost before = text@;
        let ghost ids = listing[i as int].1;
        let ghost one = |id: usize| rendered_id(id);
        push_text(&mut text, snapshot[i].0.as_str());
        text.push(':');
        text.push(' ');
        let mut j: usize = 0;
        while j < snapshot[i].1.len()
            invariant
                i < snapshot@.len(),
                j <= snapshot@[i as int].1@.len(),
                ids == snapshot@[i as int].1@,
                one == |id: usize| rendered_id(id),
                text@ == before + listing[i as int].0 + seq![':', ' '] + ids.take(
                    j as int,
                ).flat_map(one),
            decreases snapshot@[i as int].1@.len() - j,
        {
            let id = snapshot[i].1[j];
            proof {
                ids.take(j as int).lemma_flat_map_push(one, id);
                assert(ids.take(j + 1) =~= ids.take(j as int).push(id));
            }
            push_decimal(&mut text, id);
            text.push(' ');
            j += 1;
        }
        text.push('\n');
        proof {
            assert(ids.take(ids.len() as int) =~= ids);
            assert(text@ =~= before + rendered_line(listing[i as int]));
            listing.take(i as int).lemma_flat_map_push(
                |line: (Seq<char>, Seq<usize>)| rendered_line(line),
                listing[i as int],
            );
            assert(listing.take(i + 1) =~= listing.take(i as int).push(listing[i as int]));
        }
        i += 1;
    }
    assert(listing.take(snapshot@.len() as int) =~= listing);
    text
}

/// Writes out the index: for each term in ascending order a line with the
/// term, a colon and a space, then each identifier of its posting set in
/// ascending order followed by a space, and a line feed.
pub fn format_inverted_index(inverted_index: &InvertedIndex) -> (text: String)
    ensures
        is_listing(listing_of(inverted_index@), inverted_index@),
        text@ == rendered(listing_of(inverted_index@)),
{
    let snapshot = inverted_index.snapshot();
    proof {
        lemma_listing_of(written(snapshot@), inverted_index@);
    }
    render(&snapshot)
}

} // verus!
