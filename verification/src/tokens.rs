//! Raw tokens: the maximal runs of characters of a line that hold no
//! whitespace.

use vstd::prelude::*;
use crate::chars::whitespace;

verus! {

/// The characters of `line` from `start` up to `end` form a raw token: at
/// least one character, none of them whitespace, and the run cannot be
/// extended on either side.
pub open spec fn is_token(line: Seq<char>, start: int, end: int) -> bool {
    &&& 0 <= start < end <= line.len()
    &&& forall|k: int| start <= k < end ==> !whitespace(#[trigger] line[k])
    &&& (start == 0 || whitespace(line[start - 1]))
    &&& (end == line.len() || whitespace(line[end]))
}

/// Finds the raw tokens of `line`: the place of each, as the position of its
/// first character and the position after its last, from left to right.
pub fn token_spans(line: &Vec<char>) -> (spans: Vec<(usize, usize)>)
    ensures
        forall|i: int|
            0 <= i < spans@.len() ==> is_token(line@, spans@[i].0 as int, spans@[i].1 as int),
        forall|i: int, j: int| 0 <= i < j < spans@.len() ==> spans@[i].1 < spans@[j].0,
        forall|start: int, end: int|
            is_token(line@, start, end) ==> exists|i: int|
                0 <= i < spans@.len() && spans@[i].0 == start && spans@[i].1 == end,
{
    let n = line.len();
    let mut spans: Vec<(usize, usize)> = Vec::new();
    let mut i: usize = 0;
    while i < n
        invariant
            n == line.len(),
            i <= n,
            i == 0 || i == n || whitespace(line@[i - 1]) || whitespace(line@[i as int]),
            forall|k: int|
                0 <= k < spans@.len() ==> is_token(line@, spans@[k].0 as int, spans@[k].1 as int),
            forall|k: int| 0 <= k < spans@.len() ==> spans@[k].1 <= i,
            forall|k: int, j: int| 0 <= k < j < spans@.len() ==> spans@[k].1 < spans@[j].0,
            forall|start: int, end: int|
                is_token(line@, start, end) && end <= i ==> exists|k: int|
                    0 <= k < spans@.len() && spans@[k].0 == start && spans@[k].1 == end,
        decreases n - i,
    {
        if line[i].is_whitespace() {
            i += 1;
        } else {
            let first = i;
            while i < n && !line[i].is_whitespace()
                invariant
                    n == line.len(),
                    first <= i <= n,
                    forall|k: int| first <= k < i ==> !whitespace(#[trigger] line@[k]),
                decreases n - i,
            {
                i += 1;
            }
            let ghost before = spans@;
            spans.push((first, i));
            proof {
                assert(is_token(line@, first as int, i as int));
                assert forall|start: int, end: int|
                    is_token(line@, start, end) && end <= i implies exists|k: int|
                    0 <= k < spans@.len() && spans@[k].0 == start && spans@[k].1 == end by {
                    if end <= first {
                        let k = choose|k: int|
                            0 <= k < before.len() && before[k].0 == start && before[k].1 == end;
                        assert(spans@[k] == before[k]);
                    } else {
                        assert(!whitespace(line@[end - 1]));
                        if end < i {
                            assert(!whitespace(line@[end]));
                        }
                        if start < first {
                            assert(!whitespace(line@[first - 1]));
                        }
                        if start > first {
                            assert(!whitespace(line@[start - 1]));
                        }
                        assert(spans@[before.len() as int] == (first, i));
                    }
                }
            }
        }
    }
    spans
}

} // verus!
