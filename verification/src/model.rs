//! The mathematical model of an inverted index: a map from each term to the
//! set of identifiers of the documents that hold it, and its listing in order.

use vstd::prelude::*;
use crate::order::{lemma_precedes_asymmetric, precedes};

verus! {

/// An inverted index: for each term, its posting set.
pub type Postings = Map<Seq<char>, Set<usize>>;

/// An inverted index written out: each term with its identifiers.
pub type Listing = Seq<(Seq<char>, Seq<usize>)>;

/// The index after `id` has been recorded under `term`: an absent term gets
/// the posting set that holds `id` alone, a present one gains `id`.
pub open spec fn recorded(index: Postings, term: Seq<char>, id: usize) -> Postings {
    if index.contains_key(term) {
        index.insert(term, index[term].insert(id))
    } else {
        index.insert(term, set![id])
    }
}

/// The identifiers stand in strictly ascending order.
pub open spec fn ascending(ids: Seq<usize>) -> bool {
    forall|i: int, j: int| 0 <= i < j < ids.len() ==> ids[i] < ids[j]
}

/// The terms of `listing` stand in strictly ascending lexicographic order.
pub open spec fn terms_ascending(listing: Listing) -> bool {
    forall|i: int, j: int|
        0 <= i < j < listing.len() ==> precedes(
            (#[trigger] listing[i]).0,
            (#[trigger] listing[j]).0,
        )
}

/// `listing` has a line for `term`.
pub open spec fn lists_term(listing: Listing, term: Seq<char>) -> bool {
    exists|i: int| 0 <= i < listing.len() && (#[trigger] listing[i]).0 == term
}

/// `listing` writes out `index`: it holds exactly the terms of `index`, in
/// strictly ascending order, and beside each term exactly the identifiers of
/// its posting set, in strictly ascending order.
pub open spec fn is_listing(listing: Listing, index: Postings) -> bool {
    &&& terms_ascending(listing)
    &&& forall|i: int| 0 <= i < listing.len() ==> ascending((#[trigger] listing[i]).1)
    &&& forall|i: int|
        0 <= i < listing.len() ==> index.contains_key((#[trigger] listing[i]).0)
            && index[listing[i].0] == listing[i].1.to_set()
    &&& forall|term: Seq<char>| index.contains_key(term) ==> lists_term(listing, term)
}

/// The listing of `index`. It is the only one, by [`lemma_listing_unique`],
/// where `index` has a listing at all.
pub open spec fn listing_of(index: Postings) -> Listing {
    choose|listing: Listing| is_listing(listing, index)
}

/// Recording a pair a second time changes nothing.
pub proof fn lemma_record_idempotent(index: Postings, term: Seq<char>, id: usize)
    ensures
        recorded(recorded(index, term, id), term, id) == recorded(index, term, id),
{
    let once = recorded(index, term, id);
    assert(once[term].insert(id) =~= once[term]);
    assert(recorded(once, term, id) =~= once);
}

/// Two recordings give the same index in either order.
pub proof fn lemma_record_commutes(
    index: Postings,
    term: Seq<char>,
    id: usize,
    other_term: Seq<char>,
    other_id: usize,
)
    ensures
        recorded(recorded(index, term, id), other_term, other_id) == recorded(
            recorded(index, other_term, other_id),
            term,
            id,
        ),
{
    let left = recorded(recorded(index, term, id), other_term, other_id);
    let right = recorded(recorded(index, other_term, other_id), term, id);
    assert(left.dom() =~= right.dom());
    assert forall|t: Seq<char>| left.contains_key(t) implies left[t] =~= right[t] by {}
    assert(left =~= right);
}

/// Identifiers in strictly ascending order are determined by the set they form.
pub proof fn lemma_ascending_unique(a: Seq<usize>, b: Seq<usize>)
    requires
        ascending(a),
        ascending(b),
        a.to_set() == b.to_set(),
    ensures
        a == b,
    decreases a.len(),
{
    if a.len() == 0 {
        if b.len() > 0 {
            assert(b.to_set().contains(b[0]));
            assert(a.contains(b[0]));
        }
        assert(a =~= b);
    } else {
        assert(a.to_set().contains(a[0]));
        assert(b.contains(a[0]));
        assert(b.to_set().contains(b[0]));
        assert(a.contains(b[0]));
        let j = choose|j: int| 0 <= j < b.len() && b[j] == a[0];
        let i = choose|i: int| 0 <= i < a.len() && a[i] == b[0];
        assert(a[0] == b[0]);
        let a_rest = a.drop_first();
        let b_rest = b.drop_first();
        assert forall|x: usize| a_rest.to_set().contains(x) == b_rest.to_set().contains(x) by {
            if a_rest.contains(x) {
                let k = choose|k: int| 0 <= k < a_rest.len() && a_rest[k] == x;
                assert(a[k + 1] == x);
                assert(a.to_set().contains(x));
                assert(b.contains(x));
                let m = choose|m: int| 0 <= m < b.len() && b[m] == x;
                assert(b_rest[m - 1] == x);
            }
            if b_rest.contains(x) {
                let k = choose|k: int| 0 <= k < b_rest.len() && b_rest[k] == x;
                assert(b[k + 1] == x);
                assert(b.to_set().contains(x));
                assert(a.contains(x));
                let m = choose|m: int| 0 <= m < a.len() && a[m] == x;
                assert(a_rest[m - 1] == x);
            }
        }
        assert(a_rest.to_set() =~= b_rest.to_set());
        lemma_ascending_unique(a_rest, b_rest);
        assert(a =~= seq![a[0]] + a_rest);
        assert(b =~= seq![b[0]] + b_rest);
    }
}

/// What is left of a listing without its first line writes out the index
/// without that line's term.
proof fn lemma_listing_rest(listing: Listing, index: Postings)
    requires
        is_listing(listing, index),
        listing.len() > 0,
    ensures
        is_listing(listing.drop_first(), index.remove(listing[0].0)),
{
    let rest = listing.drop_first();
    let less = index.remove(listing[0].0);
    assert forall|i: int| 0 <= i < rest.len() implies less.contains_key((#[trigger] rest[i]).0)
        && less[rest[i].0] == rest[i].1.to_set() && ascending(rest[i].1) by {
        assert(rest[i] == listing[i + 1]);
        lemma_precedes_asymmetric(listing[0].0, listing[i + 1].0);
    }
    assert forall|i: int, j: int| 0 <= i < j < rest.len() implies precedes(
        (#[trigger] rest[i]).0,
        (#[trigger] rest[j]).0,
    ) by {
        assert(rest[i] == listing[i + 1]);
        assert(rest[j] == listing[j + 1]);
    }
    assert forall|term: Seq<char>| less.contains_key(term) implies lists_term(rest, term) by {
        assert(lists_term(listing, term));
        let i = choose|i: int| 0 <= i < listing.len() && (#[trigger] listing[i]).0 == term;
        assert(rest[i - 1] == listing[i]);
    }
}

/// An index has one listing only: what is written out, and in which order,
/// depends on nothing but the mapping.
pub proof fn lemma_listing_unique(first: Listing, second: Listing, index: Postings)
    requires
        is_listing(first, index),
        is_listing(second, index),
    ensures
        first == second,
    decreases first.len(),
{
    if first.len() == 0 {
        if second.len() > 0 {
            assert(index.contains_key(second[0].0));
            assert(lists_term(first, second[0].0));
        }
        assert(first =~= second);
    } else {
        assert(index.contains_key(first[0].0));
        assert(lists_term(second, first[0].0));
        let j = choose|j: int| 0 <= j < second.len() && (#[trigger] second[j]).0 == first[0].0;
        assert(index.contains_key(second[0].0));
        assert(lists_term(first, second[0].0));
        let i = choose|i: int| 0 <= i < first.len() && (#[trigger] first[i]).0 == second[0].0;
        if i > 0 && j > 0 {
            assert(precedes(first[0].0, first[i].0));
            assert(precedes(second[0].0, second[j].0));
            lemma_precedes_asymmetric(first[0].0, second[0].0);
        }
        assert(first[0].0 == second[0].0);
        lemma_ascending_unique(first[0].1, second[0].1);
        assert(first[0] == second[0]);
        lemma_listing_rest(first, index);
        lemma_listing_rest(second, index);
        lemma_listing_unique(first.drop_first(), second.drop_first(), index.remove(first[0].0));
        assert(first =~= seq![first[0]] + first.drop_first());
        assert(second =~= seq![second[0]] + second.drop_first());
    }
}

/// The listing of an index that has one is that one.
pub proof fn lemma_listing_of(listing: Listing, index: Postings)
    requires
        is_listing(listing, index),
    ensures
        listing_of(index) == listing,
{
    lemma_listing_unique(listing_of(index), listing, index);
}

} // verus!
