//! The index store: the terms in ascending order, each with the identifiers
//! of its documents in ascending order.

use vstd::prelude::*;
use crate::chars::{chars_of, string_of};
use crate::model::{ascending, is_listing, lists_term, recorded, terms_ascending, Listing, Postings};
use crate::order::{lemma_precedes_asymmetric, lemma_precedes_transitive, precedes, rank, Rank};

verus! {

/// One line of the store: a term and the identifiers recorded under it.
struct Posting {
    term: Vec<char>,
    ids: Vec<usize>,
}

/// An inverted index. Its view is the mapping from each term to its posting
/// set.
pub struct InvertedIndex {
    entries: Vec<Posting>,
}

/// The lines of a store as a listing.
spec fn lines(entries: Seq<Posting>) -> Listing {
    entries.map_values(|p: Posting| (p.term@, p.ids@))
}

/// What a store keeps of its lines: terms and identifiers strictly ascending,
/// and no term without an identifier.
spec fn well_formed(listing: Listing) -> bool {
    &&& terms_ascending(listing)
    &&& forall|i: int|
        0 <= i < listing.len() ==> ascending((#[trigger] listing[i]).1) && listing[i].1.len() > 0
}

/// The line of `listing` that holds `term`.
spec fn line_of(listing: Listing, term: Seq<char>) -> int {
    choose|i: int| 0 <= i < listing.len() && (#[trigger] listing[i]).0 == term
}

/// The mapping that a listing writes out.
spec fn mapped(listing: Listing) -> Postings {
    Map::new(
        |term: Seq<char>| lists_term(listing, term),
        |term: Seq<char>| listing[line_of(listing, term)].1.to_set(),
    )
}

/// A listing whose terms ascend writes out one mapping only.
proof fn lemma_mapped(listing: Listing, index: Postings)
    requires
        is_listing(listing, index),
    ensures
        mapped(listing) == index,
{
    assert forall|term: Seq<char>| lists_term(listing, term) implies index.contains_key(term)
        && index[term] == listing[line_of(listing, term)].1.to_set() by {
        let i = line_of(listing, term);
        assert(listing[i].0 == term);
    }
    assert(mapped(listing) =~= index);
}

/// A well-formed listing writes out the mapping made from it.
proof fn lemma_well_formed_listing(listing: Listing)
    requires
        well_formed(listing),
    ensures
        is_listing(listing, mapped(listing)),
{
    assert forall|i: int| 0 <= i < listing.len() implies mapped(listing).contains_key(
        (#[trigger] listing[i]).0,
    ) && mapped(listing)[listing[i].0] == listing[i].1.to_set() by {
        let term = listing[i].0;
        assert(lists_term(listing, term));
        let j = line_of(listing, term);
        if i < j {
            lemma_precedes_asymmetric(listing[i].0, listing[j].0);
        }
        if j < i {
            lemma_precedes_asymmetric(listing[j].0, listing[i].0);
        }
    }
}

/// Puts `id` into the ascending identifiers `ids`, unless it is there.
fn insert_id(ids: &mut Vec<usize>, id: usize)
    requires
        ascending(old(ids)@),
    ensures
        ascending(final(ids)@),
        final(ids)@.to_set() == old(ids)@.to_set().insert(id),
{
    let mut low: usize = 0;
    let mut high: usize = ids.len();
    while low < high
        invariant
            *ids == *old(ids),
            ascending(ids@),
            low <= high <= ids.len(),
            forall|i: int| 0 <= i < low ==> ids@[i] < id,
            forall|i: int| high <= i < ids@.len() ==> id < ids@[i],
        decreases high - low,
    {
        let middle = low + (high - low) / 2;
        let found = ids[middle];
        if found < id {
            low = middle + 1;
        } else if id < found {
            high = middle;
        } else {
            assert(ids@.to_set().contains(id));
            assert(ids@.to_set().insert(id) =~= ids@.to_set());
            return ;
        }
    }
    let ghost before = ids@;
    ids.insert(low, id);
    proof {
        let after = ids@;
        assert forall|x: usize| after.to_set().contains(x) == before.to_set().insert(id).contains(
            x,
        ) by {
            if after.contains(x) {
                let k = choose|k: int| 0 <= k < after.len() && after[k] == x;
                if k < low {
                    assert(before[k] == x);
                } else if k > low {
                    assert(before[k - 1] == x);
                }
            }
            if before.contains(x) {
                let k = choose|k: int| 0 <= k < before.len() && before[k] == x;
                if k < low {
                    assert(after[k] == x);
                } else {
                    assert(after[k + 1] == x);
                }
            }
            if x == id {
                assert(after[low as int] == x);
            }
        }
        assert(after.to_set() =~= before.to_set().insert(id));
    }
}

/// Finds the line of `term`, or the line before which it belongs.
fn locate(entries: &Vec<Posting>, term: &Vec<char>) -> (place: (bool, usize))
    requires
        terms_ascending(lines(entries@)),
    ensures
        place.1 <= entries@.len(),
        place.0 ==> place.1 < entries@.len() && entries@[place.1 as int].term@ == term@,
        !place.0 ==> forall|i: int| 0 <= i < place.1 ==> precedes(entries@[i].term@, term@),
        !place.0 ==> forall|i: int|
            place.1 <= i < entries@.len() ==> precedes(term@, entries@[i].term@),
{
    let mut low: usize = 0;
    let mut high: usize = entries.len();
    while low < high
        invariant
            terms_ascending(lines(entries@)),
            low <= high <= entries@.len(),
            forall|i: int| 0 <= i < low ==> precedes(entries@[i].term@, term@),
            forall|i: int| high <= i < entries@.len() ==> precedes(term@, entries@[i].term@),
        decreases high - low,
    {
        let middle = low + (high - low) / 2;
        let ghost listing = lines(entries@);
        match rank(&entries[middle].term, term) {
            Rank::Before => {
                assert forall|i: int| 0 <= i < middle + 1 implies precedes(
                    entries@[i].term@,
                    term@,
                ) by {
                    if i < middle {
                        assert(precedes(listing[i].0, listing[middle as int].0));
                        lemma_precedes_transitive(
                            entries@[i].term@,
                            entries@[middle as int].term@,
                            term@,
                        );
                    }
                }
                low = middle + 1;
            },
            Rank::After => {
                assert forall|i: int| middle <= i < entries@.len() implies precedes(
                    term@,
                    entries@[i].term@,
                ) by {
                    if middle < i {
                        assert(precedes(listing[middle as int].0, listing[i].0));
                        lemma_precedes_transitive(
                            term@,
                            entries@[middle as int].term@,
                            entries@[i].term@,
                        );
                    }
                }
                high = middle;
            },
            Rank::Same => {
                return (true, middle);
            },
        }
    }
    (false, low)
}

/// Recording under a term that has a line: the line gains the identifier.
proof fn lemma_recorded_present(before: Listing, after: Listing, at: int, id: usize)
    requires
        well_formed(before),
        0 <= at < before.len(),
        after.len() == before.len(),
        forall|i: int| 0 <= i < before.len() && i != at ==> after[i] == before[i],
        after[at].0 == before[at].0,
        ascending(after[at].1),
        after[at].1.to_set() == before[at].1.to_set().insert(id),
    ensures
        well_formed(after),
        mapped(after) == recorded(mapped(before), before[at].0, id),
{
    let term = before[at].0;
    let index = mapped(before);
    let next = recorded(index, term, id);
    lemma_well_formed_listing(before);
    assert(after[at].1.to_set().contains(id));
    assert(after[at].1.contains(id));
    assert forall|i: int| 0 <= i < after.len() implies (#[trigger] after[i]).0 == before[i].0 by {}
    assert forall|i: int, j: int| 0 <= i < j < after.len() implies precedes(
        (#[trigger] after[i]).0,
        (#[trigger] after[j]).0,
    ) by {
        assert(precedes(before[i].0, before[j].0));
    }
    assert forall|i: int| 0 <= i < after.len() implies next.contains_key((#[trigger] after[i]).0)
        && next[after[i].0] == after[i].1.to_set() by {
        if i != at {
            assert(index.contains_key(before[i].0));
            if i < at {
                lemma_precedes_asymmetric(before[i].0, before[at].0);
            } else {
                lemma_precedes_asymmetric(before[at].0, before[i].0);
            }
        } else {
            assert(index.contains_key(before[at].0));
        }
    }
    assert forall|other: Seq<char>| next.contains_key(other) implies lists_term(after, other) by {
        assert(index.contains_key(other));
        assert(lists_term(before, other));
        let i = choose|i: int| 0 <= i < before.len() && (#[trigger] before[i]).0 == other;
        assert(after[i].0 == other);
    }
    lemma_mapped(after, next);
}

/// Recording under a term that has no line: a line with the identifier alone
/// enters at the term's place.
proof fn lemma_recorded_absent(before: Listing, at: int, term: Seq<char>, id: usize)
    requires
        well_formed(before),
        0 <= at <= before.len(),
        forall|i: int| 0 <= i < at ==> precedes((#[trigger] before[i]).0, term),
        forall|i: int| at <= i < before.len() ==> precedes(term, (#[trigger] before[i]).0),
    ensures
        well_formed(before.insert(at, (term, seq![id]))),
        mapped(before.insert(at, (term, seq![id]))) == recorded(mapped(before), term, id),
{
    let after = before.insert(at, (term, seq![id]));
    let index = mapped(before);
    let next = recorded(index, term, id);
    lemma_well_formed_listing(before);
    if index.contains_key(term) {
        assert(lists_term(before, term));
        let i = choose|i: int| 0 <= i < before.len() && (#[trigger] before[i]).0 == term;
        lemma_precedes_asymmetric(term, term);
    }
    assert(seq![id].to_set() =~= set![id]) by {
        assert(seq![id][0] == id);
    }
    assert forall|i: int, j: int| 0 <= i < j < after.len() implies precedes(
        (#[trigger] after[i]).0,
        (#[trigger] after[j]).0,
    ) by {
        let bi = if i < at { i } else { i - 1 };
        let bj = if j < at { j } else { j - 1 };
        if i != at {
            assert(after[i] == before[bi]);
        }
        if j != at {
            assert(after[j] == before[bj]);
        }
        if i != at && j != at {
            assert(precedes(before[bi].0, before[bj].0));
        }
    }
    assert forall|i: int| 0 <= i < after.len() implies ascending((#[trigger] after[i]).1)
        && after[i].1.len() > 0 && next.contains_key(after[i].0) && next[after[i].0]
        == after[i].1.to_set() by {
        if i != at {
            let bi = if i < at { i } else { i - 1 };
            assert(after[i] == before[bi]);
            assert(index.contains_key(before[bi].0));
            if bi < at {
                lemma_precedes_asymmetric(before[bi].0, term);
            } else {
                lemma_precedes_asymmetric(term, before[bi].0);
            }
        }
    }
    assert forall|other: Seq<char>| next.contains_key(other) implies lists_term(after, other) by {
        if other == term {
            assert(after[at].0 == other);
        } else {
            assert(lists_term(before, other));
            let i = choose|i: int| 0 <= i < before.len() && (#[trigger] before[i]).0 == other;
            if i < at {
                assert(after[i] == before[i]);
            } else {
                assert(after[i + 1] == before[i]);
            }
        }
    }
    lemma_mapped(after, next);
}

/// Records `id` under `term` in the lines of a store.
fn place(entries: &mut Vec<Posting>, term: Vec<char>, id: usize)
    requires
        well_formed(lines(old(entries)@)),
    ensures
        well_formed(lines(final(entries)@)),
        mapped(lines(final(entries)@)) == recorded(mapped(lines(old(entries)@)), term@, id),
{
    let (found, at) = locate(entries, &term);
    let ghost before = lines(entries@);
    if found {
        assert(ascending(before[at as int].1));
        insert_id(&mut entries[at].ids, id);
        proof {
            lemma_recorded_present(before, lines(entries@), at as int, id);
        }
    } else {
        let mut ids: Vec<usize> = Vec::new();
        ids.push(id);
        entries.insert(at, Posting { term, ids });
        proof {
            assert(ids@ =~= seq![id]);
            assert(lines(entries@) =~= before.insert(at as int, (term@, seq![id])));
            lemma_recorded_absent(before, at as int, term@, id);
        }
    }
}

/// The listing that the lines of a snapshot stand for.
pub open spec fn written(snapshot: Seq<(String, Vec<usize>)>) -> Listing {
    snapshot.map_values(|line: (String, Vec<usize>)| (line.0@, line.1@))
}

impl View for InvertedIndex {
    type V = Postings;

    closed spec fn view(&self) -> Postings {
        mapped(lines(self.entries@))
    }
}

impl InvertedIndex {
    #[verifier::type_invariant]
    spec fn orderly(&self) -> bool {
        well_formed(lines(self.entries@))
    }

    /// An index without terms.
    pub fn new() -> (index: Self)
        ensures
            index@ == Map::<Seq<char>, Set<usize>>::empty(),
    {
        let index = InvertedIndex { entries: Vec::new() };
        assert(index@ =~= Map::<Seq<char>, Set<usize>>::empty());
        index
    }

    /// Records that the document `id` holds `term`, given as characters.
    pub fn record_term(&mut self, term: Vec<char>, id: usize)
        ensures
            final(self)@ == recorded(old(self)@, term@, id),
    {
        proof {
            use_type_invariant(&*self);
        }
        let mut entries: Vec<Posting> = Vec::new();
        std::mem::swap(&mut entries, &mut self.entries);
        place(&mut entries, term, id);
        self.entries = entries;
    }

    /// Records that the document `id` holds `term`: a term that is not yet
    /// in the index enters with `id` alone, one that is there gains `id`.
    pub fn record(&mut self, term: &str, id: usize)
        ensures
            final(self)@ == recorded(old(self)@, term@, id),
    {
        self.record_term(chars_of(term), id)
    }

    /// The index written out: every term in ascending order, each with the
    /// identifiers of its posting set in ascending order.
    pub fn snapshot(&self) -> (snapshot: Vec<(String, Vec<usize>)>)
        ensures
            is_listing(written(snapshot@), self@),
            forall|i: int| 0 <= i < snapshot@.len() ==> (#[trigger] snapshot@[i]).1@.len() > 0,
    {
        proof {
            use_type_invariant(self);
            lemma_well_formed_listing(lines(self.entries@));
        }
        let mut snapshot: Vec<(String, Vec<usize>)> = Vec::new();
        let mut i: usize = 0;
        while i < self.entries.len()
            invariant
                i <= self.entries@.len(),
                snapshot@.len() == i,
                forall|k: int|
                    0 <= k < i ==> (#[trigger] snapshot@[k]).0@ == self.entries@[k].term@
                        && snapshot@[k].1@ == self.entries@[k].ids@,
            decreases self.entries@.len() - i,
        {
            let line = &self.entries[i];
            snapshot.push((string_of(&line.term), line.ids.clone()));
            i += 1;
        }
        assert(written(snapshot@) =~= lines(self.entries@));
        assert forall|i: int| 0 <= i < snapshot@.len() implies (#[trigger] snapshot@[i]).1@.len()
            > 0 by {
            assert(lines(self.entries@)[i].1.len() > 0);
        }
        snapshot
    }
}

} // verus!
