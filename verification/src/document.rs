//! The document processor: from the lines of one document to the terms it
//! holds, each recorded under the document's identifier.

use vstd::prelude::*;
use crate::chars::chars_of;
use crate::index::InvertedIndex;
use crate::model::{recorded, Postings};
use crate::normalize::{normalize_span, normalized};
use crate::tokens::{is_token, token_spans};

verus! {

/// What a line source delivers for one line of a document.
pub enum Line {
    /// The text of the line.
    Text(String),
    /// The line could not be read.
    Unreadable,
}

/// What came of reading one document.
pub enum Document {
    /// The document was opened; these are its lines, in order.
    Lines(Vec<Line>),
    /// The document could not be opened.
    Unopened,
}

/// A line as a value: its characters, or nothing where it could not be read.
pub type LineView = Option<Seq<char>>;

/// A document as a value: its lines, or nothing where it could not be opened.
pub type DocumentView = Option<Seq<LineView>>;

impl View for Line {
    type V = LineView;

    open spec fn view(&self) -> LineView {
        match self {
            Line::Text(text) => Some(text@),
            Line::Unreadable => None,
        }
    }
}

impl View for Document {
    type V = DocumentView;

    open spec fn view(&self) -> DocumentView {
        match self {
            Document::Lines(lines) => Some(lines@.map_values(|line: Line| line@)),
            Document::Unopened => None,
        }
    }
}

/// The terms of a text line: the terms of its raw tokens, but for the empty
/// term.
pub open spec fn text_terms(text: Seq<char>) -> Set<Seq<char>> {
    Set::new(
        |term: Seq<char>|
            term.len() > 0 && exists|start: int, end: int|
                is_token(text, start, end) && normalized(text.subrange(start, end)) == term,
    )
}

/// The terms of a line: those of its text, and none where it could not be
/// read.
pub open spec fn line_terms(line: LineView) -> Set<Seq<char>> {
    match line {
        Some(text) => text_terms(text),
        None => Set::empty(),
    }
}

/// The terms of a document: those of its lines, and none where it could not
/// be opened.
pub open spec fn document_terms(document: DocumentView) -> Set<Seq<char>> {
    match document {
        Some(lines) => Set::new(
            |term: Seq<char>|
                exists|i: int|
                    0 <= i < lines.len() && line_terms(#[trigger] lines[i]).contains(term),
        ),
        None => Set::empty(),
    }
}

/// The index after `id` has been recorded under each of `terms`. The other
/// terms keep their posting sets.
pub open spec fn with_terms(index: Postings, terms: Set<Seq<char>>, id: usize) -> Postings {
    Map::new(
        |term: Seq<char>| index.contains_key(term) || terms.contains(term),
        |term: Seq<char>|
            if !terms.contains(term) {
                index[term]
            } else if index.contains_key(term) {
                index[term].insert(id)
            } else {
                set![id]
            },
    )
}

/// The index after a document has been processed under `id`.
pub open spec fn with_document(index: Postings, document: DocumentView, id: usize) -> Postings {
    with_terms(index, document_terms(document), id)
}

/// No document holds the empty term.
pub proof fn lemma_no_empty_term(document: DocumentView)
    ensures
        !document_terms(document).contains(Seq::empty()),
{
}

/// Recording under no term changes nothing.
pub proof fn lemma_with_no_terms(index: Postings, id: usize)
    ensures
        with_terms(index, Set::empty(), id) == index,
{
    assert(with_terms(index, Set::empty(), id) =~= index);
}

/// Recording under one more term is one more recording.
pub proof fn lemma_with_one_more_term(
    index: Postings,
    terms: Set<Seq<char>>,
    term: Seq<char>,
    id: usize,
)
    ensures
        with_terms(index, terms.insert(term), id) == recorded(
            with_terms(index, terms, id),
            term,
            id,
        ),
{
    let left = with_terms(index, terms.insert(term), id);
    let so_far = with_terms(index, terms, id);
    let right = recorded(so_far, term, id);
    assert(left.dom() =~= right.dom());
    assert forall|t: Seq<char>| left.contains_key(t) implies left[t] =~= right[t] by {}
    assert(left =~= right);
}

/// Recording under two sets of terms, one after the other, is recording
/// under their union.
pub proof fn lemma_with_more_terms(
    index: Postings,
    terms: Set<Seq<char>>,
    more: Set<Seq<char>>,
    id: usize,
)
    ensures
        with_terms(with_terms(index, terms, id), more, id) == with_terms(
            index,
            terms.union(more),
            id,
        ),
{
    let left = with_terms(with_terms(index, terms, id), more, id);
    let right = with_terms(index, terms.union(more), id);
    assert(left.dom() =~= right.dom());
    assert forall|t: Seq<char>| left.contains_key(t) implies left[t] =~= right[t] by {}
    assert(left =~= right);
}

/// The terms of the first `count` of the given tokens of `text`.
spec fn span_terms(text: Seq<char>, spans: Seq<(usize, usize)>, count: int) -> Set<Seq<char>> {
    Set::new(
        |term: Seq<char>|
            term.len() > 0 && exists|k: int|
                0 <= k < count && normalized(
                    text.subrange((#[trigger] spans[k]).0 as int, spans[k].1 as int),
                ) == term,
    )
}

/// Records under `id` every term of the text line `text`.
pub fn process_line(text: &str, id: usize, index: &mut InvertedIndex)
    ensures
        final(index)@ == with_terms(old(index)@, text_terms(text@), id),
{
    let line = chars_of(text);
    let spans = token_spans(&line);
    let mut k: usize = 0;
    proof {
        assert(span_terms(line@, spans@, 0) =~= Set::empty());
        lemma_with_no_terms(index@, id);
    }
    while k < spans.len()
        invariant
            k <= spans@.len(),
            forall|j: int|
                0 <= j < spans@.len() ==> is_token(
                    line@,
                    (#[trigger] spans@[j]).0 as int,
                    spans@[j].1 as int,
                ),
            index@ == with_terms(old(index)@, span_terms(line@, spans@, k as int), id),
        decreases spans@.len() - k,
    {
        let (start, end) = spans[k];
        let term = normalize_span(&line, start, end);
        let ghost so_far = span_terms(line@, spans@, k as int);
        let ghost next = span_terms(line@, spans@, k + 1);
        if term.len() > 0 {
            proof {
                assert(next =~= so_far.insert(term@)) by {
                    assert forall|t: Seq<char>|
                        so_far.insert(term@).contains(t) implies next.contains(t) by {
                        if t == term@ {
                            assert(spans@[k as int].0 == start);
                        } else {
                            let j = choose|j: int|
                                0 <= j < k && normalized(
                                    line@.subrange(
                                        (#[trigger] spans@[j]).0 as int,
                                        spans@[j].1 as int,
                                    ),
                                ) == t;
                            assert(0 <= j < k + 1);
                        }
                    }
                }
                lemma_with_one_more_term(old(index)@, so_far, term@, id);
            }
            index.record_term(term, id);
        } else {
            proof {
                assert(next =~= so_far) by {
                    assert forall|t: Seq<char>| so_far.contains(t) implies next.contains(t) by {
                        let j = choose|j: int|
                            0 <= j < k && normalized(
                                line@.subrange((#[trigger] spans@[j]).0 as int, spans@[j].1 as int),
                            ) == t;
                        assert(0 <= j < k + 1);
                    }
                }
            }
        }
        k += 1;
    }
    proof {
        let all = span_terms(line@, spans@, spans@.len() as int);
        assert(all =~= text_terms(text@)) by {
            assert forall|t: Seq<char>| text_terms(text@).contains(t) implies all.contains(t) by {
                let (start, end) = choose|start: int, end: int|
                    is_token(text@, start, end) && normalized(text@.subrange(start, end)) == t;
                let j = choose|j: int|
                    0 <= j < spans@.len() && spans@[j].0 == start && spans@[j].1 == end;
                assert(normalized(
                    line@.subrange((#[trigger] spans@[j]).0 as int, spans@[j].1 as int),
                ) == t);
            }
        }
    }
}

/// Processes one document under the identifier `file_index`: records under
/// it every term of every line that could be read. A document that could not
/// be opened leaves the index as it was.
pub fn process_file(document: &Document, file_index: usize, inverted_index: &mut InvertedIndex)
    ensures
        final(inverted_index)@ == with_document(old(inverted_index)@, document@, file_index),
{
    proof {
        lemma_with_no_terms(inverted_index@, file_index);
    }
    match document {
        Document::Unopened => {},
        Document::Lines(lines) => {
            let mut i: usize = 0;
            proof {
                assert(document_terms(Some(document@->0.take(0))) =~= Set::empty());
            }
            while i < lines.len()
                invariant
                    i <= lines@.len(),
                    document@ == Some(lines@.map_values(|line: Line| line@)),
                    inverted_index@ == with_document(
                        old(inverted_index)@,
                        Some(document@->0.take(i as int)),
                        file_index,
                    ),
                decreases lines@.len() - i,
            {
                let ghost read = document@->0;
                let ghost so_far = document_terms(Some(read.take(i as int)));
                let ghost next = document_terms(Some(read.take(i + 1)));
                let ghost here = line_terms(read[i as int]);
                proof {
                    assert(read[i as int] == lines@[i as int]@);
                    assert(next =~= so_far.union(here)) by {
                        assert forall|t: Seq<char>| next.contains(t) implies so_far.union(
                            here,
                        ).contains(t) by {
                            let j = choose|j: int|
                                0 <= j < i + 1 && line_terms(
                                    #[trigger] read.take(i + 1)[j],
                                ).contains(t);
                            if j < i {
                                assert(read.take(i as int)[j] == read[j]);
                            }
                        }
                        assert forall|t: Seq<char>|
                            so_far.union(here).contains(t) implies next.contains(t) by {
                            if here.contains(t) {
                                assert(read.take(i + 1)[i as int] == read[i as int]);
                            } else {
                                let j = choose|j: int|
                                    0 <= j < i && line_terms(
                                        #[trigger] read.take(i as int)[j],
                                    ).contains(t);
                                assert(read.take(i + 1)[j] == read[j]);
                            }
                        }
                    }
                    lemma_with_more_terms(old(inverted_index)@, so_far, here, file_index);
                }
                match &lines[i] {
                    Line::Text(text) => {
                        process_line(text.as_str(), file_index, inverted_index);
                    },
                    Line::Unreadable => {
                        proof {
                            lemma_with_no_terms(inverted_index@, file_index);
                        }
                    },
                }
                i += 1;
            }
            assert(document@->0.take(lines@.len() as int) =~= document@->0);
        },
    }
}

} // verus!
