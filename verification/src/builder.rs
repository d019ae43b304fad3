//! The index builder: from a manifest and the documents it names to the
//! finished index. A document's identifier is its position in the manifest.

use vstd::prelude::*;
use crate::document::{
    document_terms, lemma_no_empty_term, lemma_with_no_terms, process_file, with_document,
    Document, DocumentView,
};
use crate::index::InvertedIndex;
use crate::model::Postings;

verus! {

/// What came of one line of the manifest.
pub enum ManifestLine {
    /// The line was read; this is what came of reading the document it names.
    Document(Document),
    /// The line could not be read.
    Unreadable,
}

/// What came of reading the manifest.
pub enum Manifest {
    /// The manifest was opened; these are its lines, in order.
    Lines(Vec<ManifestLine>),
    /// The manifest could not be opened.
    Unopened,
}

/// A manifest as a value: for each of its positions the document read for it,
/// or nothing where the line or the document could not be read.
pub type ManifestView = Seq<DocumentView>;

impl View for ManifestLine {
    type V = DocumentView;

    open spec fn view(&self) -> DocumentView {
        match self {
            ManifestLine::Document(document) => document@,
            ManifestLine::Unreadable => None,
        }
    }
}

impl View for Manifest {
    type V = ManifestView;

    open spec fn view(&self) -> ManifestView {
        match self {
            Manifest::Lines(lines) => lines@.map_values(|line: ManifestLine| line@),
            Manifest::Unopened => Seq::empty(),
        }
    }
}

/// The document at position `id` of `manifest` holds `term`.
pub open spec fn holds(manifest: ManifestView, id: usize, term: Seq<char>) -> bool {
    id < manifest.len() && document_terms(manifest[id as int]).contains(term)
}

/// `id` stands in the posting set of `term`.
pub open spec fn posted(index: Postings, term: Seq<char>, id: usize) -> bool {
    index.contains_key(term) && index[term].contains(id)
}

/// The index of a manifest: the terms that some document holds, each with the
/// positions of the documents that hold it.
pub open spec fn indexed(manifest: ManifestView) -> Postings {
    Map::new(
        |term: Seq<char>| exists|id: usize| holds(manifest, id, term),
        |term: Seq<char>| Set::new(|id: usize| holds(manifest, id, term)),
    )
}

/// The index after the documents at the positions `order` have been
/// processed one after the other, each under its position.
pub open spec fn processed_in(manifest: ManifestView, order: Seq<usize>) -> Postings
    decreases order.len(),
{
    if order.len() == 0 {
        Map::empty()
    } else {
        with_document(
            processed_in(manifest, order.drop_last()),
            manifest[order.last() as int],
            order.last(),
        )
    }
}

/// The index of a manifest with one more document is the index of the
/// manifest after that document has been processed under the next position.
pub proof fn lemma_indexed_push(manifest: ManifestView, document: DocumentView)
    requires
        manifest.len() <= usize::MAX,
    ensures
        indexed(manifest.push(document)) == with_document(
            indexed(manifest),
            document,
            manifest.len() as usize,
        ),
{
    let longer = manifest.push(document);
    let next = manifest.len() as usize;
    let left = indexed(longer);
    let right = with_document(indexed(manifest), document, next);
    assert forall|term: Seq<char>, id: usize| holds(longer, id, term) == (holds(manifest, id, term)
        || (id == next && document_terms(document).contains(term))) by {
        if id < manifest.len() {
            assert(longer[id as int] == manifest[id as int]);
        }
    }
    assert forall|term: Seq<char>| left.contains_key(term) == right.contains_key(term) by {
        if left.contains_key(term) {
            let id = choose|id: usize| holds(longer, id, term);
            assert(holds(manifest, id, term) || document_terms(document).contains(term));
        }
        if right.contains_key(term) {
            if document_terms(document).contains(term) {
                assert(holds(longer, next, term));
            } else {
                let id = choose|id: usize| holds(manifest, id, term);
                assert(holds(longer, id, term));
            }
        }
    }
    assert(left.dom() =~= right.dom());
    assert forall|term: Seq<char>| left.contains_key(term) implies left[term] =~= right[term] by {}
    assert(left =~= right);
}

/// Builds the index of a manifest: processes the document of every line that
/// could be read, under the line's position. A manifest that could not be
/// opened gives the index without terms.
pub fn build_inverted_index(manifest: &Manifest) -> (inverted_index: InvertedIndex)
    ensures
        inverted_index@ == indexed(manifest@),
{
    let mut inverted_index = InvertedIndex::new();
    assert(indexed(Seq::empty()) =~= Map::empty());
    match manifest {
        Manifest::Unopened => {},
        Manifest::Lines(lines) => {
            let mut file_index: usize = 0;
            assert(manifest@.take(0) =~= Seq::empty());
            while file_index < lines.len()
                invariant
                    file_index <= lines@.len(),
                    manifest@ == lines@.map_values(|line: ManifestLine| line@),
                    inverted_index@ == indexed(manifest@.take(file_index as int)),
                decreases lines@.len() - file_index,
            {
                proof {
                    let before = manifest@.take(file_index as int);
                    assert(manifest@.take(file_index + 1) =~= before.push(
                        manifest@[file_index as int],
                    ));
                    assert(manifest@[file_index as int] == lines@[file_index as int]@);
                    lemma_indexed_push(before, manifest@[file_index as int]);
                }
                match &lines[file_index] {
                    ManifestLine::Document(document) => {
                        process_file(document, file_index, &mut inverted_index);
                    },
                    ManifestLine::Unreadable => {
                        proof {
                            lemma_with_no_terms(inverted_index@, file_index);
                        }
                    },
                }
                file_index += 1;
            }
            assert(manifest@.take(lines@.len() as int) =~= manifest@);
        },
    }
    inverted_index
}

/// In the index of a manifest, a document's position stands under a term
/// exactly where the document was read and holds the term, and a term has a
/// posting set exactly where some document holds it.
pub proof fn lemma_indexed_postings(manifest: ManifestView, term: Seq<char>, id: usize)
    ensures
        posted(indexed(manifest), term, id) <==> holds(manifest, id, term),
        indexed(manifest).contains_key(term) <==> exists|other: usize| holds(manifest, other, term),
        !indexed(manifest).contains_key(Seq::empty()),
{
    if indexed(manifest).contains_key(Seq::empty()) {
        let other = choose|other: usize| holds(manifest, other, Seq::empty());
        lemma_no_empty_term(manifest[other as int]);
    }
}

/// A position whose document could not be read stands under no term, and
/// leaves every other position where it would stand had the document been
/// read.
pub proof fn lemma_skipped_document(manifest: ManifestView, at: usize, term: Seq<char>, id: usize)
    requires
        at < manifest.len(),
    ensures
        manifest[at as int] is None ==> !posted(indexed(manifest), term, at),
        !posted(indexed(manifest.update(at as int, None)), term, at),
        id != at ==> posted(indexed(manifest.update(at as int, None)), term, id) == posted(
            indexed(manifest),
            term,
            id,
        ),
{
    let skipped = manifest.update(at as int, None);
    lemma_indexed_postings(manifest, term, id);
    lemma_indexed_postings(manifest, term, at);
    lemma_indexed_postings(skipped, term, id);
    lemma_indexed_postings(skipped, term, at);
}

/// What stands in the index after the documents at the positions `order`
/// have been processed: a position of `order` under each term of its
/// document.
proof fn lemma_processed_in(manifest: ManifestView, order: Seq<usize>, term: Seq<char>, id: usize)
    ensures
        posted(processed_in(manifest, order), term, id) <==> order.contains(id)
            && document_terms(manifest[id as int]).contains(term),
    decreases order.len(),
{
    if order.len() > 0 {
        let earlier = order.drop_last();
        lemma_processed_in(manifest, earlier, term, id);
        assert(order.contains(id) <==> earlier.contains(id) || order.last() == id) by {
            if order.contains(id) {
                let k = choose|k: int| 0 <= k < order.len() && order[k] == id;
                if k < order.len() - 1 {
                    assert(earlier[k] == id);
                }
            }
            if earlier.contains(id) {
                let k = choose|k: int| 0 <= k < earlier.len() && earlier[k] == id;
                assert(order[k] == id);
            }
            if order.last() == id {
                assert(order[order.len() - 1] == id);
            }
        }
    }
}

/// The order in which the documents are processed does not matter: where
/// every document that could be read is processed under its position, once
/// or more often, in whatever order, the index is that of the manifest.
pub proof fn lemma_any_order(manifest: ManifestView, order: Seq<usize>)
    requires
        forall|k: int| 0 <= k < order.len() ==> order[k] < manifest.len(),
        forall|id: usize| id < manifest.len() && manifest[id as int] is Some ==> order.contains(id),
    ensures
        processed_in(manifest, order) == indexed(manifest),
{
    let left = processed_in(manifest, order);
    let right = indexed(manifest);
    assert forall|term: Seq<char>, id: usize| posted(left, term, id) == posted(right, term, id) by {
        lemma_processed_in(manifest, order, term, id);
        lemma_indexed_postings(manifest, term, id);
    }
    lemma_no_empty_posting_set(manifest, order);
    assert forall|term: Seq<char>| left.contains_key(term) == right.contains_key(term) by {
        if left.contains_key(term) {
            let id = choose|id: usize| left[term].contains(id);
            assert(posted(left, term, id));
            assert(posted(right, term, id));
        }
        if right.contains_key(term) {
            let id = choose|id: usize| holds(manifest, id, term);
            assert(posted(right, term, id));
            assert(posted(left, term, id));
        }
    }
    assert(left.dom() =~= right.dom());
    assert forall|term: Seq<char>| left.contains_key(term) implies left[term] =~= right[term] by {
        assert forall|id: usize| left[term].contains(id) == right[term].contains(id) by {
            assert(posted(left, term, id) == posted(right, term, id));
        }
    }
    assert(left =~= right);
}

/// Processing documents leaves no term with an empty posting set.
proof fn lemma_no_empty_posting_set(manifest: ManifestView, order: Seq<usize>)
    ensures
        forall|term: Seq<char>| #[trigger]
            processed_in(manifest, order).contains_key(term) ==> exists|id: usize|
                processed_in(manifest, order)[term].contains(id),
    decreases order.len(),
{
    if order.len() > 0 {
        let earlier = processed_in(manifest, order.drop_last());
        let now = processed_in(manifest, order);
        lemma_no_empty_posting_set(manifest, order.drop_last());
        assert forall|term: Seq<char>| #[trigger] now.contains_key(term) implies exists|id: usize|
            now[term].contains(id) by {
            if document_terms(manifest[order.last() as int]).contains(term) {
                assert(now[term].contains(order.last()));
            } else {
                assert(earlier.contains_key(term));
                let id = choose|id: usize| earlier[term].contains(id);
                assert(now[term].contains(id));
            }
        }
    }
}

} // verus!
