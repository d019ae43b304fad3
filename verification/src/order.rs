//! The lexicographic order on terms, by code point.
//!
//! Terms are listed in this order. It is the order in which Rust compares
//! strings: the first position at which two terms differ decides, and a term
//! comes before each of its proper extensions.

use vstd::prelude::*;

verus! {

/// `a` and `b` agree on their first `k` characters, and at position `k` either
/// `a` has ended while `b` goes on, or `a` holds the smaller character.
pub open spec fn precedes_at(a: Seq<char>, b: Seq<char>, k: int) -> bool {
    &&& 0 <= k <= a.len()
    &&& k < b.len()
    &&& forall|i: int| 0 <= i < k ==> a[i] == b[i]
    &&& (k == a.len() || a[k] < b[k])
}

/// `a` comes strictly before `b` in lexicographic order.
pub open spec fn precedes(a: Seq<char>, b: Seq<char>) -> bool {
    exists|k: int| precedes_at(a, b, k)
}

/// How one term stands to another in the order.
#[derive(Clone, Copy, Debug, PartialEq, Eq)]
pub enum Rank {
    /// The first term comes strictly before the second.
    Before,
    /// The two terms are equal.
    Same,
    /// The first term comes strictly after the second.
    After,
}

/// No term precedes itself, and no two terms precede each other.
pub proof fn lemma_precedes_asymmetric(a: Seq<char>, b: Seq<char>)
    ensures
        !(precedes(a, b) && precedes(b, a)),
        precedes(a, b) ==> a != b,
{
    if precedes(a, b) && precedes(b, a) {
        let k = choose|k: int| precedes_at(a, b, k);
        let j = choose|j: int| precedes_at(b, a, j);
        assert(false);
    }
    if precedes(a, b) && a == b {
        let k = choose|k: int| precedes_at(a, b, k);
        assert(false);
    }
}

/// The order is transitive.
pub proof fn lemma_precedes_transitive(a: Seq<char>, b: Seq<char>, c: Seq<char>)
    requires
        precedes(a, b),
        precedes(b, c),
    ensures
        precedes(a, c),
{
    let k = choose|k: int| precedes_at(a, b, k);
    let j = choose|j: int| precedes_at(b, c, j);
    let m = if k <= j { k } else { j };
    assert(precedes_at(a, c, m));
}

/// Any two distinct terms are ordered one way or the other.
pub proof fn lemma_precedes_total(a: Seq<char>, b: Seq<char>)
    ensures
        a == b || precedes(a, b) || precedes(b, a),
{
    lemma_first_difference(a, b, 0);
}

/// Two terms that agree on their first `k` characters are equal or ordered.
proof fn lemma_first_difference(a: Seq<char>, b: Seq<char>, k: int)
    requires
        0 <= k <= a.len(),
        k <= b.len(),
        forall|i: int| 0 <= i < k ==> a[i] == b[i],
    ensures
        a == b || precedes(a, b) || precedes(b, a),
    decreases a.len() - k,
{
    if k == a.len() {
        if k == b.len() {
            assert(a =~= b);
        } else {
            assert(precedes_at(a, b, k));
        }
    } else if k == b.len() {
        assert(precedes_at(b, a, k));
    } else if a[k] == b[k] {
        lemma_first_difference(a, b, k + 1);
    } else if a[k] < b[k] {
        assert(precedes_at(a, b, k));
    } else {
        assert(precedes_at(b, a, k));
    }
}

/// Ranks `a` against `b` in lexicographic order.
pub fn rank(a: &Vec<char>, b: &Vec<char>) -> (r: Rank)
    ensures
        (r == Rank::Before) == precedes(a@, b@),
        (r == Rank::Same) == (a@ == b@),
        (r == Rank::After) == precedes(b@, a@),
{
    proof {
        lemma_precedes_asymmetric(a@, b@);
        lemma_precedes_asymmetric(b@, a@);
    }
    let mut k: usize = 0;
    while k < a.len() && k < b.len()
        invariant
            k <= a.len(),
            k <= b.len(),
            forall|i: int| 0 <= i < k ==> a@[i] == b@[i],
        decreases a.len() - k,
    {
        if a[k] < b[k] {
            assert(precedes_at(a@, b@, k as int));
            return Rank::Before;
        }
        if b[k] < a[k] {
            assert(precedes_at(b@, a@, k as int));
            return Rank::After;
        }
        k += 1;
    }
    if k < b.len() {
        assert(precedes_at(a@, b@, k as int));
        Rank::Before
    } else if k < a.len() {
        assert(precedes_at(b@, a@, k as int));
        Rank::After
    } else {
        assert(a@ =~= b@);
        Rank::Same
    }
}

} // verus!
