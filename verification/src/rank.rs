//! The order of an answer: better scores first, and among equal scores the
//! lower document id first.

use vstd::prelude::*;

use crate::types::{DocumentId, Score};

verus! {

/// A scored document on its way into an answer.
#[derive(Debug)]
pub struct Ranked {
    pub doc: DocumentId,
    pub score: Score,
    /// the places of the query terms that the document holds
    pub hits: Vec<usize>,
}

/// A document with score `a` and id `a_doc` stands before one with score `b`
/// and id `b_doc`: its score is higher, or the scores are equal and its id is
/// lower.
pub open spec fn outranks(a: Score, a_doc: DocumentId, b: Score, b_doc: DocumentId) -> bool {
    b.below(a) || (a.same(b) && a_doc < b_doc)
}

/// Of two documents with different ids, one stands before the other.
pub proof fn lemma_outranks_total(a: Score, a_doc: DocumentId, b: Score, b_doc: DocumentId)
    requires
        a_doc != b_doc,
    ensures
        outranks(a, a_doc, b, b_doc) || outranks(b, b_doc, a, a_doc),
{
}

/// No two documents stand before each other.
pub proof fn lemma_outranks_asymmetric(a: Score, a_doc: DocumentId, b: Score, b_doc: DocumentId)
    ensures
        !(outranks(a, a_doc, b, b_doc) && outranks(b, b_doc, a, a_doc)),
{
}

/// Fractions with positive denominators compare transitively.
pub proof fn lemma_fraction_chain(x1: int, y1: int, x2: int, y2: int, x3: int, y3: int)
    requires
        0 <= x1,
        0 <= x2,
        0 <= x3,
        0 < y1,
        0 < y2,
        0 < y3,
        x1 * y2 <= x2 * y1,
        x2 * y3 <= x3 * y2,
    ensures
        x1 * y3 <= x3 * y1,
        x1 * y2 < x2 * y1 || x2 * y3 < x3 * y2 ==> x1 * y3 < x3 * y1,
{
    assert((x1 * y2) * y3 <= (x2 * y1) * y3) by (nonlinear_arith)
        requires
            x1 * y2 <= x2 * y1,
            0 < y3,
    ;
    assert((x2 * y3) * y1 <= (x3 * y2) * y1) by (nonlinear_arith)
        requires
            x2 * y3 <= x3 * y2,
            0 < y1,
    ;
    assert((x2 * y1) * y3 == (x2 * y3) * y1) by (nonlinear_arith);
    assert((x1 * y2) * y3 == (x1 * y3) * y2) by (nonlinear_arith);
    assert((x3 * y2) * y1 == (x3 * y1) * y2) by (nonlinear_arith);
    assert(x1 * y3 <= x3 * y1) by (nonlinear_arith)
        requires
            (x1 * y3) * y2 <= (x3 * y1) * y2,
            0 < y2,
    ;
    if x1 * y2 < x2 * y1 {
        assert((x1 * y2) * y3 < (x2 * y1) * y3) by (nonlinear_arith)
            requires
                x1 * y2 < x2 * y1,
                0 < y3,
        ;
        assert(x1 * y3 < x3 * y1) by (nonlinear_arith)
            requires
                (x1 * y3) * y2 < (x3 * y1) * y2,
                0 < y2,
        ;
    }
    if x2 * y3 < x3 * y2 {
        assert((x2 * y3) * y1 < (x3 * y2) * y1) by (nonlinear_arith)
            requires
                x2 * y3 < x3 * y2,
                0 < y1,
        ;
        assert(x1 * y3 < x3 * y1) by (nonlinear_arith)
            requires
                (x1 * y3) * y2 < (x3 * y1) * y2,
                0 < y2,
        ;
    }
}

/// Standing before is transitive among scores with positive denominators.
pub proof fn lemma_outranks_transitive(
    a: Score,
    a_doc: DocumentId,
    b: Score,
    b_doc: DocumentId,
    c: Score,
    c_doc: DocumentId,
)
    requires
        a.den > 0,
        b.den > 0,
        c.den > 0,
        outranks(a, a_doc, b, b_doc),
        outranks(b, b_doc, c, c_doc),
    ensures
        outranks(a, a_doc, c, c_doc),
{
    lemma_fraction_chain(
        c.num as int,
        c.den as int,
        b.num as int,
        b.den as int,
        a.num as int,
        a.den as int,
    );
    if a.same(b) && b.same(c) {
        lemma_fraction_chain(
            a.num as int,
            a.den as int,
            b.num as int,
            b.den as int,
            c.num as int,
            c.den as int,
        );
    }
}

/// Each entry stands before all that follow it.
pub open spec fn in_order(list: Seq<Ranked>) -> bool {
    forall|i: int, j: int|
        0 <= i < j < list.len() ==> outranks(
            (#[trigger] list[i]).score,
            list[i].doc,
            (#[trigger] list[j]).score,
            list[j].doc,
        )
}

/// Tells whether `a` stands before `b`.
pub fn stands_before(a: &Ranked, b: &Ranked) -> (r: bool)
    ensures
        r == outranks(a.score, a.doc, b.score, b.doc),
{
    b.score.less_than(&a.score) || (a.score.same_value(&b.score) && a.doc < b.doc)
}

/// Puts an entry into an ordered list at its place.
pub fn insert_ranked(list: &mut Vec<Ranked>, item: Ranked) -> (at: usize)
    requires
        in_order(old(list)@),
        item.score.den > 0,
        forall|i: int| 0 <= i < old(list)@.len() ==> (#[trigger] old(list)@[i]).score.den > 0,
        forall|i: int| 0 <= i < old(list)@.len() ==> (#[trigger] old(list)@[i]).doc != item.doc,
    ensures
        at <= old(list)@.len(),
        final(list)@ == old(list)@.insert(at as int, item),
        in_order(final(list)@),
{
    let mut at: usize = 0;
    while at < list.len() && stands_before(&list[at], &item)
        invariant
            at <= list@.len(),
            list@ == old(list)@,
            forall|i: int|
                0 <= i < at ==> outranks(
                    (#[trigger] list@[i]).score,
                    list@[i].doc,
                    item.score,
                    item.doc,
                ),
        decreases list@.len() - at,
    {
        at += 1;
    }
    proof {
        let before = list@;
        let after = before.insert(at as int, item);
        assert forall|i: int, j: int| 0 <= i < j < after.len() implies outranks(
            (#[trigger] after[i]).score,
            after[i].doc,
            (#[trigger] after[j]).score,
            after[j].doc,
        ) by {
            if j < at {
                assert(after[i] == before[i] && after[j] == before[j]);
            } else if j == at {
                assert(after[i] == before[i]);
            } else if i < at {
                assert(after[i] == before[i] && after[j] == before[j - 1]);
            } else if i == at {
                let first = before[at as int];
                lemma_outranks_total(item.score, item.doc, first.score, first.doc);
                if j - 1 > at {
                    lemma_outranks_transitive(
                        item.score,
                        item.doc,
                        first.score,
                        first.doc,
                        before[j - 1].score,
                        before[j - 1].doc,
                    );
                }
            } else {
                assert(after[i] == before[i - 1] && after[j] == before[j - 1]);
            }
        }
    }
    list.insert(at, item);
    at
}

} // verus!
