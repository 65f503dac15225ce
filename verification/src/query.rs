//! The model of a query: its distinct terms, the terms a document matches,
//! and the score of a document.

use vstd::prelude::*;

use crate::index::IndexView;
use crate::terms::views;
use crate::types::{DocumentId, Score};

verus! {

/// The terms of a query without repeats: each term stands where it first
/// occurred.
pub open spec fn distinct(terms: Seq<Seq<char>>) -> Seq<Seq<char>>
    decreases terms.len(),
{
    if terms.len() == 0 {
        Seq::empty()
    } else {
        let front = distinct(terms.drop_last());
        if front.contains(terms.last()) {
            front
        } else {
            front.push(terms.last())
        }
    }
}

/// The places, among the first `n` query terms, of the terms that document
/// `doc` holds, in rising order.
pub open spec fn hits(v: IndexView, query: Seq<Seq<char>>, doc: DocumentId, n: int) -> Seq<usize>
    decreases n,
{
    if n <= 0 {
        Seq::empty()
    } else {
        let front = hits(v, query, doc, n - 1);
        if v.holds(doc, query[n - 1]) {
            front.push((n - 1) as usize)
        } else {
            front
        }
    }
}

/// The terms that stand at the given places of a query.
pub open spec fn terms_at(query: Seq<Seq<char>>, places: Seq<usize>) -> Seq<Seq<char>> {
    Seq::new(places.len(), |i: int| query[places[i] as int])
}

/// The query terms that document `doc` holds, in the order of the query.
pub open spec fn matched_terms(v: IndexView, query: Seq<Seq<char>>, doc: DocumentId) -> Seq<
    Seq<char>,
> {
    terms_at(query, hits(v, query, doc, query.len() as int))
}

/// The number of query terms that document `doc` holds.
pub open spec fn matched_count(v: IndexView, query: Seq<Seq<char>>, doc: DocumentId) -> nat {
    hits(v, query, doc, query.len() as int).len()
}

/// Document `doc` holds at least one term of the query.
pub open spec fn is_candidate(v: IndexView, query: Seq<Seq<char>>, doc: DocumentId) -> bool {
    matched_count(v, query, doc) > 0
}

/// The size of the union of the query's terms and the document's terms.
pub open spec fn union_size(v: IndexView, query: Seq<Seq<char>>, doc: DocumentId) -> int {
    query.len() + v.lengths[doc] - matched_count(v, query, doc)
}

/// The Jaccard similarity of the query and the document, as the fraction of
/// the matched terms in the union of both term sets.
pub open spec fn score_of(v: IndexView, query: Seq<Seq<char>>, doc: DocumentId) -> Score {
    Score {
        num: matched_count(v, query, doc) as u64,
        den: union_size(v, query, doc) as u64,
    }
}

/// No more terms are hit than were looked at, and each place lies among them.
pub proof fn lemma_hits_bounds(v: IndexView, query: Seq<Seq<char>>, doc: DocumentId, n: int)
    requires
        0 <= n <= query.len(),
        query.len() <= usize::MAX,
    ensures
        hits(v, query, doc, n).len() <= n,
        forall|i: int|
            0 <= i < hits(v, query, doc, n).len() ==> 0 <= #[trigger] hits(v, query, doc, n)[i] < n
                && v.holds(doc, query[hits(v, query, doc, n)[i] as int]),
        forall|i: int, j: int|
            0 <= i < j < hits(v, query, doc, n).len() ==> hits(v, query, doc, n)[i] < hits(
                v,
                query,
                doc,
                n,
            )[j],
        forall|k: int|
            0 <= k < n && v.holds(doc, query[k]) ==> hits(v, query, doc, n).contains(k as usize),
    decreases n,
{
    if n > 0 {
        lemma_hits_bounds(v, query, doc, n - 1);
        let front = hits(v, query, doc, n - 1);
        let all = hits(v, query, doc, n);
        assert forall|k: int| 0 <= k < n && v.holds(doc, query[k]) implies all.contains(
            k as usize,
        ) by {
            if k < n - 1 {
                let i = choose|i: int| 0 <= i < front.len() && front[i] == k as usize;
                assert(all[i] == k as usize);
            } else {
                assert(all[all.len() - 1] == k as usize);
            }
        }
    }
}

/// The matched terms of a query without repeats are the terms that the query
/// and the document share, each once.
pub proof fn lemma_matched_terms(v: IndexView, query: Seq<Seq<char>>, doc: DocumentId)
    requires
        query.no_duplicates(),
        query.len() <= usize::MAX,
    ensures
        matched_terms(v, query, doc).no_duplicates(),
        matched_terms(v, query, doc).to_set() == query.to_set().intersect(v.doc_terms(doc)),
        matched_count(v, query, doc) == query.to_set().intersect(v.doc_terms(doc)).len(),
        matched_count(v, query, doc) <= query.len(),
        query.to_set().finite(),
        query.to_set().len() == query.len(),
{
    lemma_hits_bounds(v, query, doc, query.len() as int);
    let h = hits(v, query, doc, query.len() as int);
    let m = matched_terms(v, query, doc);
    let shared = query.to_set().intersect(v.doc_terms(doc));
    assert forall|i: int, j: int| 0 <= i < m.len() && 0 <= j < m.len() && i != j implies m[i]
        != m[j] by {
        if i < j {
            assert(h[i] < h[j]);
        } else {
            assert(h[j] < h[i]);
        }
    }
    assert forall|t: Seq<char>| m.to_set().contains(t) <==> shared.contains(t) by {
        if m.contains(t) {
            let i = choose|i: int| 0 <= i < m.len() && m[i] == t;
            assert(v.holds(doc, query[h[i] as int]));
            assert(query.contains(query[h[i] as int]));
        }
        if shared.contains(t) {
            let k = choose|k: int| 0 <= k < query.len() && query[k] == t;
            assert(v.holds(doc, query[k]));
            assert(h.contains(k as usize));
            let i = choose|i: int| 0 <= i < h.len() && h[i] == k as usize;
            assert(m[i] == t);
        }
    }
    assert(m.to_set() =~= shared);
    m.unique_seq_to_set();
    query.unique_seq_to_set();
    vstd::seq_lib::seq_to_set_is_finite(query);
}

/// The score of a document of a consistent index, against a query without
/// repeats, lies between zero and one, and it is one exactly when the
/// document's terms are the terms of the query.
pub proof fn lemma_score_bounds(v: IndexView, query: Seq<Seq<char>>, doc: DocumentId)
    requires
        v.wf(),
        v.names.contains_key(doc),
        query.no_duplicates(),
        query.len() <= usize::MAX,
    ensures
        0 <= matched_count(v, query, doc) <= union_size(v, query, doc),
        matched_count(v, query, doc) <= query.len(),
        matched_count(v, query, doc) <= v.lengths[doc],
        is_candidate(v, query, doc) ==> union_size(v, query, doc) > 0,
        matched_count(v, query, doc) == union_size(v, query, doc) <==> query.to_set()
            == v.doc_terms(doc),
{
    lemma_matched_terms(v, query, doc);
    let own = v.doc_terms(doc);
    let asked = query.to_set();
    let shared = asked.intersect(own);
    vstd::set_lib::lemma_len_subset(own, v.postings.dom());
    vstd::set_lib::lemma_len_subset(shared, own);
    vstd::set_lib::lemma_len_subset(shared, asked);
    if matched_count(v, query, doc) == union_size(v, query, doc) {
        vstd::set_lib::lemma_subset_equality(shared, own);
        vstd::set_lib::lemma_subset_equality(shared, asked);
        assert(asked =~= own);
    }
    if asked == own {
        assert(shared =~= own);
    }
}

/// The distinct terms of a query are those of the query, each once.
pub proof fn lemma_distinct(terms: Seq<Seq<char>>)
    ensures
        distinct(terms).no_duplicates(),
        distinct(terms).to_set() == terms.to_set(),
        distinct(terms).len() <= terms.len(),
    decreases terms.len(),
{
    if terms.len() == 0 {
        assert(distinct(terms).to_set() =~= terms.to_set());
    } else {
        let rest = terms.drop_last();
        lemma_distinct(rest);
        let front = distinct(rest);
        let all = distinct(terms);
        assert forall|t: Seq<char>| all.to_set().contains(t) <==> terms.to_set().contains(t) by {
            if all.contains(t) {
                let i = choose|i: int| 0 <= i < all.len() && all[i] == t;
                if i < front.len() {
                    assert(front.contains(t));
                    assert(rest.to_set().contains(t));
                    let j = choose|j: int| 0 <= j < rest.len() && rest[j] == t;
                    assert(terms[j] == t);
                } else {
                    assert(terms[terms.len() - 1] == t);
                }
            }
            if terms.contains(t) {
                let j = choose|j: int| 0 <= j < terms.len() && terms[j] == t;
                if j < rest.len() {
                    assert(rest[j] == t);
                    assert(rest.to_set().contains(t));
                    assert(front.contains(t));
                    let i = choose|i: int| 0 <= i < front.len() && front[i] == t;
                    assert(all[i] == t);
                } else if front.contains(t) {
                } else {
                    assert(all[all.len() - 1] == t);
                }
            }
        }
        assert(all.to_set() =~= terms.to_set());
    }
}

/// Drops the repeats from a list of terms, keeping first occurrences in order.
pub fn dedup_terms(terms: &Vec<String>) -> (out: Vec<String>)
    ensures
        views(out@) == distinct(views(terms@)),
{
    let mut out: Vec<String> = Vec::new();
    let mut i: usize = 0;
    assert(views(terms@).take(0) =~= Seq::<Seq<char>>::empty());
    assert(views(out@) =~= distinct(views(terms@).take(0)));
    while i < terms.len()
        invariant
            i <= terms.len(),
            views(out@) == distinct(views(terms@).take(i as int)),
        decreases terms.len() - i,
    {
        let mut found = false;
        let mut j: usize = 0;
        while j < out.len()
            invariant
                j <= out.len(),
                i < terms.len(),
                found == exists|k: int| 0 <= k < j && out@[k]@ == terms@[i as int]@,
            decreases out.len() - j,
        {
            if out[j] == terms[i] {
                found = true;
            }
            j += 1;
        }
        proof {
            let upto = views(terms@).take(i + 1);
            assert(upto.drop_last() =~= views(terms@).take(i as int));
            assert(upto.last() == terms@[i as int]@);
            let front = views(out@);
            if found {
                let k = choose|k: int| 0 <= k < out@.len() && out@[k]@ == terms@[i as int]@;
                assert(front[k] == terms@[i as int]@);
            } else {
                if front.contains(terms@[i as int]@) {
                    let k = choose|k: int| 0 <= k < front.len() && front[k] == terms@[i as int]@;
                    assert(out@[k]@ == terms@[i as int]@);
                }
            }
        }
        if !found {
            let t = terms[i].clone();
            assert(views(out@.push(t)) =~= views(out@).push(t@));
            out.push(t);
        }
        i += 1;
    }
    assert(views(terms@).take(terms.len() as int) =~= views(terms@));
    out
}

} // verus!
