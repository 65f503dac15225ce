//! Ranked search over an index.

use std::collections::HashMap;
use vstd::prelude::*;

use crate::index::{lemma_length_bound, lemma_postings_map_at, IndexView, IndexedData};
use crate::query::{
    dedup_terms, distinct, hits, is_candidate, lemma_distinct, lemma_hits_bounds,
    lemma_score_bounds, matched_terms, score_of, terms_at,
};
use crate::rank::{
    in_order, insert_ranked, lemma_outranks_asymmetric, lemma_outranks_total, outranks, Ranked,
};
use crate::terms::views;
use crate::types::{DocumentId, Score, SearchData, SearchMatch, SearchResult, Term};

verus! {

/// A document that holds at least one query term, with the places of the
/// query terms it holds.
#[derive(Debug)]
pub struct Candidate {
    pub doc: DocumentId,
    pub hits: Vec<usize>,
}

/// The hits of a document once the first `n` query terms have been looked up
/// and, of the next term's documents `docs`, the first `p`.
pub open spec fn partial_hits(
    v: IndexView,
    query: Seq<Seq<char>>,
    doc: DocumentId,
    n: int,
    docs: Seq<DocumentId>,
    p: int,
) -> Seq<usize> {
    if docs.take(p).contains(doc) {
        hits(v, query, doc, n).push(n as usize)
    } else {
        hits(v, query, doc, n)
    }
}

/// The candidates and the table of their places agree with each other and
/// with the part of the query that was looked at.
pub open spec fn gathered(
    found: Seq<Candidate>,
    slot: Map<DocumentId, usize>,
    v: IndexView,
    query: Seq<Seq<char>>,
    n: int,
    docs: Seq<DocumentId>,
    p: int,
) -> bool {
    &&& forall|i: int|
        0 <= i < found.len() ==> {
            &&& slot.contains_key(#[trigger] found[i].doc)
            &&& slot[found[i].doc] == i
            &&& found[i].hits@ == partial_hits(v, query, found[i].doc, n, docs, p)
            &&& found[i].hits@.len() > 0
        }
    &&& forall|d: DocumentId| #[trigger]
        slot.contains_key(d) ==> slot[d] < found.len() && found[slot[d] as int].doc == d
    &&& forall|d: DocumentId|
        (#[trigger] partial_hits(v, query, d, n, docs, p)).len() > 0 ==> slot.contains_key(d)
}

/// Two stages of the lookup at which every document has the same hits hold
/// the same candidates.
pub proof fn lemma_gathered_same(
    found: Seq<Candidate>,
    slot: Map<DocumentId, usize>,
    v: IndexView,
    query: Seq<Seq<char>>,
    n: int,
    docs: Seq<DocumentId>,
    p: int,
    n_next: int,
    docs_next: Seq<DocumentId>,
    p_next: int,
)
    requires
        gathered(found, slot, v, query, n, docs, p),
        forall|d: DocumentId|
            partial_hits(v, query, d, n, docs, p) == #[trigger] partial_hits(
                v,
                query,
                d,
                n_next,
                docs_next,
                p_next,
            ),
    ensures
        gathered(found, slot, v, query, n_next, docs_next, p_next),
{
    assert forall|i: int| 0 <= i < found.len() implies {
        &&& slot.contains_key(#[trigger] found[i].doc)
        &&& slot[found[i].doc] == i
        &&& found[i].hits@ == partial_hits(v, query, found[i].doc, n_next, docs_next, p_next)
        &&& found[i].hits@.len() > 0
    } by {
        let d = found[i].doc;
        assert(partial_hits(v, query, d, n, docs, p) == partial_hits(v, query, d, n_next, docs_next, p_next));
    }
    assert forall|d: DocumentId|
        (#[trigger] partial_hits(v, query, d, n_next, docs_next, p_next)).len() > 0 implies slot.contains_key(
        d,
    ) by {
        assert(partial_hits(v, query, d, n, docs, p).len() > 0);
    }
}

impl IndexedData {
    /// Gathers the documents that hold at least one term of the query, each
    /// once, in the order in which the lookup first meets them.
    pub fn collect_candidates(&self, query: &Vec<String>) -> (found: Vec<Candidate>)
        requires
            self.wf(),
        ensures
            forall|i: int|
                0 <= i < found@.len() ==> (#[trigger] found@[i]).hits@ == hits(
                    self@,
                    views(query@),
                    found@[i].doc,
                    query@.len() as int,
                ) && found@[i].hits@.len() > 0,
            forall|i: int, j: int|
                0 <= i < found@.len() && 0 <= j < found@.len() && i != j ==> (
                #[trigger] found@[i]).doc != (#[trigger] found@[j]).doc,
            forall|d: DocumentId|
                is_candidate(self@, views(query@), d) ==> exists|i: int|
                    0 <= i < found@.len() && (#[trigger] found@[i]).doc == d,
    {
        let ghost v = self@;
        let ghost q = views(query@);
        let mut found: Vec<Candidate> = Vec::new();
        let mut slot: HashMap<DocumentId, usize> = HashMap::new();
        let mut j: usize = 0;
        while j < query.len()
            invariant
                j <= query.len(),
                self.wf(),
                v == self@,
                q == views(query@),
                gathered(found@, slot@, v, q, j as int, Seq::empty(), 0),
            decreases query.len() - j,
        {
            match self.find_term(&query[j]) {
                Some(at) => {
                    let docs = &self.terms_to_docs[at].docs;
                    proof {
                        lemma_postings_map_at(self.terms_to_docs@, at as int);
                        assert(v.postings[q[j as int]] == docs@);
                        assert(docs@.take(0) =~= Seq::<DocumentId>::empty());
                        let no_docs = Seq::<DocumentId>::empty();
                        assert(no_docs.take(0) =~= no_docs);
                        assert forall|d: DocumentId|
                            partial_hits(v, q, d, j as int, no_docs, 0) == #[trigger] partial_hits(
                                v,
                                q,
                                d,
                                j as int,
                                docs@,
                                0,
                            ) by {}
                        lemma_gathered_same(
                            found@,
                            slot@,
                            v,
                            q,
                            j as int,
                            no_docs,
                            0,
                            j as int,
                            docs@,
                            0,
                        );
                        assert(docs@.no_duplicates());
                    }
                    let mut p: usize = 0;
                    while p < docs.len()
                        invariant
                            p <= docs.len(),
                            j < query.len(),
                            q == views(query@),
                            docs@.no_duplicates(),
                            gathered(found@, slot@, v, q, j as int, docs@, p as int),
                        decreases docs.len() - p,
                    {
                        let doc = docs[p];
                        let ghost before = found@;
                        let ghost before_slot = slot@;
                        proof {
                            let head = docs@.take(p as int);
                            let more = docs@.take(p + 1);
                            assert(!head.contains(doc)) by {
                                if head.contains(doc) {
                                    let k = choose|k: int| 0 <= k < head.len() && head[k] == doc;
                                    assert(docs@[k] == doc);
                                }
                            }
                            assert(more =~= head.push(doc));
                            assert forall|d: DocumentId| d != doc implies more.contains(d)
                                == head.contains(d) by {
                                if more.contains(d) {
                                    let k = choose|k: int| 0 <= k < more.len() && more[k] == d;
                                    assert(head[k] == d);
                                }
                                if head.contains(d) {
                                    let k = choose|k: int| 0 <= k < head.len() && head[k] == d;
                                    assert(more[k] == d);
                                }
                            }
                            assert(more[p as int] == doc);
                            assert(more.contains(doc));
                        }
                        let known = match slot.get(&doc) {
                            Some(c) => Some(*c),
                            None => None,
                        };
                        match known {
                            Some(c) => {
                                assert(before[c as int].doc == doc);
                                found[c].hits.push(j);
                                proof {
                                    let after = found@;
                                    assert(after.len() == before.len());
                                    assert forall|i: int| 0 <= i < after.len() implies {
                                        &&& slot@.contains_key(#[trigger] after[i].doc)
                                        &&& slot@[after[i].doc] == i
                                        &&& after[i].hits@ == partial_hits(
                                            v,
                                            q,
                                            after[i].doc,
                                            j as int,
                                            docs@,
                                            p + 1,
                                        )
                                        &&& after[i].hits@.len() > 0
                                    } by {
                                        assert(slot@.contains_key(before[i].doc));
                                        if i != c {
                                            assert(after[i] == before[i]);
                                        }
                                    }
                                    assert forall|d: DocumentId| #[trigger]
                                        slot@.contains_key(d) implies slot@[d] < after.len()
                                        && after[slot@[d] as int].doc == d by {
                                        let i = slot@[d] as int;
                                        assert(before[i].doc == d);
                                    }
                                    assert forall|d: DocumentId|
                                        (#[trigger] partial_hits(
                                            v,
                                            q,
                                            d,
                                            j as int,
                                            docs@,
                                            p + 1,
                                        )).len() > 0 implies slot@.contains_key(d) by {
                                        if d != doc {
                                            assert(partial_hits(v, q, d, j as int, docs@, p as int)
                                                == partial_hits(
                                                v,
                                                q,
                                                d,
                                                j as int,
                                                docs@,
                                                p + 1,
                                            ));
                                        }
                                    }
                                }
                            },
                            None => {
                                let at_end = found.len();
                                let mut first: Vec<usize> = Vec::new();
                                first.push(j);
                                slot.insert(doc, at_end);
                                found.push(Candidate { doc, hits: first });
                                proof {
                                    let after = found@;
                                    assert(partial_hits(v, q, doc, j as int, docs@, p as int).len()
                                        == 0);
                                    assert(hits(v, q, doc, j as int) =~= Seq::<usize>::empty());
                                    assert(first@ =~= partial_hits(
                                        v,
                                        q,
                                        doc,
                                        j as int,
                                        docs@,
                                        p + 1,
                                    ));
                                    assert forall|i: int| 0 <= i < after.len() implies {
                                        &&& slot@.contains_key(#[trigger] after[i].doc)
                                        &&& slot@[after[i].doc] == i
                                        &&& after[i].hits@ == partial_hits(
                                            v,
                                            q,
                                            after[i].doc,
                                            j as int,
                                            docs@,
                                            p + 1,
                                        )
                                        &&& after[i].hits@.len() > 0
                                    } by {
                                        if i < before.len() {
                                            assert(after[i] == before[i]);
                                            assert(before_slot.contains_key(before[i].doc));
                                        }
                                    }
                                    assert forall|d: DocumentId| #[trigger]
                                        slot@.contains_key(d) implies slot@[d] < after.len()
                                        && after[slot@[d] as int].doc == d by {
                                        if d != doc {
                                            assert(before_slot.contains_key(d));
                                            let i = before_slot[d] as int;
                                            assert(before[i].doc == d);
                                            assert(after[i] == before[i]);
                                        }
                                    }
                                    assert forall|d: DocumentId|
                                        (#[trigger] partial_hits(
                                            v,
                                            q,
                                            d,
                                            j as int,
                                            docs@,
                                            p + 1,
                                        )).len() > 0 implies slot@.contains_key(d) by {
                                        if d != doc {
                                            assert(partial_hits(v, q, d, j as int, docs@, p as int)
                                                == partial_hits(
                                                v,
                                                q,
                                                d,
                                                j as int,
                                                docs@,
                                                p + 1,
                                            ));
                                        }
                                    }
                                }
                            },
                        }
                        p += 1;
                    }
                    proof {
                        let no_docs = Seq::<DocumentId>::empty();
                        assert(no_docs.take(0) =~= no_docs);
                        assert(docs@.take(docs@.len() as int) =~= docs@);
                        assert forall|d: DocumentId|
                            partial_hits(v, q, d, j as int, docs@, docs@.len() as int)
                                == #[trigger] partial_hits(v, q, d, j + 1, no_docs, 0) by {
                            assert(v.holds(d, q[j as int]) == docs@.contains(d));
                        }
                        lemma_gathered_same(
                            found@,
                            slot@,
                            v,
                            q,
                            j as int,
                            docs@,
                            docs@.len() as int,
                            j + 1,
                            no_docs,
                            0,
                        );
                    }
                },
                None => {
                    proof {
                        let no_docs = Seq::<DocumentId>::empty();
                        assert(no_docs.take(0) =~= no_docs);
                        assert(!v.postings.contains_key(q[j as int]));
                        assert forall|d: DocumentId|
                            partial_hits(v, q, d, j as int, no_docs, 0) == #[trigger] partial_hits(
                                v,
                                q,
                                d,
                                j + 1,
                                no_docs,
                                0,
                            ) by {
                            assert(!v.holds(d, q[j as int]));
                        }
                        lemma_gathered_same(
                            found@,
                            slot@,
                            v,
                            q,
                            j as int,
                            no_docs,
                            0,
                            j + 1,
                            no_docs,
                            0,
                        );
                    }
                },
            }
            j += 1;
        }
        proof {
            assert(Seq::<DocumentId>::empty().take(0) =~= Seq::<DocumentId>::empty());
            assert forall|d: DocumentId| is_candidate(v, q, d) implies exists|i: int|
                0 <= i < found@.len() && (#[trigger] found@[i]).doc == d by {
                assert(partial_hits(v, q, d, j as int, Seq::empty(), 0).len() > 0);
                assert(slot@.contains_key(d));
                assert(found@[slot@[d] as int].doc == d);
            }
        }
        found
    }
}

/// Document `doc` is a candidate whose score is not below the threshold.
pub open spec fn passes(v: IndexView, query: Seq<Seq<char>>, min_score: Score, doc: DocumentId) -> bool {
    is_candidate(v, query, doc) && !score_of(v, query, doc).below(min_score)
}

/// Document `a` stands before document `b` in an answer to the query.
pub open spec fn before(v: IndexView, query: Seq<Seq<char>>, a: DocumentId, b: DocumentId) -> bool {
    outranks(score_of(v, query, a), a, score_of(v, query, b), b)
}

/// `ids` is the ranking of the query: the documents that pass the threshold,
/// best first, cut after `max_length` entries. Whatever passes and is left
/// out stands after every entry, and is left out only for want of room.
pub open spec fn is_ranking(
    v: IndexView,
    query: Seq<Seq<char>>,
    min_score: Score,
    max_length: nat,
    ids: Seq<DocumentId>,
) -> bool {
    &&& ids.len() <= max_length
    &&& forall|i: int| 0 <= i < ids.len() ==> passes(v, query, min_score, #[trigger] ids[i])
    &&& forall|i: int, j: int|
        0 <= i < j < ids.len() ==> before(v, query, #[trigger] ids[i], #[trigger] ids[j])
    &&& forall|d: DocumentId|
        #[trigger] passes(v, query, min_score, d) && !ids.contains(d) ==> ids.len() == max_length
    &&& forall|d: DocumentId, i: int|
        #[trigger] passes(v, query, min_score, d) && !ids.contains(d) && 0 <= i < ids.len()
            ==> before(v, query, #[trigger] ids[i], d)
}

/// `out` is the answer to the query along the ranking `ids`: for each ranked
/// document its name, its score and the query terms it holds.
pub open spec fn is_answer(
    v: IndexView,
    query: Seq<Seq<char>>,
    ids: Seq<DocumentId>,
    out: Seq<SearchMatch>,
) -> bool {
    &&& out.len() == ids.len()
    &&& forall|i: int|
        0 <= i < out.len() ==> {
            &&& (#[trigger] out[i]).md5@ == v.names[ids[i]]
            &&& out[i].score == score_of(v, query, ids[i])
            &&& views(out[i].matched_terms@) == matched_terms(v, query, ids[i])
        }
}

/// Two rankings of one query agree on their first `n` entries.
pub proof fn lemma_rankings_agree(
    v: IndexView,
    query: Seq<Seq<char>>,
    min_score: Score,
    max_length: nat,
    a: Seq<DocumentId>,
    b: Seq<DocumentId>,
    n: int,
)
    requires
        is_ranking(v, query, min_score, max_length, a),
        is_ranking(v, query, min_score, max_length, b),
        0 <= n <= a.len(),
        n <= b.len(),
    ensures
        forall|i: int| 0 <= i < n ==> a[i] == b[i],
    decreases n,
{
    if n > 0 {
        lemma_rankings_agree(v, query, min_score, max_length, a, b, n - 1);
        let i = n - 1;
        lemma_ranking_places(v, query, min_score, max_length, a, b, i);
        lemma_ranking_places(v, query, min_score, max_length, b, a, i);
        if a[i] != b[i] {
            lemma_outranks_total(score_of(v, query, a[i]), a[i], score_of(v, query, b[i]), b[i]);
        }
    }
}

/// Where two rankings agree before place `i`, the entry of the first at `i`
/// does not stand before that of the second.
pub proof fn lemma_ranking_places(
    v: IndexView,
    query: Seq<Seq<char>>,
    min_score: Score,
    max_length: nat,
    a: Seq<DocumentId>,
    b: Seq<DocumentId>,
    i: int,
)
    requires
        is_ranking(v, query, min_score, max_length, a),
        is_ranking(v, query, min_score, max_length, b),
        0 <= i < a.len(),
        i < b.len(),
        forall|k: int| 0 <= k < i ==> a[k] == b[k],
    ensures
        !before(v, query, a[i], b[i]),
{
    let d = a[i];
    lemma_outranks_asymmetric(score_of(v, query, d), d, score_of(v, query, b[i]), b[i]);
    if before(v, query, d, b[i]) {
        assert(passes(v, query, min_score, d));
        if b.contains(d) {
            let j = choose|j: int| 0 <= j < b.len() && b[j] == d;
            if j < i {
                assert(a[j] == b[j]);
                assert(before(v, query, a[j], a[i]));
                lemma_outranks_asymmetric(score_of(v, query, d), d, score_of(v, query, d), d);
            } else if j > i {
                assert(before(v, query, b[i], b[j]));
            }
        } else {
            assert(before(v, query, b[i], d));
        }
    }
}

/// A query has one ranking only: the threshold, the limit and the order
/// leave no choice.
pub proof fn lemma_ranking_unique(
    v: IndexView,
    query: Seq<Seq<char>>,
    min_score: Score,
    max_length: nat,
    a: Seq<DocumentId>,
    b: Seq<DocumentId>,
)
    requires
        is_ranking(v, query, min_score, max_length, a),
        is_ranking(v, query, min_score, max_length, b),
    ensures
        a == b,
{
    let n = if a.len() <= b.len() {
        a.len() as int
    } else {
        b.len() as int
    };
    lemma_rankings_agree(v, query, min_score, max_length, a, b, n);
    lemma_ranking_no_shorter(v, query, min_score, max_length, a, b);
    lemma_ranking_no_shorter(v, query, min_score, max_length, b, a);
    assert(a =~= b);
}

/// Of two rankings that agree as far as both reach, the first is no shorter.
pub proof fn lemma_ranking_no_shorter(
    v: IndexView,
    query: Seq<Seq<char>>,
    min_score: Score,
    max_length: nat,
    a: Seq<DocumentId>,
    b: Seq<DocumentId>,
)
    requires
        is_ranking(v, query, min_score, max_length, a),
        is_ranking(v, query, min_score, max_length, b),
        forall|i: int| 0 <= i < a.len() && i < b.len() ==> a[i] == b[i],
    ensures
        a.len() >= b.len(),
{
    if a.len() < b.len() {
        let d = b[a.len() as int];
        assert(passes(v, query, min_score, d));
        if a.contains(d) {
            let j = choose|j: int| 0 <= j < a.len() && a[j] == d;
            assert(b[j] == d);
            assert(before(v, query, b[j], b[a.len() as int]));
            lemma_outranks_asymmetric(score_of(v, query, d), d, score_of(v, query, d), d);
        }
    }
}

/// The answer to a query depends on nothing but what the index is: two
/// answers to one query over one index hold the same matches in the same
/// order, with the same names, scores and matched terms.
pub proof fn lemma_answer_unique(
    v: IndexView,
    query: Seq<Seq<char>>,
    min_score: Score,
    max_length: nat,
    a_ids: Seq<DocumentId>,
    a: Seq<SearchMatch>,
    b_ids: Seq<DocumentId>,
    b: Seq<SearchMatch>,
)
    requires
        is_ranking(v, query, min_score, max_length, a_ids),
        is_answer(v, query, a_ids, a),
        is_ranking(v, query, min_score, max_length, b_ids),
        is_answer(v, query, b_ids, b),
    ensures
        a.len() == b.len(),
        forall|i: int|
            0 <= i < a.len() ==> {
                &&& (#[trigger] a[i]).md5@ == b[i].md5@
                &&& a[i].score == b[i].score
                &&& views(a[i].matched_terms@) == views(b[i].matched_terms@)
            },
{
    lemma_ranking_unique(v, query, min_score, max_length, a_ids, b_ids);
    assert forall|i: int| 0 <= i < a.len() implies {
        &&& (#[trigger] a[i]).md5@ == b[i].md5@
        &&& a[i].score == b[i].score
        &&& views(a[i].matched_terms@) == views(b[i].matched_terms@)
    } by {
        assert(b[i].md5@ == v.names[b_ids[i]]);
    }
}

/// A candidate of a consistent index has a name.
pub proof fn lemma_candidate_known(v: IndexView, query: Seq<Seq<char>>, doc: DocumentId)
    requires
        v.wf(),
        query.len() <= usize::MAX,
        is_candidate(v, query, doc),
    ensures
        v.names.contains_key(doc),
{
    lemma_hits_bounds(v, query, doc, query.len() as int);
    let h = hits(v, query, doc, query.len() as int);
    let t = query[h[0] as int];
    assert(v.holds(doc, t));
    let list = v.postings[t];
    let k = choose|k: int| 0 <= k < list.len() && list[k] == doc;
    assert(v.names.contains_key(list[k]));
}

/// The ids of a list of ranked documents.
pub open spec fn ranked_ids(list: Seq<Ranked>) -> Seq<DocumentId> {
    Seq::new(list.len(), |k: int| list[k].doc)
}

/// Scores the candidates, drops those below the threshold and puts the rest
/// in order.
pub fn rank_candidates(
    data: &IndexedData,
    query: &Vec<String>,
    found: Vec<Candidate>,
    min_score: Score,
) -> (ranked: Vec<Ranked>)
    requires
        data.wf(),
        views(query@).no_duplicates(),
        query@.len() + data.terms_to_docs@.len() <= usize::MAX,
        forall|i: int|
            0 <= i < found@.len() ==> (#[trigger] found@[i]).hits@ == hits(
                data@,
                views(query@),
                found@[i].doc,
                query@.len() as int,
            ) && found@[i].hits@.len() > 0,
        forall|i: int, j: int|
            0 <= i < found@.len() && 0 <= j < found@.len() && i != j ==> (#[trigger] found@[i]).doc
                != (#[trigger] found@[j]).doc,
    ensures
        in_order(ranked@),
        forall|k: int|
            0 <= k < ranked@.len() ==> {
                &&& passes(data@, views(query@), min_score, (#[trigger] ranked@[k]).doc)
                &&& ranked@[k].score == score_of(data@, views(query@), ranked@[k].doc)
                &&& ranked@[k].hits@ == hits(
                    data@,
                    views(query@),
                    ranked@[k].doc,
                    query@.len() as int,
                )
                &&& data@.names.contains_key(ranked@[k].doc)
            },
        forall|i: int|
            0 <= i < found@.len() && passes(
                data@,
                views(query@),
                min_score,
                (#[trigger] found@[i]).doc,
            ) ==> ranked_ids(ranked@).contains(found@[i].doc),
{
    let ghost v = data@;
    let ghost q = views(query@);
    let ghost all = found@;
    let mut found = found;
    let mut ranked: Vec<Ranked> = Vec::new();
    let ghost mut src: Seq<int> = Seq::empty();
    while found.len() > 0
        invariant
            data.wf(),
            v == data@,
            q == views(query@),
            q.no_duplicates(),
            q.len() + data.terms_to_docs@.len() <= usize::MAX,
            found@.len() <= all.len(),
            found@ == all.take(found@.len() as int),
            forall|i: int|
                0 <= i < all.len() ==> (#[trigger] all[i]).hits@ == hits(
                    v,
                    q,
                    all[i].doc,
                    q.len() as int,
                ) && all[i].hits@.len() > 0,
            forall|i: int, j: int|
                0 <= i < all.len() && 0 <= j < all.len() && i != j ==> (#[trigger] all[i]).doc != (
                #[trigger] all[j]).doc,
            in_order(ranked@),
            src.len() == ranked@.len(),
            forall|k: int|
                0 <= k < ranked@.len() ==> {
                    &&& found@.len() <= #[trigger] src[k] < all.len()
                    &&& all[src[k]].doc == ranked@[k].doc
                },
            forall|k: int|
                0 <= k < ranked@.len() ==> {
                    &&& passes(v, q, min_score, (#[trigger] ranked@[k]).doc)
                    &&& ranked@[k].score == score_of(v, q, ranked@[k].doc)
                    &&& ranked@[k].score.den > 0
                    &&& ranked@[k].hits@ == hits(v, q, ranked@[k].doc, q.len() as int)
                    &&& v.names.contains_key(ranked@[k].doc)
                },
            forall|i: int|
                found@.len() <= i < all.len() && passes(v, q, min_score, (#[trigger] all[i]).doc)
                    ==> ranked_ids(ranked@).contains(all[i].doc),
        decreases found@.len(),
    {
        let ghost at_all = found@.len() - 1;
        let c = found.pop().unwrap();
        proof {
            assert(c == all[at_all]);
            assert(found@ =~= all.take(at_all));
            assert(is_candidate(v, q, c.doc));
            lemma_candidate_known(v, q, c.doc);
            lemma_length_bound(data, c.doc);
            lemma_score_bounds(v, q, c.doc);
        }
        let matched = c.hits.len();
        let length = *data.doc_lengths.get(&c.doc).unwrap();
        let union = query.len() + length - matched;
        let score = Score { num: matched as u64, den: union as u64 };
        assert(score == score_of(v, q, c.doc));
        let ghost before_list = ranked@;
        if !score.less_than(&min_score) {
            let item = Ranked { doc: c.doc, score, hits: c.hits };
            proof {
                assert forall|k: int| 0 <= k < ranked@.len() implies (#[trigger] ranked@[k]).doc
                    != item.doc by {
                    assert(all[src[k]].doc == ranked@[k].doc);
                }
            }
            let at = insert_ranked(&mut ranked, item);
            proof {
                src = src.insert(at as int, at_all);
                let after = ranked@;
                assert forall|k: int| 0 <= k < after.len() implies {
                    &&& found@.len() <= #[trigger] src[k] < all.len()
                    &&& all[src[k]].doc == after[k].doc
                } by {
                    if k < at {
                        assert(after[k] == before_list[k]);
                    } else if k > at {
                        assert(after[k] == before_list[k - 1]);
                    }
                }
                assert forall|k: int| 0 <= k < after.len() implies {
                    &&& passes(v, q, min_score, (#[trigger] after[k]).doc)
                    &&& after[k].score == score_of(v, q, after[k].doc)
                    &&& after[k].score.den > 0
                    &&& after[k].hits@ == hits(v, q, after[k].doc, q.len() as int)
                    &&& v.names.contains_key(after[k].doc)
                } by {
                    if k < at {
                        assert(after[k] == before_list[k]);
                    } else if k > at {
                        assert(after[k] == before_list[k - 1]);
                    }
                }
                assert forall|i: int|
                    found@.len() <= i < all.len() && passes(
                        v,
                        q,
                        min_score,
                        (#[trigger] all[i]).doc,
                    ) implies ranked_ids(after).contains(all[i].doc) by {
                    if i == at_all {
                        assert(ranked_ids(after)[at as int] == all[i].doc);
                    } else {
                        let ids = ranked_ids(before_list);
                        assert(ids.contains(all[i].doc));
                        let k = choose|k: int| 0 <= k < ids.len() && ids[k] == all[i].doc;
                        if k < at {
                            assert(after[k] == before_list[k]);
                            assert(ranked_ids(after)[k] == all[i].doc);
                        } else {
                            assert(after[k + 1] == before_list[k]);
                            assert(ranked_ids(after)[k + 1] == all[i].doc);
                        }
                    }
                }
            }
        }
    }
    proof {
        assert(found@.len() == 0);
    }
    ranked
}

/// Names the terms that stand at the given places of a query.
pub fn terms_at_places(query: &Vec<String>, places: &Vec<usize>) -> (out: Vec<Term>)
    requires
        forall|i: int| 0 <= i < places@.len() ==> (#[trigger] places@[i]) < query@.len(),
    ensures
        views(out@) == terms_at(views(query@), places@),
{
    let mut out: Vec<Term> = Vec::new();
    let mut i: usize = 0;
    while i < places.len()
        invariant
            i <= places@.len(),
            out@.len() == i,
            forall|k: int| 0 <= k < places@.len() ==> (#[trigger] places@[k]) < query@.len(),
            forall|k: int| 0 <= k < i ==> (#[trigger] out@[k])@ == query@[places@[k] as int]@,
        decreases places@.len() - i,
    {
        out.push(query[places[i]].clone());
        i += 1;
    }
    assert(views(out@) =~= terms_at(views(query@), places@));
    out
}

/// Answers a query: the documents that hold at least one of its terms and
/// whose score is not below `min_score`, best first, at most `max_length` of
/// them.
///
/// A term that the query repeats counts once. The score of a document is the
/// number of query terms it holds over the number of terms in the query or
/// the document. Documents of equal score stand in the order of their ids.
pub fn run_search(data: &IndexedData, terms: Vec<Term>, min_score: Score, max_length: usize) -> (out:
    Vec<SearchMatch>)
    requires
        data.wf(),
        terms@.len() + data.terms_to_docs@.len() <= usize::MAX,
    ensures
        exists|ids: Seq<DocumentId>|
            #![auto]
            is_ranking(data@, distinct(views(terms@)), min_score, max_length as nat, ids)
                && is_answer(data@, distinct(views(terms@)), ids, out@),
        out@.len() <= max_length,
        forall|i: int| 0 <= i < out@.len() ==> !(#[trigger] out@[i]).score.below(min_score),
        forall|i: int, j: int|
            0 <= i < j < out@.len() ==> !(#[trigger] out@[i]).score.below(
                (#[trigger] out@[j]).score,
            ),
        forall|i: int|
            0 <= i < out@.len() ==> 0 < (#[trigger] out@[i]).score.num <= out@[i].score.den,
        terms@.len() == 0 ==> out@.len() == 0,
{
    let query = dedup_terms(&terms);
    let ghost v = data@;
    let ghost q = views(query@);
    proof {
        lemma_distinct(views(terms@));
    }
    let found = data.collect_candidates(&query);
    let ghost all = found@;
    let mut ranked = rank_candidates(data, &query, found, min_score);
    let ghost full = ranked@;
    ranked.truncate(max_length);
    let ghost ids = ranked_ids(ranked@);
    proof {
        assert forall|k: int| 0 <= k < ranked@.len() implies ranked@[k] == full[k] by {}
        assert forall|d: DocumentId| #[trigger]
            passes(v, q, min_score, d) && !ids.contains(d) implies ids.len() == max_length
            && forall|i: int| 0 <= i < ids.len() ==> before(v, q, #[trigger] ids[i], d) by {
            let at = choose|i: int| 0 <= i < all.len() && (#[trigger] all[i]).doc == d;
            assert(ranked_ids(full).contains(all[at].doc));
            let k = choose|k: int| 0 <= k < full.len() && ranked_ids(full)[k] == d;
            if k < ranked@.len() {
                assert(ids[k] == d);
            }
            assert forall|i: int| 0 <= i < ids.len() implies before(v, q, #[trigger] ids[i], d) by {
                assert(outranks(full[i].score, full[i].doc, full[k].score, full[k].doc));
            }
        }
        assert forall|i: int, j: int| 0 <= i < j < ids.len() implies before(
            v,
            q,
            #[trigger] ids[i],
            #[trigger] ids[j],
        ) by {
            assert(outranks(full[i].score, full[i].doc, full[j].score, full[j].doc));
        }
        assert(is_ranking(v, q, min_score, max_length as nat, ids));
    }
    let mut out: Vec<SearchMatch> = Vec::new();
    let mut i: usize = 0;
    while i < ranked.len()
        invariant
            i <= ranked@.len(),
            out@.len() == i,
            data.wf(),
            v == data@,
            q == views(query@),
            q.no_duplicates(),
            q.len() <= usize::MAX,
            ids == ranked_ids(ranked@),
            forall|k: int|
                0 <= k < ranked@.len() ==> {
                    &&& passes(v, q, min_score, (#[trigger] ranked@[k]).doc)
                    &&& ranked@[k].score == score_of(v, q, ranked@[k].doc)
                    &&& ranked@[k].hits@ == hits(v, q, ranked@[k].doc, q.len() as int)
                    &&& v.names.contains_key(ranked@[k].doc)
                },
            forall|k: int|
                0 <= k < i ==> {
                    &&& (#[trigger] out@[k]).md5@ == v.names[ids[k]]
                    &&& out@[k].score == score_of(v, q, ids[k])
                    &&& views(out@[k].matched_terms@) == matched_terms(v, q, ids[k])
                },
        decreases ranked@.len() - i,
    {
        let entry = &ranked[i];
        proof {
            lemma_hits_bounds(v, q, entry.doc, q.len() as int);
        }
        let name = data.docs_by_id.get(&entry.doc).unwrap().clone();
        let matched = terms_at_places(&query, &entry.hits);
        out.push(SearchMatch { md5: name, score: entry.score, matched_terms: matched });
        i += 1;
    }
    proof {
        assert(is_answer(v, q, ids, out@));
        assert forall|k: int| 0 <= k < out@.len() implies 0 < (#[trigger] out@[k]).score.num
            <= out@[k].score.den && !out@[k].score.below(min_score) by {
            assert(passes(v, q, min_score, ranked@[k].doc));
            lemma_score_bounds(v, q, ids[k]);
            lemma_length_bound(data, ids[k]);
        }
        assert forall|a: int, b: int| 0 <= a < b < out@.len() implies !(#[trigger] out@[a])
            .score.below((#[trigger] out@[b]).score) by {
            assert(before(v, q, ids[a], ids[b]));
        }
        if terms@.len() == 0 {
            if all.len() > 0 {
                assert(all[0].hits@.len() > 0);
            }
            if out@.len() > 0 {
                assert(passes(v, q, min_score, ranked@[0].doc));
            }
        }
    }
    out
}

/// Answers a request. Where it names no threshold, every score is admitted;
/// where it names no limit, every match is returned.
pub fn search(data: &IndexedData, request: SearchData) -> (result: SearchResult)
    requires
        data.wf(),
        request.terms@.len() + data.terms_to_docs@.len() <= usize::MAX,
    ensures
        exists|ids: Seq<DocumentId>|
            #![auto]
            is_ranking(
                data@,
                distinct(views(request.terms@)),
                effective_min_score(request.min_score),
                effective_max_length(request.max_length) as nat,
                ids,
            ) && is_answer(data@, distinct(views(request.terms@)), ids, result.matches@),
{
    let min_score = match request.min_score {
        Some(s) => s,
        None => Score::zero(),
    };
    let max_length = match request.max_length {
        Some(n) => n,
        None => usize::MAX,
    };
    let ghost asked = request.terms@;
    let matches = run_search(data, request.terms, min_score, max_length);
    let result = SearchResult { matches };
    proof {
        let query = distinct(views(asked));
        let ids = choose|ids: Seq<DocumentId>|
            #![auto]
            is_ranking(data@, query, min_score, max_length as nat, ids) && is_answer(
                data@,
                query,
                ids,
                result.matches@,
            );
        assert(is_ranking(
            data@,
            distinct(views(request.terms@)),
            effective_min_score(request.min_score),
            effective_max_length(request.max_length) as nat,
            ids,
        ) && is_answer(data@, distinct(views(request.terms@)), ids, result.matches@));
    }
    result
}

/// The threshold of a request: zero where it names none.
pub open spec fn effective_min_score(min_score: Option<Score>) -> Score {
    match min_score {
        Some(s) => s,
        None => Score { num: 0, den: 1 },
    }
}

/// The limit of a request: the largest number where it names none.
pub open spec fn effective_max_length(max_length: Option<usize>) -> usize {
    match max_length {
        Some(n) => n,
        None => usize::MAX,
    }
}

} // verus!
