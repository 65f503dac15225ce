//! Joining two indexes of different documents into one.

use vstd::prelude::*;

use crate::builder::{lemma_length_total_push, BuildError};
use crate::index::{
    distinct_terms, find_posting, has_term, lemma_posting_total_update, lemma_postings_map_at,
    lemma_postings_map_push, lemma_postings_map_update, length_total, posting_total, postings_map,
    term_index, IndexView, IndexedData, Posting,
};
use crate::types::DocumentId;

verus! {

/// The documents under `term` in a map of posting lists; none where the map
/// lacks the term.
pub open spec fn list_of(m: Map<Seq<char>, Seq<DocumentId>>, term: Seq<char>) -> Seq<DocumentId> {
    if m.contains_key(term) {
        m[term]
    } else {
        Seq::empty()
    }
}

/// The posting lists of two indexes joined: under each term the documents
/// of the first, then those of the second.
pub open spec fn joined_postings(
    a: Map<Seq<char>, Seq<DocumentId>>,
    b: Map<Seq<char>, Seq<DocumentId>>,
) -> Map<Seq<char>, Seq<DocumentId>> {
    Map::new(
        |t: Seq<char>| a.contains_key(t) || b.contains_key(t),
        |t: Seq<char>| list_of(a, t) + list_of(b, t),
    )
}

impl IndexView {
    /// The two indexes share no document.
    pub open spec fn disjoint(self, other: IndexView) -> bool {
        forall|d: DocumentId| !(self.names.contains_key(d) && other.names.contains_key(d))
    }

    /// The index of the documents of both. The weights are dropped, since
    /// they depend on all documents.
    pub open spec fn merged(self, other: IndexView) -> IndexView {
        IndexView {
            postings: joined_postings(self.postings, other.postings),
            names: self.names.union_prefer_right(other.names),
            lengths: self.lengths.union_prefer_right(other.lengths),
            idf: Map::empty(),
            num_docs: self.num_docs + other.num_docs,
        }
    }
}

/// A document of a consistent index that has no name stands in no list.
pub proof fn lemma_list_lacks_unknown(v: IndexView, t: Seq<char>, d: DocumentId)
    requires
        v.wf(),
        !v.names.contains_key(d),
    ensures
        !list_of(v.postings, t).contains(d),
{
    let list = list_of(v.postings, t);
    if list.contains(d) {
        let k = choose|k: int| 0 <= k < list.len() && list[k] == d;
        assert(v.names.contains_key(v.postings[t][k]));
    }
}

/// A document stands in a joined list exactly when it stands in one of the
/// two lists.
pub proof fn lemma_concat_contains(x: Seq<DocumentId>, y: Seq<DocumentId>, d: DocumentId)
    ensures
        (x + y).contains(d) <==> x.contains(d) || y.contains(d),
{
    let z = x + y;
    if z.contains(d) {
        let k = choose|k: int| 0 <= k < z.len() && z[k] == d;
        if k < x.len() {
            assert(x[k] == d);
        } else {
            assert(y[k - x.len()] == d);
        }
    }
    if x.contains(d) {
        let k = choose|k: int| 0 <= k < x.len() && x[k] == d;
        assert(z[k] == d);
    }
    if y.contains(d) {
        let k = choose|k: int| 0 <= k < y.len() && y[k] == d;
        assert(z[k + x.len()] == d);
    }
}

/// Joining two consistent indexes that share no document gives a consistent
/// index.
pub proof fn lemma_merged_wf(a: IndexView, b: IndexView)
    requires
        a.wf(),
        b.wf(),
        a.disjoint(b),
    ensures
        a.merged(b).wf(),
{
    let m = a.merged(b);
    assert(m.postings.dom() =~= a.postings.dom().union(b.postings.dom()));
    assert(m.names.dom() =~= a.names.dom().union(b.names.dom()));
    assert(m.lengths.dom() =~= a.lengths.dom().union(b.lengths.dom()));
    assert(a.names.dom().disjoint(b.names.dom()));
    vstd::set_lib::lemma_set_disjoint_lens(a.names.dom(), b.names.dom());
    assert forall|t: Seq<char>| #[trigger] m.postings.contains_key(t) implies m.postings[t]
        .no_duplicates() by {
        let x = list_of(a.postings, t);
        let y = list_of(b.postings, t);
        let z = x + y;
        assert forall|i: int, j: int| 0 <= i < z.len() && 0 <= j < z.len() && i != j implies z[i]
            != z[j] by {
            if i < x.len() && j >= x.len() {
                assert(a.names.contains_key(a.postings[t][i]));
                assert(b.names.contains_key(b.postings[t][j - x.len()]));
            } else if j < x.len() && i >= x.len() {
                assert(a.names.contains_key(a.postings[t][j]));
                assert(b.names.contains_key(b.postings[t][i - x.len()]));
            }
        }
    }
    assert forall|t: Seq<char>, k: int|
        m.postings.contains_key(t) && 0 <= k < m.postings[t].len() implies m.names.contains_key(
        #[trigger] m.postings[t][k],
    ) by {
        let x = list_of(a.postings, t);
        if k < x.len() {
            assert(a.names.contains_key(a.postings[t][k]));
        } else {
            assert(b.names.contains_key(b.postings[t][k - x.len()]));
        }
    }
    assert forall|d: DocumentId| #[trigger] m.names.contains_key(d) implies m.lengths[d]
        == m.doc_terms(d).len() by {
        if b.names.contains_key(d) {
            assert(b.lengths.dom().contains(d));
            assert forall|t: Seq<char>| m.doc_terms(d).contains(t) <==> b.doc_terms(d).contains(
                t,
            ) by {
                lemma_list_lacks_unknown(a, t, d);
                lemma_concat_contains(list_of(a.postings, t), list_of(b.postings, t), d);
            }
            assert(m.doc_terms(d) =~= b.doc_terms(d));
        } else {
            assert(a.names.contains_key(d));
            assert(!b.lengths.dom().contains(d));
            assert forall|t: Seq<char>| m.doc_terms(d).contains(t) <==> a.doc_terms(d).contains(
                t,
            ) by {
                lemma_list_lacks_unknown(b, t, d);
                lemma_concat_contains(list_of(a.postings, t), list_of(b.postings, t), d);
            }
            assert(m.doc_terms(d) =~= a.doc_terms(d));
        }
    }
}

/// Adding a document to the second of two indexes and joining them is the
/// same as joining them and adding the document: an index built in parts
/// that are joined in the order of the lines is the index built line by line.
pub proof fn lemma_merge_then_add(
    a: IndexView,
    b: IndexView,
    id: DocumentId,
    name: Seq<char>,
    terms: Set<Seq<char>>,
)
    ensures
        a.merged(b.with_document(id, name, terms)) == a.merged(b).with_document(id, name, terms),
{
    let left = a.merged(b.with_document(id, name, terms));
    let right = a.merged(b).with_document(id, name, terms);
    assert forall|t: Seq<char>| left.postings.contains_key(t) implies left.postings[t]
        == right.postings[t] by {
        assert(left.postings[t] =~= right.postings[t]);
    }
    assert(left.postings =~= right.postings);
    assert(left.names =~= right.names);
    assert(left.lengths =~= right.lengths);
}

/// Joining is associative: three indexes give the same index however they
/// are paired.
pub proof fn lemma_merged_associative(a: IndexView, b: IndexView, c: IndexView)
    ensures
        a.merged(b).merged(c) == a.merged(b.merged(c)),
{
    let left = a.merged(b).merged(c);
    let right = a.merged(b.merged(c));
    assert forall|t: Seq<char>| left.postings.contains_key(t) implies left.postings[t]
        == right.postings[t] by {
        assert(left.postings[t] =~= right.postings[t]);
    }
    assert(left.postings =~= right.postings);
    assert(left.names =~= right.names);
    assert(left.lengths =~= right.lengths);
}

/// Joining with the index of no documents changes the posting lists, the
/// names and the lengths of no index.
pub proof fn lemma_merged_empty(a: IndexView)
    ensures
        a.merged(IndexView::empty()) == (IndexView { idf: Map::empty(), ..a }),
        IndexView::empty().merged(a) == (IndexView { idf: Map::empty(), ..a }),
{
    let e = IndexView::empty();
    let left = a.merged(e);
    let right = e.merged(a);
    assert forall|t: Seq<char>| a.postings.contains_key(t) implies left.postings[t]
        == a.postings[t] && right.postings[t] == a.postings[t] by {
        assert(left.postings[t] =~= a.postings[t]);
        assert(right.postings[t] =~= a.postings[t]);
    }
    assert(left.postings =~= a.postings);
    assert(right.postings =~= a.postings);
    assert(left.names =~= a.names);
    assert(right.names =~= a.names);
    assert(left.lengths =~= a.lengths);
    assert(right.lengths =~= a.lengths);
}

/// The posting lists of the postings from place `from` on.
pub open spec fn tail_postings(terms: Seq<Posting>, from: int) -> Map<Seq<char>, Seq<DocumentId>> {
    Map::new(
        |t: Seq<char>| has_term(terms, t) && term_index(terms, t) >= from,
        |t: Seq<char>| terms[term_index(terms, t)].docs@,
    )
}

/// Going one place back adds that place's posting to the lists of the tail.
pub proof fn lemma_tail_postings(terms: Seq<Posting>, from: int)
    requires
        distinct_terms(terms),
        0 <= from <= terms.len(),
    ensures
        tail_postings(terms, 0) == postings_map(terms),
        tail_postings(terms, terms.len() as int) == Map::<Seq<char>, Seq<DocumentId>>::empty(),
        from > 0 ==> tail_postings(terms, from - 1) == tail_postings(terms, from).insert(
            terms[from - 1].term@,
            terms[from - 1].docs@,
        ),
        from > 0 ==> !tail_postings(terms, from).contains_key(terms[from - 1].term@),
{
    assert(tail_postings(terms, 0) =~= postings_map(terms));
    assert(tail_postings(terms, terms.len() as int) =~= Map::<
        Seq<char>,
        Seq<DocumentId>,
    >::empty());
    if from > 0 {
        lemma_postings_map_at(terms, from - 1);
        let left = tail_postings(terms, from - 1);
        let right = tail_postings(terms, from).insert(
            terms[from - 1].term@,
            terms[from - 1].docs@,
        );
        assert forall|t: Seq<char>| left.contains_key(t) <==> right.contains_key(t) by {
            if has_term(terms, t) {
                let i = term_index(terms, t);
                lemma_postings_map_at(terms, i);
            }
        }
        assert(left =~= right);
    }
}

/// Moves the postings of `other` into `terms`: a term that `terms` has gets
/// the documents of `other` behind its own, a new term comes with its list.
pub fn join_postings(terms: &mut Vec<Posting>, other: Vec<Posting>)
    requires
        distinct_terms(old(terms)@),
        distinct_terms(other@),
    ensures
        distinct_terms(final(terms)@),
        postings_map(final(terms)@) == joined_postings(
            postings_map(old(terms)@),
            postings_map(other@),
        ),
        posting_total(final(terms)@, final(terms)@.len() as int) == posting_total(
            old(terms)@,
            old(terms)@.len() as int,
        ) + posting_total(other@, other@.len() as int),
{
    let ghost a = postings_map(terms@);
    let ghost all = other@;
    let ghost a_total = posting_total(terms@, terms@.len() as int);
    let mut other = other;
    proof {
        lemma_tail_postings(all, all.len() as int);
        assert(postings_map(terms@) =~= joined_postings(a, tail_postings(all, all.len() as int)));
    }
    while other.len() > 0
        invariant
            distinct_terms(all),
            distinct_terms(terms@),
            other@.len() <= all.len(),
            other@ == all.take(other@.len() as int),
            postings_map(terms@) == joined_postings(a, tail_postings(all, other@.len() as int)),
            posting_total(terms@, terms@.len() as int) + posting_total(all, other@.len() as int)
                == a_total + posting_total(all, all.len() as int),
        decreases other@.len(),
    {
        let ghost r = other@.len() as int;
        let ghost before = terms@;
        let mut p = other.pop().unwrap();
        let ghost t = p.term@;
        let ghost docs = p.docs@;
        proof {
            assert(p == all[r - 1]);
            assert(other@ =~= all.take(r - 1));
            lemma_tail_postings(all, r);
        }
        match find_posting(terms, &p.term) {
            Some(j) => {
                proof {
                    lemma_postings_map_at(before, j as int);
                }
                terms[j].docs.append(&mut p.docs);
                proof {
                    let after = terms@;
                    lemma_postings_map_update(before, after, j as int);
                    lemma_posting_total_update(before, after, j as int, before.len() as int);
                    assert(postings_map(after) =~= joined_postings(
                        a,
                        tail_postings(all, r - 1),
                    ));
                }
            },
            None => {
                proof {
                    lemma_postings_map_push(before, p);
                    assert(!postings_map(before).contains_key(t));
                    assert(Seq::<DocumentId>::empty() + docs =~= docs);
                    assert(postings_map(before.push(p)) =~= joined_postings(
                        a,
                        tail_postings(all, r - 1),
                    ));
                }
                terms.push(p);
            },
        }
    }
    proof {
        lemma_tail_postings(all, 0);
    }
}

/// Of the listed documents, `id` is the first that the index holds.
pub open spec fn is_first_shared(v: IndexView, ids: Seq<DocumentId>, id: DocumentId) -> bool {
    exists|i: int|
        {
            &&& 0 <= i < ids.len()
            &&& #[trigger] ids[i] == id
            &&& v.names.contains_key(id)
            &&& forall|k: int| 0 <= k < i ==> !v.names.contains_key(ids[k])
        }
}

/// The first `n` of the listed documents, as a set.
pub open spec fn moved_ids(ids: Seq<DocumentId>, n: int) -> Set<DocumentId> {
    ids.take(n).to_set()
}

impl IndexedData {
    /// Looks for a document that both indexes hold, in the order in which
    /// `other` lists its documents.
    pub fn first_shared(&self, other: &IndexedData) -> (found: Option<DocumentId>)
        requires
            self.wf(),
            other.wf(),
        ensures
            match found {
                Some(id) => {
                    &&& self@.names.contains_key(id)
                    &&& other@.names.contains_key(id)
                    &&& is_first_shared(self@, other.doc_ids@, id)
                },
                None => self@.disjoint(other@),
            },
    {
        let mut i: usize = 0;
        while i < other.doc_ids.len()
            invariant
                i <= other.doc_ids@.len(),
                other.wf(),
                forall|k: int| 0 <= k < i ==> !self@.names.contains_key(other.doc_ids@[k]),
            decreases other.doc_ids@.len() - i,
        {
            let id = other.doc_ids[i];
            if self.docs_by_id.contains_key(&id) {
                proof {
                    assert(other.doc_ids@.to_set().contains(id));
                }
                assert(other.doc_ids@[i as int] == id);
                return Some(id);
            }
            i += 1;
        }
        proof {
            assert forall|d: DocumentId|
                !(self@.names.contains_key(d) && other@.names.contains_key(d)) by {
                if other@.names.contains_key(d) {
                    assert(other.doc_ids@.to_set().contains(d));
                    let k = choose|k: int|
                        0 <= k < other.doc_ids@.len() && other.doc_ids@[k] == d;
                    assert(!self@.names.contains_key(other.doc_ids@[k]));
                }
            }
        }
        None
    }

    /// Takes the documents of `chunk` into this index.
    ///
    /// Under each term the documents of `chunk` come behind those that the
    /// index had. Where the two share a document the index is left as it was
    /// and the error names the first such document of `chunk`. The weights
    /// are cleared.
    pub fn merge(&mut self, chunk: IndexedData) -> (r: Result<(), BuildError>)
        requires
            old(self).wf(),
            chunk.wf(),
        ensures
            final(self).wf(),
            match r {
                Ok(_) => old(self)@.disjoint(chunk@) && final(self)@ == old(self)@.merged(chunk@),
                Err(e) => {
                    &&& *final(self) == *old(self)
                    &&& !old(self)@.disjoint(chunk@)
                    &&& exists|id: DocumentId|
                        #![auto]
                        e == (BuildError::DuplicateDocument { id }) && is_first_shared(
                            old(self)@,
                            chunk.doc_ids@,
                            id,
                        )
                },
            },
    {
        match self.first_shared(&chunk) {
            Some(id) => {
                assert(is_first_shared(self@, chunk.doc_ids@, id));
                return Err(BuildError::DuplicateDocument { id });
            },
            None => {},
        }
        let ghost a = self@;
        let ghost b = chunk@;
        let ghost a_ids = self.doc_ids@;
        let ghost a_dom = self.docs_by_id@.dom();
        let ghost a_sum = self.length_sum();
        proof {
            assert(a_dom =~= a.names.dom());
            assert(self.doc_lengths@.dom() =~= a.lengths.dom());
            assert(chunk.docs_by_id@.dom() =~= b.names.dom());
            assert(chunk.doc_lengths@.dom() =~= b.lengths.dom());
        }
        let IndexedData {
            terms_to_docs: chunk_terms,
            doc_ids: ids,
            docs_by_id: names,
            doc_lengths: lengths,
            idf: _,
            num_docs: _,
        } = chunk;
        join_postings(&mut self.terms_to_docs, chunk_terms);
        let ghost terms_after = self.terms_to_docs@;
        let mut k: usize = 0;
        proof {
            assert(ids@.take(0) =~= Seq::<DocumentId>::empty());
            assert(self.doc_ids@ =~= a_ids + ids@.take(0));
            assert(a_dom.union(moved_ids(ids@, 0)) =~= a_dom);
        }
        while k < ids.len()
            invariant
                k <= ids@.len(),
                ids@.no_duplicates(),
                ids@.to_set() == names@.dom(),
                names@.dom() == lengths@.dom(),
                a_ids.to_set() == a_dom,
                a_dom.disjoint(names@.dom()),
                self.terms_to_docs@ == terms_after,
                self.doc_ids@ == a_ids + ids@.take(k as int),
                self.docs_by_id@.dom() == a_dom.union(moved_ids(ids@, k as int)),
                self.doc_lengths@.dom() == a_dom.union(moved_ids(ids@, k as int)),
                forall|d: DocumentId| #[trigger]
                    a_dom.contains(d) ==> self.docs_by_id@[d] == old(self).docs_by_id@[d]
                        && self.doc_lengths@[d] == old(self).doc_lengths@[d],
                forall|d: DocumentId| #[trigger]
                    moved_ids(ids@, k as int).contains(d) ==> self.docs_by_id@[d] == names@[d]
                        && self.doc_lengths@[d] == lengths@[d],
                length_total(self.doc_ids@, self.doc_lengths@, self.doc_ids@.len() as int) == a_sum
                    + length_total(ids@, lengths@, k as int),
            decreases ids@.len() - k,
        {
            let id = ids[k];
            proof {
                assert(ids@.to_set().contains(id));
                let head = ids@.take(k as int);
                let more = ids@.take(k + 1);
                assert(more =~= head.push(id));
                assert(!head.contains(id)) by {
                    if head.contains(id) {
                        let i = choose|i: int| 0 <= i < head.len() && head[i] == id;
                        assert(ids@[i] == id);
                    }
                }
                assert forall|d: DocumentId| more.contains(d) <==> head.contains(d) || d == id by {
                    if more.contains(d) {
                        let i = choose|i: int| 0 <= i < more.len() && more[i] == d;
                        if i < head.len() {
                            assert(head[i] == d);
                        }
                    }
                    if head.contains(d) {
                        let i = choose|i: int| 0 <= i < head.len() && head[i] == d;
                        assert(more[i] == d);
                    }
                    assert(more[k as int] == id);
                }
                assert(moved_ids(ids@, k + 1) =~= moved_ids(ids@, k as int).insert(id));
                assert(!a_dom.contains(id));
                assert(!self.doc_ids@.contains(id)) by {
                    lemma_concat_contains(a_ids, head, id);
                    if a_ids.contains(id) {
                        assert(a_ids.to_set().contains(id));
                    }
                }
                lemma_length_total_push(
                    self.doc_ids@,
                    self.doc_lengths@,
                    id,
                    lengths@[id],
                    self.doc_ids@.len() as int,
                );
                assert(self.doc_ids@.push(id) =~= a_ids + more);
                assert(a_dom.union(moved_ids(ids@, k as int)).insert(id) =~= a_dom.union(
                    moved_ids(ids@, k + 1),
                ));
            }
            let name = names.get(&id).unwrap().clone();
            let length = *lengths.get(&id).unwrap();
            self.doc_ids.push(id);
            self.docs_by_id.insert(id, name);
            self.doc_lengths.insert(id, length);
            k += 1;
        }
        self.idf = Vec::new();
        self.num_docs = self.doc_ids.len();
        proof {
            assert(ids@.take(ids@.len() as int) =~= ids@);
            assert(moved_ids(ids@, ids@.len() as int) == names@.dom());
            lemma_merged_wf(a, b);
            let m = a.merged(b);
            assert(self@.names.dom() =~= m.names.dom());
            assert(self@.lengths.dom() =~= m.lengths.dom());
            assert forall|d: DocumentId| self@.names.contains_key(d) implies self@.names[d]
                == m.names[d] && self@.lengths[d] == m.lengths[d] by {
                if names@.dom().contains(d) {
                    assert(moved_ids(ids@, ids@.len() as int).contains(d));
                } else {
                    assert(a_dom.contains(d));
                }
            }
            assert(self@.names =~= m.names);
            assert(self@.lengths =~= m.lengths);
            assert(self@.idf =~= m.idf);
            assert(self.doc_ids@.no_duplicates()) by {
                let z = self.doc_ids@;
                assert forall|i: int, j: int|
                    0 <= i < z.len() && 0 <= j < z.len() && i != j implies z[i] != z[j] by {
                    if i < a_ids.len() && j >= a_ids.len() {
                        assert(a_ids.to_set().contains(a_ids[i]));
                        assert(ids@.to_set().contains(ids@[j - a_ids.len()]));
                    } else if j < a_ids.len() && i >= a_ids.len() {
                        assert(a_ids.to_set().contains(a_ids[j]));
                        assert(ids@.to_set().contains(ids@[i - a_ids.len()]));
                    }
                }
            }
            assert(self.doc_ids@.to_set() =~= self.docs_by_id@.dom()) by {
                assert forall|d: DocumentId|
                    self.doc_ids@.to_set().contains(d) <==> self.docs_by_id@.dom().contains(d) by {
                    lemma_concat_contains(a_ids, ids@, d);
                    if a_ids.contains(d) {
                        assert(a_ids.to_set().contains(d));
                    }
                    if ids@.contains(d) {
                        assert(ids@.to_set().contains(d));
                    }
                }
            }
            self.doc_ids@.unique_seq_to_set();
            a_ids.unique_seq_to_set();
            ids@.unique_seq_to_set();
            assert(self@.names.dom() =~= self.docs_by_id@.dom());
            assert(self@ == m);
        }
        Ok(())
    }
}

} // verus!
