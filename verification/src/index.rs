//! The inverted index and its mathematical model.

use std::collections::HashMap;
use vstd::prelude::*;

use crate::types::{DocumentId, DocumentName, Term};

verus! {

/// The two counts from which a term's inverse document frequency is taken:
/// the weight is `ln((docs_without + 0.5) / (docs_with + 0.5))`.
#[derive(Debug, Clone, Copy, PartialEq, Eq, Structural)]
pub struct Idf {
    /// documents that do not hold the term
    pub docs_without: usize,
    /// documents that hold the term
    pub docs_with: usize,
}

impl Idf {
    /// The weight is below zero: the term stands in most documents.
    pub open spec fn is_negative(self) -> bool {
        self.docs_without < self.docs_with
    }

    /// The weight is above zero: the term stands in the smaller part.
    pub open spec fn is_positive(self) -> bool {
        self.docs_without > self.docs_with
    }
}

/// The counts for a term that `docs_with` of `num_docs` documents hold.
pub open spec fn idf_of(num_docs: nat, docs_with: nat) -> Idf {
    Idf { docs_without: (num_docs - docs_with) as usize, docs_with: docs_with as usize }
}

/// The weight of a term is below zero exactly when more than half of the
/// documents hold it, and above zero exactly when fewer than half do. A term
/// that every document holds has a weight below zero.
pub proof fn lemma_idf_sign(num_docs: nat, docs_with: nat)
    requires
        docs_with <= num_docs <= usize::MAX,
    ensures
        idf_of(num_docs, docs_with).is_negative() <==> num_docs < 2 * docs_with,
        idf_of(num_docs, docs_with).is_positive() <==> 2 * docs_with < num_docs,
        docs_with == num_docs && num_docs >= 1 ==> idf_of(num_docs, docs_with).is_negative(),
        idf_of(num_docs, docs_with).docs_with + idf_of(num_docs, docs_with).docs_without
            == num_docs,
{
}

/// A term and the documents that hold it.
#[derive(Debug)]
pub struct Posting {
    pub term: Term,
    pub docs: Vec<DocumentId>,
}

/// The inverted index.
///
/// The terms stand in a list in which none occurs twice. The documents are
/// listed in `doc_ids`, and the two maps hold a name and a length for each.
#[derive(Debug)]
pub struct IndexedData {
    pub terms_to_docs: Vec<Posting>,
    pub doc_ids: Vec<DocumentId>,
    pub docs_by_id: HashMap<DocumentId, DocumentName>,
    pub doc_lengths: HashMap<DocumentId, usize>,
    /// one entry for each posting, in the same order; empty until computed
    pub idf: Vec<Idf>,
    pub num_docs: usize,
}

/// What an index is, apart from how it is laid out.
pub struct IndexView {
    /// the documents that hold each term, in the order in which they came
    pub postings: Map<Seq<char>, Seq<DocumentId>>,
    pub names: Map<DocumentId, Seq<char>>,
    /// the number of distinct terms of each document
    pub lengths: Map<DocumentId, nat>,
    pub idf: Map<Seq<char>, Idf>,
    pub num_docs: nat,
}

/// The posting lists after document `id` was added under each term of `terms`.
pub open spec fn add_postings(
    postings: Map<Seq<char>, Seq<DocumentId>>,
    id: DocumentId,
    terms: Set<Seq<char>>,
) -> Map<Seq<char>, Seq<DocumentId>> {
    Map::new(
        |t: Seq<char>| postings.contains_key(t) || terms.contains(t),
        |t: Seq<char>|
            if terms.contains(t) {
                if postings.contains_key(t) {
                    postings[t].push(id)
                } else {
                    seq![id]
                }
            } else {
                postings[t]
            },
    )
}

impl IndexView {
    /// The index of no documents.
    pub open spec fn empty() -> IndexView {
        IndexView {
            postings: Map::empty(),
            names: Map::empty(),
            lengths: Map::empty(),
            idf: Map::empty(),
            num_docs: 0,
        }
    }

    /// The index after a new document with the given name and set of terms
    /// was added: the document stands once at the end of the posting list of
    /// each of its terms, and its length is the number of those terms. The
    /// weights are dropped, since they depend on all documents.
    pub open spec fn with_document(
        self,
        id: DocumentId,
        name: Seq<char>,
        terms: Set<Seq<char>>,
    ) -> IndexView {
        IndexView {
            postings: add_postings(self.postings, id, terms),
            names: self.names.insert(id, name),
            lengths: self.lengths.insert(id, terms.len()),
            idf: Map::empty(),
            num_docs: self.num_docs + 1,
        }
    }

    /// The weights of all terms of the index.
    pub open spec fn weights(self) -> Map<Seq<char>, Idf> {
        Map::new(
            |t: Seq<char>| self.postings.contains_key(t),
            |t: Seq<char>| idf_of(self.num_docs, self.postings[t].len()),
        )
    }

    /// The index with the weights of all its terms.
    pub open spec fn with_weights(self) -> IndexView {
        IndexView { idf: self.weights(), ..self }
    }

    /// The documents that hold `term`; none where the index lacks it.
    pub open spec fn postings_of(self, term: Seq<char>) -> Seq<DocumentId> {
        if self.postings.contains_key(term) {
            self.postings[term]
        } else {
            Seq::empty()
        }
    }

    /// Document `doc` holds `term`.
    pub open spec fn holds(self, doc: DocumentId, term: Seq<char>) -> bool {
        self.postings.contains_key(term) && self.postings[term].contains(doc)
    }

    /// The terms of a document.
    pub open spec fn doc_terms(self, doc: DocumentId) -> Set<Seq<char>> {
        self.postings.dom().filter(|t: Seq<char>| self.postings[t].contains(doc))
    }

    /// The index is consistent: no posting list names a document twice or
    /// names an unknown one, every document has a name and a length, and the
    /// length is the number of the document's terms.
    pub open spec fn wf(self) -> bool {
        &&& self.postings.dom().finite()
        &&& self.names.dom().finite()
        &&& self.names.dom() == self.lengths.dom()
        &&& self.num_docs == self.names.dom().len()
        &&& forall|t: Seq<char>| #[trigger]
            self.postings.contains_key(t) ==> self.postings[t].no_duplicates()
        &&& forall|t: Seq<char>, k: int|
            self.postings.contains_key(t) && 0 <= k < self.postings[t].len()
                ==> self.names.contains_key(#[trigger] self.postings[t][k])
        &&& forall|d: DocumentId| #[trigger]
            self.names.contains_key(d) ==> self.lengths[d] == self.doc_terms(d).len()
    }
}

/// Some posting of `terms` is for `term`.
pub open spec fn has_term(terms: Seq<Posting>, term: Seq<char>) -> bool {
    exists|i: int| 0 <= i < terms.len() && #[trigger] terms[i].term@ == term
}

/// The place of the posting for `term`.
pub open spec fn term_index(terms: Seq<Posting>, term: Seq<char>) -> int {
    choose|i: int| 0 <= i < terms.len() && #[trigger] terms[i].term@ == term
}

/// No term has two postings.
pub open spec fn distinct_terms(terms: Seq<Posting>) -> bool {
    forall|i: int, j: int|
        0 <= i < terms.len() && 0 <= j < terms.len() && i != j ==> #[trigger] terms[i].term@
            != #[trigger] terms[j].term@
}

/// The map from each term to its documents.
pub open spec fn postings_map(terms: Seq<Posting>) -> Map<Seq<char>, Seq<DocumentId>> {
    Map::new(
        |t: Seq<char>| has_term(terms, t),
        |t: Seq<char>| terms[term_index(terms, t)].docs@,
    )
}

/// The number of term-document pairs in the first `n` postings.
pub open spec fn posting_total(terms: Seq<Posting>, n: int) -> nat
    decreases n,
{
    if n <= 0 {
        0
    } else {
        posting_total(terms, n - 1) + terms[n - 1].docs@.len()
    }
}

/// The sum of the lengths of the first `n` listed documents.
pub open spec fn length_total(ids: Seq<DocumentId>, lengths: Map<DocumentId, usize>, n: int) -> nat
    decreases n,
{
    if n <= 0 {
        0
    } else {
        length_total(ids, lengths, n - 1) + lengths[ids[n - 1]] as nat
    }
}

impl View for IndexedData {
    type V = IndexView;

    open spec fn view(&self) -> IndexView {
        IndexView {
            postings: postings_map(self.terms_to_docs@),
            names: Map::new(
                |d: DocumentId| self.docs_by_id@.contains_key(d),
                |d: DocumentId| self.docs_by_id@[d]@,
            ),
            lengths: Map::new(
                |d: DocumentId| self.doc_lengths@.contains_key(d),
                |d: DocumentId| self.doc_lengths@[d] as nat,
            ),
            idf: Map::new(
                |t: Seq<char>|
                    self.idf@.len() == self.terms_to_docs@.len() && has_term(
                        self.terms_to_docs@,
                        t,
                    ),
                |t: Seq<char>| self.idf@[term_index(self.terms_to_docs@, t)],
            ),
            num_docs: self.num_docs as nat,
        }
    }
}

impl IndexedData {
    /// The sum of the lengths of all posting lists.
    pub open spec fn posting_count(&self) -> nat {
        posting_total(self.terms_to_docs@, self.terms_to_docs@.len() as int)
    }

    /// The sum of the lengths of all documents.
    pub open spec fn length_sum(&self) -> nat {
        length_total(self.doc_ids@, self.doc_lengths@, self.doc_ids@.len() as int)
    }

    /// The layout is sound and the index it stands for is consistent.
    pub open spec fn wf(&self) -> bool {
        &&& distinct_terms(self.terms_to_docs@)
        &&& self.doc_ids@.no_duplicates()
        &&& self.doc_ids@.to_set() == self.docs_by_id@.dom()
        &&& self.idf@.len() == 0 || self.idf@.len() == self.terms_to_docs@.len()
        &&& self@.wf()
        &&& self.posting_count() == self.length_sum()
    }
}

impl IndexedData {
    /// An index of no documents.
    pub fn new() -> (index: IndexedData)
        ensures
            index.wf(),
            index@ == IndexView::empty(),
    {
        let index = IndexedData {
            terms_to_docs: Vec::new(),
            doc_ids: Vec::new(),
            docs_by_id: HashMap::new(),
            doc_lengths: HashMap::new(),
            idf: Vec::new(),
            num_docs: 0,
        };
        proof {
            let v = index@;
            assert(v.postings =~= Map::empty());
            assert(v.names =~= Map::empty());
            assert(v.lengths =~= Map::empty());
            assert(v.idf =~= Map::empty());
            assert(index.doc_ids@.to_set() =~= index.docs_by_id@.dom());
            assert(v.names.dom() =~= v.lengths.dom());
            assert(v.names.dom() =~= Set::empty());
        }
        index
    }

    /// Finds the first posting of a term.
    pub fn find_term(&self, term: &String) -> (found: Option<usize>)
        ensures
            match found {
                Some(i) => {
                    &&& i < self.terms_to_docs@.len()
                    &&& self.terms_to_docs@[i as int].term@ == term@
                    &&& forall|k: int| 0 <= k < i ==> self.terms_to_docs@[k].term@ != term@
                },
                None => !has_term(self.terms_to_docs@, term@),
            },
    {
        find_posting(&self.terms_to_docs, term)
    }
}

/// Finds the first posting of a term in a list of postings.
pub fn find_posting(terms: &Vec<Posting>, term: &String) -> (found: Option<usize>)
    ensures
        match found {
            Some(i) => {
                &&& i < terms@.len()
                &&& terms@[i as int].term@ == term@
                &&& forall|k: int| 0 <= k < i ==> terms@[k].term@ != term@
            },
            None => !has_term(terms@, term@),
        },
{
    let mut i: usize = 0;
    while i < terms.len()
        invariant
            i <= terms@.len(),
            forall|k: int| 0 <= k < i ==> terms@[k].term@ != term@,
        decreases terms@.len() - i,
    {
        if terms[i].term == *term {
            return Some(i);
        }
        i += 1;
    }
    None
}

/// In a list of distinct terms, each posting is found under its own term.
pub proof fn lemma_postings_map_at(terms: Seq<Posting>, i: int)
    requires
        distinct_terms(terms),
        0 <= i < terms.len(),
    ensures
        has_term(terms, terms[i].term@),
        term_index(terms, terms[i].term@) == i,
        postings_map(terms).contains_key(terms[i].term@),
        postings_map(terms)[terms[i].term@] == terms[i].docs@,
{
    let t = terms[i].term@;
    assert(terms[i].term@ == t);
    let j = term_index(terms, t);
    assert(0 <= j < terms.len() && terms[j].term@ == t);
}

/// A consistent index holds none of the ids that have no name in any list.
pub proof fn lemma_unknown_doc_absent(v: IndexView, id: DocumentId, t: Seq<char>)
    requires
        v.wf(),
        !v.names.contains_key(id),
        v.postings.contains_key(t),
    ensures
        !v.postings[t].contains(id),
{
    if v.postings[t].contains(id) {
        let k = choose|k: int| 0 <= k < v.postings[t].len() && v.postings[t][k] == id;
        assert(v.names.contains_key(v.postings[t][k]));
    }
}

/// How often a document stands in a list.
pub open spec fn occurrences(list: Seq<DocumentId>, id: DocumentId) -> nat
    decreases list.len(),
{
    if list.len() == 0 {
        0
    } else {
        occurrences(list.drop_last(), id) + if list.last() == id {
            1nat
        } else {
            0nat
        }
    }
}

/// A document that a list lacks stands in it no times; one that a list
/// without repeats holds stands in it once.
pub proof fn lemma_occurrences(list: Seq<DocumentId>, id: DocumentId)
    ensures
        !list.contains(id) ==> occurrences(list, id) == 0,
        list.contains(id) && list.no_duplicates() ==> occurrences(list, id) == 1,
    decreases list.len(),
{
    if list.len() > 0 {
        let front = list.drop_last();
        lemma_occurrences(front, id);
        if front.contains(id) {
            let k = choose|k: int| 0 <= k < front.len() && front[k] == id;
            assert(list[k] == id);
        }
        if list.contains(id) {
            let k = choose|k: int| 0 <= k < list.len() && list[k] == id;
            if k < front.len() {
                assert(front[k] == id);
            }
        }
        if list.no_duplicates() {
            assert forall|x: int, y: int|
                0 <= x < front.len() && 0 <= y < front.len() && x != y implies front[x]
                != front[y] by {
                assert(list[x] != list[y]);
            }
            if list.last() == id && front.contains(id) {
                let k = choose|k: int| 0 <= k < front.len() && front[k] == id;
                assert(list[k] == list[list.len() - 1]);
            }
        }
    }
}

/// A new document stands exactly once in the posting list of each of its
/// terms, however often the term came up in its paths, and its length counts
/// each term once.
pub proof fn lemma_document_listed_once(
    v: IndexView,
    id: DocumentId,
    name: Seq<char>,
    terms: Set<Seq<char>>,
    t: Seq<char>,
)
    requires
        v.wf(),
        !v.names.contains_key(id),
        terms.finite(),
        terms.contains(t),
    ensures
        v.with_document(id, name, terms).postings.contains_key(t),
        occurrences(v.with_document(id, name, terms).postings[t], id) == 1,
        v.with_document(id, name, terms).lengths[id] == terms.len(),
{
    lemma_with_document_wf(v, id, name, terms);
    let list = v.with_document(id, name, terms).postings[t];
    assert(list[list.len() - 1] == id);
    lemma_occurrences(list, id);
}

/// In a consistent index the posting lists hold as many entries as the
/// lengths of the documents add up to.
pub proof fn lemma_conservation(index: &IndexedData)
    requires
        index.wf(),
    ensures
        index.posting_count() == index.length_sum(),
{
}

/// Adding a new document to a consistent index leaves it consistent.
pub proof fn lemma_with_document_wf(
    v: IndexView,
    id: DocumentId,
    name: Seq<char>,
    terms: Set<Seq<char>>,
)
    requires
        v.wf(),
        !v.names.contains_key(id),
        terms.finite(),
    ensures
        v.with_document(id, name, terms).wf(),
{
    let w = v.with_document(id, name, terms);
    assert(w.postings.dom() =~= v.postings.dom().union(terms));
    assert(w.names.dom() =~= v.names.dom().insert(id));
    assert(w.lengths.dom() =~= v.lengths.dom().insert(id));
    assert forall|t: Seq<char>| #[trigger] w.postings.contains_key(t) implies w.postings[t]
        .no_duplicates() by {
        if terms.contains(t) && v.postings.contains_key(t) {
            lemma_unknown_doc_absent(v, id, t);
            let old_list = v.postings[t];
            let new_list = old_list.push(id);
            assert forall|x: int, y: int|
                0 <= x < new_list.len() && 0 <= y < new_list.len() && x != y implies new_list[x]
                != new_list[y] by {
                if x < old_list.len() {
                    assert(old_list.contains(old_list[x]));
                }
                if y < old_list.len() {
                    assert(old_list.contains(old_list[y]));
                }
            }
        }
    }
    assert forall|t: Seq<char>, k: int|
        w.postings.contains_key(t) && 0 <= k < w.postings[t].len() implies w.names.contains_key(
        #[trigger] w.postings[t][k],
    ) by {
        if v.postings.contains_key(t) && k < v.postings[t].len() {
            assert(v.names.contains_key(v.postings[t][k]));
        }
    }
    assert forall|d: DocumentId| #[trigger] w.names.contains_key(d) implies w.lengths[d]
        == w.doc_terms(d).len() by {
        if d == id {
            assert forall|t: Seq<char>| w.doc_terms(d).contains(t) <==> terms.contains(t) by {
                if v.postings.contains_key(t) {
                    lemma_unknown_doc_absent(v, id, t);
                }
                if terms.contains(t) {
                    if v.postings.contains_key(t) {
                        let l = v.postings[t].push(id);
                        assert(l[l.len() - 1] == id);
                    } else {
                        assert(seq![id][0] == id);
                    }
                }
            }
            assert(w.doc_terms(d) =~= terms);
        } else {
            assert(v.names.contains_key(d));
            assert forall|t: Seq<char>| w.doc_terms(d).contains(t) <==> v.doc_terms(d).contains(
                t,
            ) by {
                if terms.contains(t) {
                    if v.postings.contains_key(t) {
                        let o = v.postings[t];
                        let l = o.push(id);
                        if l.contains(d) {
                            let k = choose|k: int| 0 <= k < l.len() && l[k] == d;
                            assert(o[k] == d);
                        }
                        if o.contains(d) {
                            let k = choose|k: int| 0 <= k < o.len() && o[k] == d;
                            assert(l[k] == d);
                        }
                    } else {
                        let l = seq![id];
                        if l.contains(d) {
                            let k = choose|k: int| 0 <= k < l.len() && l[k] == d;
                        }
                    }
                }
            }
            assert(w.doc_terms(d) =~= v.doc_terms(d));
        }
    }
}

/// The map of a list of distinct terms has one key for each posting.
pub proof fn lemma_postings_map_len(terms: Seq<Posting>)
    requires
        distinct_terms(terms),
    ensures
        postings_map(terms).dom().finite(),
        postings_map(terms).dom().len() == terms.len(),
{
    let keys = Seq::new(terms.len(), |i: int| terms[i].term@);
    assert(keys.no_duplicates());
    assert forall|t: Seq<char>| keys.to_set().contains(t) <==> postings_map(terms).dom().contains(
        t,
    ) by {
        if keys.contains(t) {
            let i = choose|i: int| 0 <= i < keys.len() && keys[i] == t;
            assert(terms[i].term@ == t);
        }
        if has_term(terms, t) {
            let i = term_index(terms, t);
            assert(keys[i] == t);
        }
    }
    assert(keys.to_set() =~= postings_map(terms).dom());
    keys.unique_seq_to_set();
    vstd::seq_lib::seq_to_set_is_finite(keys);
}

/// No document has more terms than the index has.
pub proof fn lemma_length_bound(index: &IndexedData, doc: DocumentId)
    requires
        index.wf(),
        index@.names.contains_key(doc),
    ensures
        index.doc_lengths@.contains_key(doc),
        index.doc_lengths@[doc] == index@.lengths[doc],
        index@.lengths[doc] == index@.doc_terms(doc).len(),
        index@.doc_terms(doc).finite(),
        index.doc_lengths@[doc] <= index.terms_to_docs@.len(),
{
    let v = index@;
    assert(v.lengths.dom().contains(doc));
    lemma_postings_map_len(index.terms_to_docs@);
    vstd::set_lib::lemma_len_subset(v.doc_terms(doc), v.postings.dom());
}

/// No posting list is longer than the number of documents.
pub proof fn lemma_posting_bound(v: IndexView, t: Seq<char>)
    requires
        v.wf(),
        v.postings.contains_key(t),
    ensures
        v.postings[t].len() <= v.num_docs,
{
    let list = v.postings[t];
    list.unique_seq_to_set();
    assert forall|d: DocumentId| list.to_set().contains(d) implies v.names.dom().contains(d) by {
        let k = choose|k: int| 0 <= k < list.len() && list[k] == d;
        assert(v.names.contains_key(list[k]));
    }
    vstd::set_lib::lemma_len_subset(list.to_set(), v.names.dom());
}

impl IndexedData {
    /// The counts from which the weight of each term is taken, in the order
    /// of the postings.
    pub fn compute_idf(&self) -> (weights: Vec<Idf>)
        requires
            self.wf(),
        ensures
            weights@.len() == self.terms_to_docs@.len(),
            forall|i: int|
                0 <= i < weights@.len() ==> #[trigger] weights@[i] == idf_of(
                    self.num_docs as nat,
                    self.terms_to_docs@[i].docs@.len(),
                ),
            forall|i: int|
                0 <= i < weights@.len() ==> (#[trigger] weights@[i]).docs_with
                    + weights@[i].docs_without == self.num_docs,
    {
        let mut weights: Vec<Idf> = Vec::new();
        let mut i: usize = 0;
        while i < self.terms_to_docs.len()
            invariant
                self.wf(),
                i <= self.terms_to_docs@.len(),
                weights@.len() == i,
                forall|k: int|
                    0 <= k < i ==> #[trigger] weights@[k] == idf_of(
                        self.num_docs as nat,
                        self.terms_to_docs@[k].docs@.len(),
                    ),
                forall|k: int|
                    0 <= k < i ==> (#[trigger] weights@[k]).docs_with + weights@[k].docs_without
                        == self.num_docs,
            decreases self.terms_to_docs@.len() - i,
        {
            proof {
                lemma_postings_map_at(self.terms_to_docs@, i as int);
                lemma_posting_bound(self@, self.terms_to_docs@[i as int].term@);
            }
            let docs_with = self.terms_to_docs[i].docs.len();
            weights.push(Idf { docs_without: self.num_docs - docs_with, docs_with });
            i += 1;
        }
        weights
    }

    /// Computes the weights of all terms and stores them in the index.
    pub fn attach_idf(&mut self)
        requires
            old(self).wf(),
        ensures
            final(self).wf(),
            final(self)@ == old(self)@.with_weights(),
    {
        let weights = self.compute_idf();
        self.idf = weights;
        proof {
            let terms = self.terms_to_docs@;
            let left = self@.idf;
            let right = old(self)@.weights();
            assert forall|t: Seq<char>| left.contains_key(t) implies left[t] == right[t] by {
                let i = term_index(terms, t);
                lemma_postings_map_at(terms, i);
            }
            assert(left =~= right);
            assert(self@.names =~= old(self)@.names);
            assert(self@.lengths =~= old(self)@.lengths);
        }
    }
}

/// The total of a list depends only on the postings it counts.
pub proof fn lemma_posting_total_same(a: Seq<Posting>, b: Seq<Posting>, n: int)
    requires
        n <= a.len(),
        n <= b.len(),
        forall|i: int| 0 <= i < n ==> a[i].docs@.len() == b[i].docs@.len(),
    ensures
        posting_total(a, n) == posting_total(b, n),
    decreases n,
{
    if n > 0 {
        lemma_posting_total_same(a, b, n - 1);
    }
}

/// Replacing the documents of one posting moves the total by the change in
/// that list's length.
pub proof fn lemma_posting_total_update(a: Seq<Posting>, b: Seq<Posting>, j: int, n: int)
    requires
        a.len() == b.len(),
        0 <= j < a.len(),
        0 <= n <= a.len(),
        forall|i: int| 0 <= i < a.len() && i != j ==> a[i].docs@.len() == b[i].docs@.len(),
    ensures
        j < n ==> posting_total(b, n) + a[j].docs@.len() == posting_total(a, n) + b[j].docs@.len(),
        j >= n ==> posting_total(b, n) == posting_total(a, n),
    decreases n,
{
    if n > 0 {
        lemma_posting_total_update(a, b, j, n - 1);
    }
}

/// Changing the documents of the posting at `j` changes the map at that
/// term and nowhere else.
pub proof fn lemma_postings_map_update(a: Seq<Posting>, b: Seq<Posting>, j: int)
    requires
        distinct_terms(a),
        a.len() == b.len(),
        0 <= j < a.len(),
        forall|i: int| 0 <= i < a.len() ==> a[i].term@ == b[i].term@,
        forall|i: int| 0 <= i < a.len() && i != j ==> a[i].docs@ == b[i].docs@,
    ensures
        distinct_terms(b),
        postings_map(b) == postings_map(a).insert(a[j].term@, b[j].docs@),
{
    assert(distinct_terms(b)) by {
        assert forall|x: int, y: int|
            0 <= x < b.len() && 0 <= y < b.len() && x != y implies #[trigger] b[x].term@
            != #[trigger] b[y].term@ by {
            assert(a[x].term@ != a[y].term@);
        }
    }
    let left = postings_map(b);
    let right = postings_map(a).insert(a[j].term@, b[j].docs@);
    assert forall|t: Seq<char>| left.contains_key(t) <==> right.contains_key(t) by {
        if has_term(b, t) {
            let i = term_index(b, t);
            assert(a[i].term@ == t);
        }
        if has_term(a, t) {
            let i = term_index(a, t);
            assert(b[i].term@ == t);
        }
        lemma_postings_map_at(a, j);
    }
    assert forall|t: Seq<char>| left.contains_key(t) implies left[t] == right[t] by {
        let i = term_index(b, t);
        lemma_postings_map_at(b, i);
        lemma_postings_map_at(a, i);
    }
    assert(left =~= right);
}

/// Appending a posting for a new term adds that term to the map.
pub proof fn lemma_postings_map_push(a: Seq<Posting>, p: Posting)
    requires
        distinct_terms(a),
        !has_term(a, p.term@),
    ensures
        distinct_terms(a.push(p)),
        postings_map(a.push(p)) == postings_map(a).insert(p.term@, p.docs@),
        posting_total(a.push(p), a.len() as int + 1) == posting_total(a, a.len() as int) + p.docs@.len(),
{
    let b = a.push(p);
    assert(distinct_terms(b)) by {
        assert forall|x: int, y: int|
            0 <= x < b.len() && 0 <= y < b.len() && x != y implies #[trigger] b[x].term@
            != #[trigger] b[y].term@ by {
            if x < a.len() && y < a.len() {
                assert(a[x].term@ != a[y].term@);
            } else if x < a.len() {
                assert(a[x].term@ == b[x].term@);
            } else {
                assert(a[y].term@ == b[y].term@);
            }
        }
    }
    let left = postings_map(b);
    let right = postings_map(a).insert(p.term@, p.docs@);
    assert forall|t: Seq<char>| left.contains_key(t) <==> right.contains_key(t) by {
        if has_term(b, t) {
            let i = term_index(b, t);
            if i < a.len() {
                assert(a[i].term@ == t);
            }
        }
        if has_term(a, t) {
            let i = term_index(a, t);
            assert(b[i].term@ == t);
        }
        assert(b[a.len() as int].term@ == p.term@);
    }
    assert forall|t: Seq<char>| left.contains_key(t) implies left[t] == right[t] by {
        let i = term_index(b, t);
        lemma_postings_map_at(b, i);
        if i < a.len() {
            assert(a[i].term@ == t);
            lemma_postings_map_at(a, i);
        }
    }
    assert(left =~= right);
    lemma_posting_total_same(a, b, a.len() as int);
}

} // verus!
