//! Checking an index that came from elsewhere before it is searched.

use std::collections::HashMap;
use std::collections::HashSet;
use vstd::prelude::*;

use crate::index::{
    distinct_terms, lemma_postings_map_at, lemma_postings_map_len, length_total,
    posting_total, term_index, IndexedData, Posting,
};
use crate::types::DocumentId;

verus! {

/// The number of postings among the first `n` that list document `doc`.
pub open spec fn term_count(terms: Seq<Posting>, doc: DocumentId, n: int) -> nat
    decreases n,
{
    if n <= 0 {
        0
    } else {
        term_count(terms, doc, n - 1) + if terms[n - 1].docs@.contains(doc) {
            1nat
        } else {
            0nat
        }
    }
}

/// The terms of the first `n` postings that list document `doc`.
pub open spec fn terms_holding(terms: Seq<Posting>, doc: DocumentId, n: int) -> Set<Seq<char>> {
    Set::new(
        |t: Seq<char>|
            exists|i: int| 0 <= i < n && #[trigger] terms[i].term@ == t && terms[i].docs@.contains(doc),
    )
}

/// Among distinct terms, as many terms hold a document as postings list it.
pub proof fn lemma_term_count(terms: Seq<Posting>, doc: DocumentId, n: int)
    requires
        distinct_terms(terms),
        0 <= n <= terms.len(),
    ensures
        terms_holding(terms, doc, n).finite(),
        terms_holding(terms, doc, n).len() == term_count(terms, doc, n),
        term_count(terms, doc, n) <= n,
    decreases n,
{
    if n == 0 {
        assert(terms_holding(terms, doc, n) =~= Set::empty());
    } else {
        lemma_term_count(terms, doc, n - 1);
        let front = terms_holding(terms, doc, n - 1);
        let all = terms_holding(terms, doc, n);
        let t = terms[n - 1].term@;
        assert(!front.contains(t)) by {
            if front.contains(t) {
                let i = choose|i: int|
                    0 <= i < n - 1 && #[trigger] terms[i].term@ == t && terms[i].docs@.contains(
                        doc,
                    );
                assert(terms[i].term@ != terms[n - 1].term@);
            }
        }
        if terms[n - 1].docs@.contains(doc) {
            assert(all =~= front.insert(t)) by {
                assert forall|u: Seq<char>| all.contains(u) <==> front.insert(t).contains(u) by {
                    if all.contains(u) {
                        let i = choose|i: int|
                            0 <= i < n && #[trigger] terms[i].term@ == u && terms[i].docs@.contains(
                                doc,
                            );
                        if i < n - 1 {
                            assert(front.contains(u));
                        }
                    }
                    if front.contains(u) {
                        let i = choose|i: int|
                            0 <= i < n - 1 && #[trigger] terms[i].term@ == u
                                && terms[i].docs@.contains(doc);
                        assert(terms[i].term@ == u);
                    }
                    if u == t {
                        assert(terms[n - 1].term@ == u);
                    }
                }
            }
        } else {
            assert(all =~= front) by {
                assert forall|u: Seq<char>| all.contains(u) <==> front.contains(u) by {
                    if all.contains(u) {
                        let i = choose|i: int|
                            0 <= i < n && #[trigger] terms[i].term@ == u && terms[i].docs@.contains(
                                doc,
                            );
                        assert(i < n - 1);
                    }
                    if front.contains(u) {
                        let i = choose|i: int|
                            0 <= i < n - 1 && #[trigger] terms[i].term@ == u
                                && terms[i].docs@.contains(doc);
                        assert(terms[i].term@ == u);
                    }
                }
            }
        }
    }
}

/// The terms of a document are the terms of the postings that list it.
pub proof fn lemma_doc_terms(index: &IndexedData, doc: DocumentId)
    requires
        distinct_terms(index.terms_to_docs@),
    ensures
        index@.doc_terms(doc) == terms_holding(
            index.terms_to_docs@,
            doc,
            index.terms_to_docs@.len() as int,
        ),
        index@.doc_terms(doc).len() == term_count(
            index.terms_to_docs@,
            doc,
            index.terms_to_docs@.len() as int,
        ),
{
    let terms = index.terms_to_docs@;
    let left = index@.doc_terms(doc);
    let right = terms_holding(terms, doc, terms.len() as int);
    assert forall|t: Seq<char>| left.contains(t) <==> right.contains(t) by {
        if left.contains(t) {
            let i = term_index(terms, t);
            lemma_postings_map_at(terms, i);
            assert(terms[i].term@ == t);
        }
        if right.contains(t) {
            let i = choose|i: int|
                0 <= i < terms.len() && #[trigger] terms[i].term@ == t && terms[i].docs@.contains(
                    doc,
                );
            lemma_postings_map_at(terms, i);
        }
    }
    assert(left =~= right);
    lemma_term_count(terms, doc, terms.len() as int);
}

/// Tells whether no term has two postings.
pub fn terms_are_distinct(terms: &Vec<Posting>) -> (ok: bool)
    ensures
        ok == distinct_terms(terms@),
{
    let mut i: usize = 0;
    while i < terms.len()
        invariant
            i <= terms@.len(),
            forall|x: int, y: int|
                0 <= x < i && 0 <= y < x ==> #[trigger] terms@[x].term@ != #[trigger] terms@[y].term@,
        decreases terms@.len() - i,
    {
        let mut j: usize = 0;
        while j < i
            invariant
                j <= i < terms@.len(),
                forall|y: int| 0 <= y < j ==> terms@[i as int].term@ != #[trigger] terms@[y].term@,
            decreases i - j,
        {
            if terms[i].term == terms[j].term {
                assert(terms@[i as int].term@ == terms@[j as int].term@);
                return false;
            }
            j += 1;
        }
        i += 1;
    }
    proof {
        assert forall|x: int, y: int|
            0 <= x < terms@.len() && 0 <= y < terms@.len() && x != y implies #[trigger] terms@[x].term@
            != #[trigger] terms@[y].term@ by {
            if y < x {
                assert(terms@[x].term@ != terms@[y].term@);
            } else {
                assert(terms@[y].term@ != terms@[x].term@);
            }
        }
    }
    true
}

/// Tells whether a list names no document twice and only documents that
/// have a name.
pub fn list_is_sound(docs: &Vec<DocumentId>, names: &HashMap<DocumentId, String>) -> (ok: bool)
    ensures
        ok == (docs@.no_duplicates() && forall|k: int|
            0 <= k < docs@.len() ==> names@.contains_key(#[trigger] docs@[k])),
{
    let mut seen: HashSet<DocumentId> = HashSet::new();
    let mut i: usize = 0;
    while i < docs.len()
        invariant
            i <= docs@.len(),
            seen@ == docs@.take(i as int).to_set(),
            docs@.take(i as int).no_duplicates(),
            forall|k: int| 0 <= k < i ==> names@.contains_key(#[trigger] docs@[k]),
        decreases docs@.len() - i,
    {
        let id = docs[i];
        let ghost head = docs@.take(i as int);
        let ghost more = docs@.take(i + 1);
        proof {
            assert(more =~= head.push(id));
        }
        if !names.contains_key(&id) {
            return false;
        }
        let fresh = seen.insert(id);
        if !fresh {
            proof {
                assert(head.contains(id));
                let k = choose|k: int| 0 <= k < head.len() && head[k] == id;
                assert(docs@[k] == docs@[i as int] && k != i);
            }
            return false;
        }
        proof {
            assert(seen@ =~= more.to_set()) by {
                assert forall|d: DocumentId| more.to_set().contains(d) <==> head.to_set().insert(
                    id,
                ).contains(d) by {
                    if more.contains(d) {
                        let k = choose|k: int| 0 <= k < more.len() && more[k] == d;
                        if k < head.len() {
                            assert(head[k] == d);
                        }
                    }
                    if head.contains(d) {
                        let k = choose|k: int| 0 <= k < head.len() && head[k] == d;
                        assert(more[k] == d);
                    }
                    assert(more[i as int] == id);
                }
            }
            assert(more.no_duplicates()) by {
                assert forall|x: int, y: int|
                    0 <= x < more.len() && 0 <= y < more.len() && x != y implies more[x]
                    != more[y] by {
                    if x < head.len() {
                        assert(head.contains(head[x]));
                    }
                    if y < head.len() {
                        assert(head.contains(head[y]));
                    }
                }
            }
        }
        i += 1;
    }
    assert(docs@.take(docs@.len() as int) =~= docs@);
    true
}

/// No more postings list a document than were looked at.
pub proof fn lemma_term_count_bound(terms: Seq<Posting>, doc: DocumentId, n: int)
    requires
        0 <= n,
    ensures
        term_count(terms, doc, n) <= n,
    decreases n,
{
    if n > 0 {
        lemma_term_count_bound(terms, doc, n - 1);
    }
}

/// The number that a table of counts holds for a document; zero where it
/// holds none.
pub open spec fn count_of(counts: Map<DocumentId, usize>, doc: DocumentId) -> nat {
    if counts.contains_key(doc) {
        counts[doc] as nat
    } else {
        0
    }
}

/// One if the list names the document, else zero.
pub open spec fn listed_once(docs: Seq<DocumentId>, doc: DocumentId) -> nat {
    if docs.contains(doc) {
        1
    } else {
        0
    }
}

/// Counts, for each document, the postings that list it.
pub fn count_terms(terms: &Vec<Posting>) -> (counts: HashMap<DocumentId, usize>)
    requires
        forall|i: int| 0 <= i < terms@.len() ==> (#[trigger] terms@[i]).docs@.no_duplicates(),
    ensures
        forall|d: DocumentId|
            #[trigger] count_of(counts@, d) == term_count(terms@, d, terms@.len() as int),
{
    let mut counts: HashMap<DocumentId, usize> = HashMap::new();
    let mut j: usize = 0;
    while j < terms.len()
        invariant
            j <= terms@.len(),
            forall|i: int| 0 <= i < terms@.len() ==> (#[trigger] terms@[i]).docs@.no_duplicates(),
            forall|d: DocumentId| #[trigger] count_of(counts@, d) == term_count(terms@, d, j as int),
        decreases terms@.len() - j,
    {
        let docs = &terms[j].docs;
        let mut p: usize = 0;
        proof {
            assert(docs@.take(0) =~= Seq::<DocumentId>::empty());
        }
        while p < docs.len()
            invariant
                p <= docs@.len(),
                j < terms@.len() <= usize::MAX,
                docs@ == terms@[j as int].docs@,
                docs@.no_duplicates(),
                forall|d: DocumentId|
                    #[trigger] count_of(counts@, d) == term_count(terms@, d, j as int)
                        + listed_once(docs@.take(p as int), d),
            decreases docs@.len() - p,
        {
            let doc = docs[p];
            let ghost before = counts@;
            let ghost head = docs@.take(p as int);
            let ghost more = docs@.take(p + 1);
            proof {
                assert(more =~= head.push(doc));
                assert(!head.contains(doc)) by {
                    if head.contains(doc) {
                        let k = choose|k: int| 0 <= k < head.len() && head[k] == doc;
                        assert(docs@[k] == doc);
                    }
                }
                assert(more[p as int] == doc);
                assert forall|d: DocumentId| d != doc implies more.contains(d) == head.contains(
                    d,
                ) by {
                    if more.contains(d) {
                        let k = choose|k: int| 0 <= k < more.len() && more[k] == d;
                        assert(head[k] == d);
                    }
                    if head.contains(d) {
                        let k = choose|k: int| 0 <= k < head.len() && head[k] == d;
                        assert(more[k] == d);
                    }
                }
                assert(count_of(before, doc) == term_count(terms@, doc, j as int));
                lemma_term_count_bound(terms@, doc, j as int);
            }
            let so_far: usize = match counts.get(&doc) {
                Some(c) => *c,
                None => 0,
            };
            assert(so_far == count_of(before, doc));
            assert(so_far <= j);
            counts.insert(doc, so_far + 1);
            proof {
                assert forall|d: DocumentId|
                    #[trigger] count_of(counts@, d) == term_count(terms@, d, j as int)
                        + listed_once(more, d) by {
                    if d != doc {
                        assert(count_of(counts@, d) == count_of(before, d));
                    }
                }
            }
            p += 1;
        }
        proof {
            assert(docs@.take(docs@.len() as int) =~= docs@);
        }
        j += 1;
    }
    counts
}

/// Adds up the lengths of all posting lists.
pub fn sum_postings(terms: &Vec<Posting>) -> (total: u128)
    ensures
        total == posting_total(terms@, terms@.len() as int),
{
    let mut total: u128 = 0;
    let mut i: usize = 0;
    while i < terms.len()
        invariant
            i <= terms@.len(),
            total == posting_total(terms@, i as int),
            total <= i * 0xffff_ffff_ffff_ffff,
        decreases terms@.len() - i,
    {
        let n = terms[i].docs.len();
        assert((i + 1) * 0xffff_ffff_ffff_ffff == i * 0xffff_ffff_ffff_ffff
            + 0xffff_ffff_ffff_ffff) by (nonlinear_arith);
        assert(i * 0xffff_ffff_ffff_ffff <= 0xffff_ffff_ffff_ffff * 0xffff_ffff_ffff_ffff)
            by (nonlinear_arith)
            requires
                0 <= i <= 0xffff_ffff_ffff_ffff,
        ;
        total = total + n as u128;
        i += 1;
    }
    total
}

/// Adds up the lengths of the listed documents.
pub fn sum_lengths(ids: &Vec<DocumentId>, lengths: &HashMap<DocumentId, usize>) -> (total: u128)
    requires
        forall|i: int| 0 <= i < ids@.len() ==> lengths@.contains_key(#[trigger] ids@[i]),
    ensures
        total == length_total(ids@, lengths@, ids@.len() as int),
{
    let mut total: u128 = 0;
    let mut i: usize = 0;
    while i < ids.len()
        invariant
            i <= ids@.len(),
            forall|k: int| 0 <= k < ids@.len() ==> lengths@.contains_key(#[trigger] ids@[k]),
            total == length_total(ids@, lengths@, i as int),
            total <= i * 0xffff_ffff_ffff_ffff,
        decreases ids@.len() - i,
    {
        assert(lengths@.contains_key(ids@[i as int]));
        let n = *lengths.get(&ids[i]).unwrap();
        assert((i + 1) * 0xffff_ffff_ffff_ffff == i * 0xffff_ffff_ffff_ffff
            + 0xffff_ffff_ffff_ffff) by (nonlinear_arith);
        assert(i * 0xffff_ffff_ffff_ffff <= 0xffff_ffff_ffff_ffff * 0xffff_ffff_ffff_ffff)
            by (nonlinear_arith)
            requires
                0 <= i <= 0xffff_ffff_ffff_ffff,
        ;
        total = total + n as u128;
        i += 1;
    }
    total
}

impl IndexedData {
    /// Tells whether the documents are listed once each and the two maps
    /// hold exactly the listed documents.
    pub fn documents_are_listed(&self) -> (ok: bool)
        ensures
            ok == {
                &&& self.doc_ids@.no_duplicates()
                &&& self.doc_ids@.to_set() == self.docs_by_id@.dom()
                &&& self.docs_by_id@.dom() == self.doc_lengths@.dom()
                &&& self.num_docs == self.docs_by_id@.dom().len()
            },
    {
        broadcast use vstd::std_specs::hash::group_hash_axioms;

        let ghost ids = self.doc_ids@;
        let ghost names = self.docs_by_id@.dom();
        let ghost lengths = self.doc_lengths@.dom();
        proof {
            vstd::seq_lib::seq_to_set_is_finite(ids);
            if ids.no_duplicates() {
                ids.unique_seq_to_set();
            }
        }
        if !list_is_sound(&self.doc_ids, &self.docs_by_id) {
            proof {
                if ids.to_set() == names {
                    assert forall|k: int| 0 <= k < ids.len() implies names.contains(
                        #[trigger] ids[k],
                    ) by {
                        assert(ids.to_set().contains(ids[k]));
                    }
                }
            }
            return false;
        }
        proof {
            assert(ids.to_set().subset_of(names)) by {
                assert forall|d: DocumentId| ids.to_set().contains(d) implies names.contains(d) by {
                    let k = choose|k: int| 0 <= k < ids.len() && ids[k] == d;
                    assert(names.contains(ids[k]));
                }
            }
        }
        if self.doc_ids.len() != self.docs_by_id.len() {
            return false;
        }
        proof {
            vstd::set_lib::lemma_subset_equality(ids.to_set(), names);
        }
        if self.doc_lengths.len() != self.docs_by_id.len() {
            return false;
        }
        if self.num_docs != self.doc_ids.len() {
            return false;
        }
        let mut i: usize = 0;
        while i < self.doc_ids.len()
            invariant
                i <= self.doc_ids@.len(),
                forall|k: int| 0 <= k < i ==> lengths.contains(#[trigger] self.doc_ids@[k]),
                lengths == self.doc_lengths@.dom(),
                ids == self.doc_ids@,
                names == self.docs_by_id@.dom(),
                ids.to_set() == names,
            decreases self.doc_ids@.len() - i,
        {
            if !self.doc_lengths.contains_key(&self.doc_ids[i]) {
                proof {
                    assert(ids.to_set().contains(ids[i as int]));
                }
                return false;
            }
            i += 1;
        }
        proof {
            assert(names.subset_of(lengths)) by {
                assert forall|d: DocumentId| names.contains(d) implies lengths.contains(d) by {
                    assert(ids.to_set().contains(d));
                    let k = choose|k: int| 0 <= k < ids.len() && ids[k] == d;
                    assert(lengths.contains(ids[k]));
                }
            }
            vstd::set_lib::lemma_subset_equality(names, lengths);
        }
        true
    }

    /// Tells whether every posting list names no document twice and only
    /// documents that have a name.
    pub fn postings_are_sound(&self) -> (ok: bool)
        ensures
            ok == forall|i: int|
                0 <= i < self.terms_to_docs@.len() ==> {
                    &&& (#[trigger] self.terms_to_docs@[i]).docs@.no_duplicates()
                    &&& forall|k: int|
                        0 <= k < self.terms_to_docs@[i].docs@.len()
                            ==> self.docs_by_id@.contains_key(
                            #[trigger] self.terms_to_docs@[i].docs@[k],
                        )
                },
    {
        let mut i: usize = 0;
        while i < self.terms_to_docs.len()
            invariant
                i <= self.terms_to_docs@.len(),
                forall|x: int|
                    0 <= x < i ==> {
                        &&& (#[trigger] self.terms_to_docs@[x]).docs@.no_duplicates()
                        &&& forall|k: int|
                            0 <= k < self.terms_to_docs@[x].docs@.len()
                                ==> self.docs_by_id@.contains_key(
                                #[trigger] self.terms_to_docs@[x].docs@[k],
                            )
                    },
            decreases self.terms_to_docs@.len() - i,
        {
            if !list_is_sound(&self.terms_to_docs[i].docs, &self.docs_by_id) {
                assert(!{
                    &&& self.terms_to_docs@[i as int].docs@.no_duplicates()
                    &&& forall|k: int|
                        0 <= k < self.terms_to_docs@[i as int].docs@.len()
                            ==> self.docs_by_id@.contains_key(
                            #[trigger] self.terms_to_docs@[i as int].docs@[k],
                        )
                });
                return false;
            }
            i += 1;
        }
        true
    }

    /// Tells whether the length of each listed document is the number of
    /// postings that list it.
    pub fn lengths_are_counts(&self) -> (ok: bool)
        requires
            forall|i: int|
                0 <= i < self.terms_to_docs@.len() ==> (#[trigger] self.terms_to_docs@[i])
                    .docs@.no_duplicates(),
            forall|i: int|
                0 <= i < self.doc_ids@.len() ==> self.doc_lengths@.contains_key(
                    #[trigger] self.doc_ids@[i],
                ),
        ensures
            ok == forall|i: int|
                0 <= i < self.doc_ids@.len() ==> self.doc_lengths@[#[trigger] self.doc_ids@[i]]
                    == term_count(
                    self.terms_to_docs@,
                    self.doc_ids@[i],
                    self.terms_to_docs@.len() as int,
                ),
    {
        let counts = count_terms(&self.terms_to_docs);
        let mut i: usize = 0;
        while i < self.doc_ids.len()
            invariant
                i <= self.doc_ids@.len(),
                forall|k: int|
                    0 <= k < self.doc_ids@.len() ==> self.doc_lengths@.contains_key(
                        #[trigger] self.doc_ids@[k],
                    ),
                forall|d: DocumentId|
                    #[trigger] count_of(counts@, d) == term_count(
                        self.terms_to_docs@,
                        d,
                        self.terms_to_docs@.len() as int,
                    ),
                forall|k: int|
                    0 <= k < i ==> self.doc_lengths@[#[trigger] self.doc_ids@[k]] == term_count(
                        self.terms_to_docs@,
                        self.doc_ids@[k],
                        self.terms_to_docs@.len() as int,
                    ),
            decreases self.doc_ids@.len() - i,
        {
            let id = self.doc_ids[i];
            assert(self.doc_lengths@.contains_key(self.doc_ids@[i as int]));
            let length = *self.doc_lengths.get(&id).unwrap();
            let counted: usize = match counts.get(&id) {
                Some(c) => *c,
                None => 0,
            };
            assert(counted == count_of(counts@, id));
            if length != counted {
                return false;
            }
            i += 1;
        }
        true
    }
}

/// In a consistent index each posting list is sound.
pub proof fn lemma_wf_postings(index: &IndexedData, i: int)
    requires
        index.wf(),
        0 <= i < index.terms_to_docs@.len(),
    ensures
        index.terms_to_docs@[i].docs@.no_duplicates(),
        forall|k: int|
            0 <= k < index.terms_to_docs@[i].docs@.len() ==> index.docs_by_id@.contains_key(
                #[trigger] index.terms_to_docs@[i].docs@[k],
            ),
{
    let terms = index.terms_to_docs@;
    lemma_postings_map_at(terms, i);
    let t = terms[i].term@;
    assert(index@.postings.contains_key(t));
    assert forall|k: int| 0 <= k < terms[i].docs@.len() implies index.docs_by_id@.contains_key(
        #[trigger] terms[i].docs@[k],
    ) by {
        assert(index@.names.contains_key(index@.postings[t][k]));
    }
}

impl IndexedData {
    /// Tells whether the index is consistent, and so fit to be searched.
    pub fn is_consistent(&self) -> (ok: bool)
        ensures
            ok == self.wf(),
    {
        let ghost terms = self.terms_to_docs@;
        let ghost ids = self.doc_ids@;
        let ghost v = self@;
        proof {
            assert(v.names.dom() =~= self.docs_by_id@.dom());
            assert(v.lengths.dom() =~= self.doc_lengths@.dom());
        }
        if !terms_are_distinct(&self.terms_to_docs) {
            return false;
        }
        if !self.documents_are_listed() {
            return false;
        }
        if self.idf.len() != 0 && self.idf.len() != self.terms_to_docs.len() {
            return false;
        }
        if !self.postings_are_sound() {
            proof {
                if self.wf() {
                    assert forall|i: int| 0 <= i < terms.len() implies {
                        &&& (#[trigger] terms[i]).docs@.no_duplicates()
                        &&& forall|k: int|
                            0 <= k < terms[i].docs@.len() ==> self.docs_by_id@.contains_key(
                                #[trigger] terms[i].docs@[k],
                            )
                    } by {
                        lemma_wf_postings(self, i);
                    }
                }
            }
            return false;
        }
        proof {
            assert forall|i: int| 0 <= i < ids.len() implies self.doc_lengths@.contains_key(
                #[trigger] ids[i],
            ) by {
                assert(ids.to_set().contains(ids[i]));
            }
        }
        if !self.lengths_are_counts() {
            proof {
                if self.wf() {
                    assert forall|i: int| 0 <= i < ids.len() implies self.doc_lengths@[
                    #[trigger] ids[i]] == term_count(terms, ids[i], terms.len() as int) by {
                        assert(ids.to_set().contains(ids[i]));
                        assert(v.names.contains_key(ids[i]));
                        lemma_doc_terms(self, ids[i]);
                    }
                }
            }
            return false;
        }
        if sum_postings(&self.terms_to_docs) != sum_lengths(&self.doc_ids, &self.doc_lengths) {
            return false;
        }
        proof {
            lemma_postings_map_len(terms);
            assert forall|t: Seq<char>| #[trigger] v.postings.contains_key(t) implies v.postings[t]
                .no_duplicates() by {
                let i = term_index(terms, t);
                lemma_postings_map_at(terms, i);
                assert(terms[i].docs@.no_duplicates());
            }
            assert forall|t: Seq<char>, k: int|
                v.postings.contains_key(t) && 0 <= k < v.postings[t].len()
                    implies v.names.contains_key(#[trigger] v.postings[t][k]) by {
                let i = term_index(terms, t);
                lemma_postings_map_at(terms, i);
                assert(self.docs_by_id@.contains_key(terms[i].docs@[k]));
            }
            assert forall|d: DocumentId| #[trigger] v.names.contains_key(d) implies v.lengths[d]
                == v.doc_terms(d).len() by {
                assert(ids.to_set().contains(d));
                let i = choose|i: int| 0 <= i < ids.len() && ids[i] == d;
                assert(self.doc_lengths@[ids[i]] == term_count(terms, ids[i], terms.len() as int));
                lemma_doc_terms(self, d);
            }
        }
        true
    }
}

} // verus!
