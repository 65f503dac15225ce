//! Building an index from corpus records.

use vstd::prelude::*;

use crate::index::{
    add_postings, distinct_terms, lemma_posting_total_update, lemma_postings_map_at,
    lemma_postings_map_push, lemma_postings_map_update, lemma_unknown_doc_absent,
    lemma_with_document_wf, length_total, posting_total, postings_map, IndexView, IndexedData,
    Posting,
};
use crate::terms::{extract_terms, listing_terms, views};
use crate::types::{DocumentId, FileData};

verus! {

/// Why a build failed.
#[derive(Debug, Clone, Copy, PartialEq, Eq, Structural)]
pub enum BuildError {
    /// a line of the corpus could not be read
    Unreadable { line: usize },
    /// a line of the corpus is not a record
    Malformed { line: usize },
    /// the corpus has more lines than there are document ids
    TooManyDocuments { line: usize },
    /// two records claim the same document id
    DuplicateDocument { id: DocumentId },
}

/// What reading one line of a corpus gave.
#[derive(Debug)]
pub enum CorpusLine {
    /// the line holds this record
    Record(FileData),
    /// the line was read and is not a record
    Malformed,
    /// the line could not be read
    Unreadable,
}

/// The number of lines that a build consumes of a corpus of `len` lines.
pub open spec fn taken(len: nat, limit: Option<usize>) -> nat {
    match limit {
        Some(l) => if l < len {
            l as nat
        } else {
            len
        },
        None => len,
    }
}

/// Why the build fails at line `i`, if it does.
pub open spec fn line_error(lines: Seq<CorpusLine>, i: int) -> Option<BuildError> {
    match lines[i] {
        CorpusLine::Unreadable => Some(BuildError::Unreadable { line: i as usize }),
        CorpusLine::Malformed => Some(BuildError::Malformed { line: i as usize }),
        CorpusLine::Record(_) => if i > u32::MAX {
            Some(BuildError::TooManyDocuments { line: i as usize })
        } else {
            None
        },
    }
}

/// The index of the records on the first `n` lines, each numbered by its
/// line, before the weights are computed.
pub open spec fn built(lines: Seq<CorpusLine>, n: int) -> IndexView
    decreases n,
{
    if n <= 0 {
        IndexView::empty()
    } else {
        match lines[n - 1] {
            CorpusLine::Record(record) => built(lines, n - 1).with_document(
                (n - 1) as DocumentId,
                record.name@,
                listing_terms(views(record.files@)).to_set(),
            ),
            _ => built(lines, n - 1),
        }
    }
}

/// The terms seen among the first `k` of a listing's terms.
pub open spec fn seen_terms(terms: Seq<Seq<char>>, k: int) -> Set<Seq<char>> {
    terms.take(k).to_set()
}

/// Looking at one more term adds it to the terms seen.
pub proof fn lemma_seen_terms_step(terms: Seq<Seq<char>>, k: int)
    requires
        0 <= k < terms.len(),
    ensures
        seen_terms(terms, k + 1) == seen_terms(terms, k).insert(terms[k]),
        seen_terms(terms, k).finite(),
        seen_terms(terms, 0) == Set::<Seq<char>>::empty(),
{
    let a = terms.take(k);
    let b = terms.take(k + 1);
    assert(b =~= a.push(terms[k]));
    assert forall|t: Seq<char>| b.to_set().contains(t) <==> a.to_set().insert(terms[k]).contains(
        t,
    ) by {
        if b.contains(t) {
            let i = choose|i: int| 0 <= i < b.len() && b[i] == t;
            if i < k {
                assert(a[i] == t);
            }
        }
        if a.contains(t) {
            let i = choose|i: int| 0 <= i < a.len() && a[i] == t;
            assert(b[i] == t);
        }
        assert(b[k] == terms[k]);
    }
    assert(b.to_set() =~= a.to_set().insert(terms[k]));
    vstd::seq_lib::seq_to_set_is_finite(a);
    assert(terms.take(0).to_set() =~= Set::<Seq<char>>::empty());
}

/// Listing one more document, with its length, adds that length to the sum.
pub proof fn lemma_length_total_push(
    ids: Seq<DocumentId>,
    lengths: Map<DocumentId, usize>,
    id: DocumentId,
    len: usize,
    n: int,
)
    requires
        0 <= n <= ids.len(),
        !ids.contains(id),
    ensures
        length_total(ids.push(id), lengths.insert(id, len), n) == length_total(ids, lengths, n),
    decreases n,
{
    if n > 0 {
        lemma_length_total_push(ids, lengths, id, len, n - 1);
        assert(ids.contains(ids[n - 1]));
        assert(ids.push(id)[n - 1] == ids[n - 1]);
    }
}

impl IndexedData {
    /// Adds the record that stands on line `line_index` of the corpus as the
    /// document with that number.
    ///
    /// Each distinct term of the record's paths gets the document once, at the
    /// end of its posting list, however often the term occurs in the paths.
    /// The weights are cleared.
    pub fn add_record(&mut self, line_index: usize, record: &FileData) -> (r: Result<
        (),
        BuildError,
    >)
        requires
            old(self).wf(),
        ensures
            final(self).wf(),
            match r {
                Ok(_) => {
                    &&& line_index <= u32::MAX
                    &&& !old(self)@.names.contains_key(line_index as DocumentId)
                    &&& final(self)@ == old(self)@.with_document(
                        line_index as DocumentId,
                        record.name@,
                        listing_terms(views(record.files@)).to_set(),
                    )
                },
                Err(e) => {
                    &&& *final(self) == *old(self)
                    &&& if line_index > u32::MAX {
                        e == (BuildError::TooManyDocuments { line: line_index })
                    } else {
                        &&& old(self)@.names.contains_key(line_index as DocumentId)
                        &&& e == (BuildError::DuplicateDocument { id: line_index as DocumentId })
                    }
                },
            },
    {
        if line_index > u32::MAX as usize {
            return Err(BuildError::TooManyDocuments { line: line_index });
        }
        let id: DocumentId = line_index as DocumentId;
        if self.docs_by_id.contains_key(&id) {
            return Err(BuildError::DuplicateDocument { id });
        }
        let terms = extract_terms(&record.files);
        let ghost base = self@;
        let ghost listing = views(terms@);
        let ghost start_total = self.posting_count();
        let mut count: usize = 0;
        let mut k: usize = 0;
        proof {
            assert(listing.take(0).to_set() =~= Set::<Seq<char>>::empty());
            assert(postings_map(self.terms_to_docs@) =~= add_postings(
                base.postings,
                id,
                seen_terms(listing, 0),
            ));
        }
        while k < terms.len()
            invariant
                k <= terms.len(),
                listing == views(terms@),
                base.wf(),
                !base.names.contains_key(id),
                base == old(self)@,
                distinct_terms(self.terms_to_docs@),
                postings_map(self.terms_to_docs@) == add_postings(
                    base.postings,
                    id,
                    seen_terms(listing, k as int),
                ),
                seen_terms(listing, k as int).finite(),
                count == seen_terms(listing, k as int).len(),
                count <= k,
                posting_total(self.terms_to_docs@, self.terms_to_docs@.len() as int) == start_total
                    + count,
                self.doc_ids == old(self).doc_ids,
                self.docs_by_id == old(self).docs_by_id,
                self.doc_lengths == old(self).doc_lengths,
                self.num_docs == old(self).num_docs,
            decreases terms.len() - k,
        {
            let ghost seen = seen_terms(listing, k as int);
            let ghost t = listing[k as int];
            let ghost before = self.terms_to_docs@;
            proof {
                lemma_seen_terms_step(listing, k as int);
                assert(t == terms@[k as int]@);
            }
            match self.find_term(&terms[k]) {
                Some(j) => {
                    proof {
                        lemma_postings_map_at(before, j as int);
                        if base.postings.contains_key(t) {
                            lemma_unknown_doc_absent(base, id, t);
                        }
                    }
                    let n = self.terms_to_docs[j].docs.len();
                    let present = n > 0 && self.terms_to_docs[j].docs[n - 1] == id;
                    proof {
                        let list = before[j as int].docs@;
                        if seen.contains(t) {
                            assert(list[list.len() - 1] == id);
                        } else {
                            if n > 0 {
                                assert(base.postings[t].contains(list[n - 1]));
                            }
                        }
                        assert(present == seen.contains(t));
                    }
                    if !present {
                        self.terms_to_docs[j].docs.push(id);
                        count += 1;
                        proof {
                            let after = self.terms_to_docs@;
                            lemma_postings_map_update(before, after, j as int);
                            lemma_posting_total_update(
                                before,
                                after,
                                j as int,
                                before.len() as int,
                            );
                            assert(postings_map(after) =~= add_postings(
                                base.postings,
                                id,
                                seen.insert(t),
                            ));
                        }
                    } else {
                        assert(seen.insert(t) =~= seen);
                    }
                },
                None => {
                    let fresh = Posting { term: terms[k].clone(), docs: vec![id] };
                    proof {
                        lemma_postings_map_push(before, fresh);
                        assert(!postings_map(before).contains_key(t));
                        assert(!seen.contains(t));
                        assert(fresh.docs@ =~= seq![id]);
                        assert(postings_map(before.push(fresh)) =~= add_postings(
                            base.postings,
                            id,
                            seen.insert(t),
                        ));
                    }
                    self.terms_to_docs.push(fresh);
                    count += 1;
                },
            }
            k += 1;
        }
        proof {
            assert(listing.take(listing.len() as int) =~= listing);
            assert(listing == listing_terms(views(record.files@)));
            lemma_with_document_wf(base, id, record.name@, listing.to_set());
            lemma_length_total_push(
                self.doc_ids@,
                self.doc_lengths@,
                id,
                count,
                self.doc_ids@.len() as int,
            );
            assert(!self.doc_ids@.contains(id)) by {
                if self.doc_ids@.contains(id) {
                    assert(self.doc_ids@.to_set().contains(id));
                }
            }
        }
        self.idf = Vec::new();
        self.doc_ids.push(id);
        self.docs_by_id.insert(id, record.name.clone());
        self.doc_lengths.insert(id, count);
        self.num_docs = self.doc_ids.len();
        proof {
            let w = base.with_document(id, record.name@, listing.to_set());
            assert(self@.names =~= w.names);
            assert(self@.lengths =~= w.lengths);
            assert(self@.idf =~= w.idf);
            assert(self@.postings == w.postings);
            assert(self.doc_ids@.to_set() =~= self.docs_by_id@.dom()) by {
                let a = old(self).doc_ids@;
                let b = self.doc_ids@;
                assert forall|d: DocumentId| b.to_set().contains(d) <==> a.to_set().insert(
                    id,
                ).contains(d) by {
                    if b.contains(d) {
                        let i = choose|i: int| 0 <= i < b.len() && b[i] == d;
                        if i < a.len() {
                            assert(a[i] == d);
                        }
                    }
                    if a.contains(d) {
                        let i = choose|i: int| 0 <= i < a.len() && a[i] == d;
                        assert(b[i] == d);
                    }
                    assert(b[a.len() as int] == id);
                }
            }
            assert(self.doc_ids@.no_duplicates());
            old(self).doc_ids@.unique_seq_to_set();
            assert(base.names.dom() =~= old(self).docs_by_id@.dom());
            assert(self.num_docs == w.num_docs);
            assert(self@ == w);
        }
        Ok(())
    }
}

/// Builds the index of a corpus from what reading its lines gave.
///
/// Of the lines only the first `limit` are looked at, where a limit is given.
/// The record on line `i` becomes document `i`. The build fails at the first
/// line that could not be read, is no record, or has a number that is no
/// document id, and then returns that line's error and no index.
pub fn load_data(lines: &Vec<CorpusLine>, limit: Option<usize>) -> (r: Result<
    IndexedData,
    BuildError,
>)
    ensures
        match r {
            Ok(index) => {
                &&& index.wf()
                &&& forall|i: int|
                    0 <= i < taken(lines@.len(), limit) ==> line_error(lines@, i) is None
                &&& index@ == built(lines@, taken(lines@.len(), limit) as int).with_weights()
            },
            Err(e) => exists|i: int|
                {
                    &&& 0 <= i < taken(lines@.len(), limit)
                    &&& #[trigger] line_error(lines@, i) == Some(e)
                    &&& forall|k: int| 0 <= k < i ==> line_error(lines@, k) is None
                },
        },
{
    let n: usize = match limit {
        Some(l) => if l < lines.len() {
            l
        } else {
            lines.len()
        },
        None => lines.len(),
    };
    let mut index = IndexedData::new();
    let mut i: usize = 0;
    while i < n
        invariant
            i <= n <= lines@.len(),
            n == taken(lines@.len(), limit),
            index.wf(),
            index@ == built(lines@, i as int),
            forall|k: int| 0 <= k < i ==> line_error(lines@, k) is None,
            forall|d: DocumentId| #[trigger] index@.names.contains_key(d) ==> d < i,
        decreases n - i,
    {
        match &lines[i] {
            CorpusLine::Record(record) => {
                match index.add_record(i, record) {
                    Ok(_) => {},
                    Err(e) => {
                        assert(line_error(lines@, i as int) == Some(e));
                        return Err(e);
                    },
                }
            },
            CorpusLine::Malformed => {
                let e = BuildError::Malformed { line: i };
                assert(line_error(lines@, i as int) == Some(e));
                return Err(e);
            },
            CorpusLine::Unreadable => {
                let e = BuildError::Unreadable { line: i };
                assert(line_error(lines@, i as int) == Some(e));
                return Err(e);
            },
        }
        i += 1;
    }
    index.attach_idf();
    Ok(index)
}

} // verus!
