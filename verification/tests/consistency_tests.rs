use labs2024::{load_data, run_search, CorpusLine, FileData, Idf, IndexedData, Posting, Score};

fn record(name: &str, files: &[&str]) -> FileData {
    FileData { name: name.to_string(), files: files.iter().map(|f| f.to_string()).collect() }
}

fn sample() -> IndexedData {
    let lines = vec![
        CorpusLine::Record(record("doc-a", &["a/b/c", "a/b/d"])),
        CorpusLine::Record(record("doc-b", &["a/x/c"])),
        CorpusLine::Record(record("doc-c", &[])),
    ];
    load_data(&lines, None).unwrap()
}

fn by_hand() -> IndexedData {
    let mut index = IndexedData::new();
    index.terms_to_docs.push(Posting { term: "t".to_string(), docs: vec![4, 9] });
    index.terms_to_docs.push(Posting { term: "u".to_string(), docs: vec![9] });
    index.doc_ids = vec![9, 4];
    index.docs_by_id.insert(4, "four".to_string());
    index.docs_by_id.insert(9, "nine".to_string());
    index.doc_lengths.insert(4, 1);
    index.doc_lengths.insert(9, 2);
    index.num_docs = 2;
    index
}

#[test]
fn built_index_is_consistent() {
    assert!(IndexedData::new().is_consistent());
    assert!(sample().is_consistent());
}

#[test]
fn merged_index_is_consistent() {
    let mut left = IndexedData::new();
    left.add_record(3, &record("x", &["a/b", "b/c"])).unwrap();
    let mut right = IndexedData::new();
    right.add_record(1, &record("y", &["c/d"])).unwrap();
    assert!(right.is_consistent());
    left.merge(right).unwrap();
    assert!(left.is_consistent());
    left.attach_idf();
    assert!(left.is_consistent());
}

#[test]
fn index_laid_out_by_hand_is_consistent() {
    let index = by_hand();
    assert!(index.is_consistent());
    let out = run_search(&index, vec!["u".to_string(), "t".to_string()], Score::zero(), 10);
    assert_eq!(out.len(), 2);
    assert_eq!(out[0].md5, "nine");
    assert_eq!(out[0].score, Score { num: 2, den: 2 });
    assert_eq!(out[1].md5, "four");
    assert_eq!(out[1].score, Score { num: 1, den: 2 });
}

#[test]
fn term_with_two_postings_is_refused() {
    let mut index = by_hand();
    index.terms_to_docs.push(Posting { term: "t".to_string(), docs: vec![] });
    assert!(!index.is_consistent());
}

#[test]
fn document_listed_twice_under_a_term_is_refused() {
    let mut index = by_hand();
    index.terms_to_docs[0].docs.push(4);
    assert!(!index.is_consistent());
}

#[test]
fn document_without_a_name_is_refused() {
    let mut index = by_hand();
    index.terms_to_docs[1].docs.push(5);
    assert!(!index.is_consistent());
    let mut index = by_hand();
    index.docs_by_id.remove(&4);
    assert!(!index.is_consistent());
}

#[test]
fn document_without_a_length_is_refused() {
    let mut index = by_hand();
    index.doc_lengths.remove(&4);
    assert!(!index.is_consistent());
    let mut index = by_hand();
    index.doc_lengths.remove(&4);
    index.doc_lengths.insert(5, 1);
    assert!(!index.is_consistent());
}

#[test]
fn wrong_length_is_refused() {
    let mut index = by_hand();
    index.doc_lengths.insert(4, 2);
    assert!(!index.is_consistent());
    let mut index = by_hand();
    index.doc_lengths.insert(9, 1);
    assert!(!index.is_consistent());
}

#[test]
fn wrong_document_list_is_refused() {
    let mut index = by_hand();
    index.doc_ids = vec![9];
    assert!(!index.is_consistent());
    let mut index = by_hand();
    index.doc_ids = vec![9, 4, 4];
    assert!(!index.is_consistent());
    let mut index = by_hand();
    index.doc_ids = vec![9, 5];
    assert!(!index.is_consistent());
}

#[test]
fn wrong_document_count_is_refused() {
    let mut index = by_hand();
    index.num_docs = 3;
    assert!(!index.is_consistent());
}

#[test]
fn wrong_number_of_weights_is_refused() {
    let mut index = by_hand();
    index.idf = vec![Idf { docs_without: 0, docs_with: 2 }];
    assert!(!index.is_consistent());
    index.idf.push(Idf { docs_without: 1, docs_with: 1 });
    assert!(index.is_consistent());
}

#[test]
fn empty_posting_list_is_accepted() {
    let mut index = by_hand();
    index.terms_to_docs.push(Posting { term: "v".to_string(), docs: vec![] });
    assert!(index.is_consistent());
    let out = run_search(&index, vec!["v".to_string()], Score::zero(), 10);
    assert!(out.is_empty());
}

#[test]
fn index_put_together_from_its_parts_answers_alike() {
    let built = sample();
    // the parts, as a snapshot would hold them: maps without an order
    let terms: std::collections::HashMap<String, Vec<u32>> =
        built.terms_to_docs.iter().map(|p| (p.term.clone(), p.docs.clone())).collect();
    let mut restored = IndexedData::new();
    let mut listed: Vec<(String, Vec<u32>)> = terms.into_iter().collect();
    listed.sort();
    listed.reverse();
    for (term, docs) in listed {
        restored.terms_to_docs.push(Posting { term, docs });
    }
    restored.docs_by_id = built.docs_by_id.clone();
    restored.doc_lengths = built.doc_lengths.clone();
    restored.doc_ids = built.docs_by_id.keys().copied().collect();
    restored.doc_ids.sort_unstable();
    restored.num_docs = built.num_docs;
    assert!(restored.is_consistent());
    restored.attach_idf();
    for posting in &built.terms_to_docs {
        let at = built.find_term(&posting.term).unwrap();
        let other = restored.find_term(&posting.term).unwrap();
        assert_eq!(built.idf[at], restored.idf[other]);
        assert_eq!(built.terms_to_docs[at].docs, restored.terms_to_docs[other].docs);
    }
    let query: Vec<String> = ["c", "a", "x", "nope"].iter().map(|t| t.to_string()).collect();
    let one = run_search(&built, query.clone(), Score { num: 1, den: 4 }, 10);
    let two = run_search(&restored, query, Score { num: 1, den: 4 }, 10);
    assert_eq!(one.len(), 2);
    assert_eq!(one.len(), two.len());
    for (x, y) in one.iter().zip(two.iter()) {
        assert_eq!(x.md5, y.md5);
        assert_eq!(x.score, y.score);
        assert_eq!(x.matched_terms, y.matched_terms);
    }
}
