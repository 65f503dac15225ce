use labs2024::{
    extract_terms, load_data, split_path, BuildError, CorpusLine, FileData, Idf, IndexedData,
};

fn record(name: &str, files: &[&str]) -> FileData {
    FileData { name: name.to_string(), files: files.iter().map(|f| f.to_string()).collect() }
}

fn docs_of(index: &IndexedData, term: &str) -> Option<Vec<u32>> {
    index.terms_to_docs.iter().find(|p| p.term == term).map(|p| p.docs.clone())
}

fn two_docs() -> IndexedData {
    let lines = vec![
        CorpusLine::Record(record("doc-a", &["a/b/c", "a/b/d"])),
        CorpusLine::Record(record("doc-b", &["a/x/c"])),
    ];
    load_data(&lines, None).unwrap()
}

#[test]
fn split_path_gives_the_components() {
    assert_eq!(split_path("a/b/c"), vec!["a", "b", "c"]);
    assert_eq!(split_path("file.txt"), vec!["file.txt"]);
}

#[test]
fn split_path_keeps_empty_components() {
    assert_eq!(split_path(""), vec![""]);
    assert_eq!(split_path("/"), vec!["", ""]);
    assert_eq!(split_path("dir/"), vec!["dir", ""]);
    assert_eq!(split_path("/root"), vec!["", "root"]);
    assert_eq!(split_path("a//b"), vec!["a", "", "b"]);
}

#[test]
fn split_path_counts_characters_not_bytes() {
    assert_eq!(split_path("é/ü/日本"), vec!["é", "ü", "日本"]);
}

#[test]
fn split_path_is_case_sensitive() {
    assert_eq!(split_path("A/a"), vec!["A", "a"]);
}

#[test]
fn extract_terms_walks_the_listing_in_order() {
    let files = vec!["a/b".to_string(), "c".to_string(), "a/d".to_string()];
    assert_eq!(extract_terms(&files), vec!["a", "b", "c", "a", "d"]);
    assert_eq!(extract_terms(&Vec::new()), Vec::<String>::new());
}

#[test]
fn new_index_is_empty() {
    let index = IndexedData::new();
    assert!(index.terms_to_docs.is_empty());
    assert!(index.doc_ids.is_empty());
    assert!(index.docs_by_id.is_empty());
    assert!(index.doc_lengths.is_empty());
    assert!(index.idf.is_empty());
    assert_eq!(index.num_docs, 0);
}

#[test]
fn repeated_component_is_listed_once() {
    let mut index = IndexedData::new();
    index.add_record(0, &record("r", &["a/b", "a/c", "a/b"])).unwrap();
    assert_eq!(docs_of(&index, "a"), Some(vec![0]));
    assert_eq!(docs_of(&index, "b"), Some(vec![0]));
    assert_eq!(docs_of(&index, "c"), Some(vec![0]));
    assert_eq!(index.doc_lengths[&0], 3);
    assert_eq!(index.terms_to_docs.len(), 3);
}

#[test]
fn repeated_component_after_another_document() {
    let mut index = IndexedData::new();
    index.add_record(0, &record("first", &["a/b"])).unwrap();
    index.add_record(1, &record("second", &["a/c", "b/a", "c/a"])).unwrap();
    assert_eq!(docs_of(&index, "a"), Some(vec![0, 1]));
    assert_eq!(docs_of(&index, "b"), Some(vec![0, 1]));
    assert_eq!(docs_of(&index, "c"), Some(vec![1]));
    assert_eq!(index.doc_lengths[&0], 2);
    assert_eq!(index.doc_lengths[&1], 3);
}

#[test]
fn add_record_keeps_name_and_count() {
    let mut index = IndexedData::new();
    index.add_record(7, &record("seven", &["x"])).unwrap();
    assert_eq!(index.docs_by_id[&7], "seven");
    assert_eq!(index.doc_ids, vec![7]);
    assert_eq!(index.num_docs, 1);
}

#[test]
fn add_record_without_files_has_length_zero() {
    let mut index = IndexedData::new();
    index.add_record(0, &record("bare", &[])).unwrap();
    assert_eq!(index.doc_lengths[&0], 0);
    assert!(index.terms_to_docs.is_empty());
    assert_eq!(index.num_docs, 1);
}

#[test]
fn add_record_clears_the_weights() {
    let mut index = two_docs();
    assert!(!index.idf.is_empty());
    index.add_record(2, &record("doc-c", &["q"])).unwrap();
    assert!(index.idf.is_empty());
}

#[test]
fn add_record_refuses_a_line_beyond_the_id_range() {
    let mut index = IndexedData::new();
    let line = u32::MAX as usize + 1;
    let r = index.add_record(line, &record("late", &["a"]));
    assert_eq!(r, Err(BuildError::TooManyDocuments { line }));
    assert_eq!(index.num_docs, 0);
    assert!(index.terms_to_docs.is_empty());
}

#[test]
fn add_record_takes_the_last_id() {
    let mut index = IndexedData::new();
    index.add_record(u32::MAX as usize, &record("last", &["a"])).unwrap();
    assert_eq!(docs_of(&index, "a"), Some(vec![u32::MAX]));
}

#[test]
fn add_record_refuses_a_known_id() {
    let mut index = IndexedData::new();
    index.add_record(3, &record("one", &["a"])).unwrap();
    let r = index.add_record(3, &record("two", &["b"]));
    assert_eq!(r, Err(BuildError::DuplicateDocument { id: 3 }));
    assert_eq!(index.docs_by_id[&3], "one");
    assert_eq!(docs_of(&index, "b"), None);
    assert_eq!(index.num_docs, 1);
}

#[test]
fn posting_lengths_sum_to_document_lengths() {
    let lines = vec![
        CorpusLine::Record(record("a", &["a/b/c", "a/b/d", "e"])),
        CorpusLine::Record(record("b", &["a/x/c", "x/x"])),
        CorpusLine::Record(record("c", &[])),
        CorpusLine::Record(record("d", &["e/e/e"])),
    ];
    let index = load_data(&lines, None).unwrap();
    let pairs: usize = index.terms_to_docs.iter().map(|p| p.docs.len()).sum();
    let lengths: usize = index.doc_lengths.values().sum();
    assert_eq!(pairs, lengths);
    assert_eq!(pairs, 5 + 3 + 0 + 1);
}

#[test]
fn load_data_numbers_documents_by_line() {
    let index = two_docs();
    assert_eq!(index.num_docs, 2);
    assert_eq!(index.docs_by_id[&0], "doc-a");
    assert_eq!(index.docs_by_id[&1], "doc-b");
    assert_eq!(index.doc_lengths[&0], 4);
    assert_eq!(index.doc_lengths[&1], 3);
    assert_eq!(docs_of(&index, "a"), Some(vec![0, 1]));
    assert_eq!(docs_of(&index, "b"), Some(vec![0]));
    assert_eq!(docs_of(&index, "c"), Some(vec![0, 1]));
    assert_eq!(docs_of(&index, "d"), Some(vec![0]));
    assert_eq!(docs_of(&index, "x"), Some(vec![1]));
}

#[test]
fn load_data_of_nothing_is_empty() {
    let index = load_data(&Vec::new(), None).unwrap();
    assert_eq!(index.num_docs, 0);
    assert!(index.terms_to_docs.is_empty());
    assert!(index.idf.is_empty());
}

#[test]
fn load_data_stops_at_the_limit() {
    let lines = vec![
        CorpusLine::Record(record("a", &["a"])),
        CorpusLine::Record(record("b", &["b"])),
        CorpusLine::Malformed,
    ];
    let index = load_data(&lines, Some(2)).unwrap();
    assert_eq!(index.num_docs, 2);
    let index = load_data(&lines, Some(1)).unwrap();
    assert_eq!(index.num_docs, 1);
    assert_eq!(docs_of(&index, "b"), None);
    let index = load_data(&lines, Some(0)).unwrap();
    assert_eq!(index.num_docs, 0);
}

#[test]
fn load_data_with_a_wide_limit_reads_all() {
    let lines = vec![CorpusLine::Record(record("a", &["a"]))];
    let index = load_data(&lines, Some(100)).unwrap();
    assert_eq!(index.num_docs, 1);
}

#[test]
fn load_data_fails_on_a_malformed_line() {
    let lines = vec![
        CorpusLine::Record(record("a", &["a"])),
        CorpusLine::Malformed,
        CorpusLine::Record(record("b", &["b"])),
    ];
    assert_eq!(load_data(&lines, None).err(), Some(BuildError::Malformed { line: 1 }));
    assert_eq!(load_data(&lines, Some(2)).err(), Some(BuildError::Malformed { line: 1 }));
}

#[test]
fn load_data_fails_on_an_unreadable_line() {
    let lines = vec![CorpusLine::Unreadable, CorpusLine::Malformed];
    assert_eq!(load_data(&lines, None).err(), Some(BuildError::Unreadable { line: 0 }));
}

#[test]
fn load_data_reports_the_first_failure() {
    let lines = vec![
        CorpusLine::Record(record("a", &["a"])),
        CorpusLine::Malformed,
        CorpusLine::Unreadable,
    ];
    assert_eq!(load_data(&lines, None).err(), Some(BuildError::Malformed { line: 1 }));
}

#[test]
fn weights_count_documents_with_and_without() {
    let index = two_docs();
    assert_eq!(index.idf.len(), index.terms_to_docs.len());
    for (posting, weight) in index.terms_to_docs.iter().zip(index.idf.iter()) {
        assert_eq!(weight.docs_with, posting.docs.len());
        assert_eq!(weight.docs_without, 2 - posting.docs.len());
    }
    let at = index.terms_to_docs.iter().position(|p| p.term == "b").unwrap();
    assert_eq!(index.idf[at], Idf { docs_without: 1, docs_with: 1 });
    let at = index.terms_to_docs.iter().position(|p| p.term == "a").unwrap();
    assert_eq!(index.idf[at], Idf { docs_without: 0, docs_with: 2 });
}

fn weight(idf: &Idf) -> f64 {
    ((idf.docs_without as f64 + 0.5) / (idf.docs_with as f64 + 0.5)).ln()
}

#[test]
fn weight_of_a_term_in_every_document_is_negative() {
    let index = two_docs();
    let at = index.terms_to_docs.iter().position(|p| p.term == "a").unwrap();
    let w = weight(&index.idf[at]);
    assert!(w < 0.0);
    assert!((w - (0.5f64 / 2.5).ln()).abs() < 1e-12);
}

#[test]
fn weight_of_a_rare_term_is_large() {
    let mut lines = vec![CorpusLine::Record(record("rare", &["needle"]))];
    for i in 0..999 {
        lines.push(CorpusLine::Record(record(&format!("d{i}"), &["hay"])));
    }
    let index = load_data(&lines, None).unwrap();
    let at = index.terms_to_docs.iter().position(|p| p.term == "needle").unwrap();
    assert_eq!(index.idf[at], Idf { docs_without: 999, docs_with: 1 });
    let w = weight(&index.idf[at]);
    assert!((w - (999.5f64 / 1.5).ln()).abs() < 1e-12);
    assert!(w > 6.0);
    let at = index.terms_to_docs.iter().position(|p| p.term == "hay").unwrap();
    assert!(weight(&index.idf[at]) < 0.0);
}

#[test]
fn weight_of_a_term_in_half_the_documents_is_zero() {
    let index = two_docs();
    let at = index.terms_to_docs.iter().position(|p| p.term == "x").unwrap();
    assert_eq!(weight(&index.idf[at]), 0.0);
}

#[test]
fn compute_idf_follows_the_postings() {
    let mut index = IndexedData::new();
    index.add_record(0, &record("a", &["t/u"])).unwrap();
    index.add_record(1, &record("b", &["t"])).unwrap();
    index.add_record(2, &record("c", &["t"])).unwrap();
    let weights = index.compute_idf();
    assert_eq!(weights.len(), 2);
    let at = index.find_term(&"t".to_string()).unwrap();
    assert_eq!(weights[at], Idf { docs_without: 0, docs_with: 3 });
    let at = index.find_term(&"u".to_string()).unwrap();
    assert_eq!(weights[at], Idf { docs_without: 2, docs_with: 1 });
    assert!(index.idf.is_empty());
    index.attach_idf();
    assert_eq!(index.idf, weights);
}

#[test]
fn find_term_tells_present_from_absent() {
    let index = two_docs();
    let at = index.find_term(&"x".to_string()).unwrap();
    assert_eq!(index.terms_to_docs[at].term, "x");
    assert_eq!(index.find_term(&"X".to_string()), None);
    assert_eq!(index.find_term(&"".to_string()), None);
}
