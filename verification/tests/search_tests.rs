use labs2024::{
    load_data, run_search, search, BuildError, CorpusLine, FileData, IndexedData, Score,
    SearchData, SearchMatch,
};

fn record(name: &str, files: &[&str]) -> FileData {
    FileData { name: name.to_string(), files: files.iter().map(|f| f.to_string()).collect() }
}

fn build(records: &[(&str, &[&str])]) -> IndexedData {
    let lines: Vec<CorpusLine> =
        records.iter().map(|(n, f)| CorpusLine::Record(record(n, f))).collect();
    load_data(&lines, None).unwrap()
}

fn two_docs() -> IndexedData {
    build(&[("doc-a", &["a/b/c", "a/b/d"]), ("doc-b", &["a/x/c"])])
}

fn terms(list: &[&str]) -> Vec<String> {
    list.iter().map(|t| t.to_string()).collect()
}

fn half() -> Score {
    Score { num: 1, den: 2 }
}

fn value(score: &Score) -> f64 {
    score.num as f64 / score.den as f64
}

fn names(matches: &[SearchMatch]) -> Vec<String> {
    matches.iter().map(|m| m.md5.clone()).collect()
}

#[test]
fn example_scenario() {
    let index = two_docs();
    let out = run_search(&index, terms(&["a", "c"]), half(), 10);
    assert_eq!(names(&out), vec!["doc-b", "doc-a"]);
    assert_eq!(out[0].score, Score { num: 2, den: 3 });
    assert_eq!(out[1].score, Score { num: 2, den: 4 });
    assert!((value(&out[0].score) - 0.667).abs() < 0.001);
    assert_eq!(value(&out[1].score), 0.5);
    assert_eq!(out[0].matched_terms, vec!["a", "c"]);
    assert_eq!(out[1].matched_terms, vec!["a", "c"]);
}

#[test]
fn empty_query_matches_nothing() {
    let index = two_docs();
    assert!(run_search(&index, Vec::new(), Score::zero(), usize::MAX).is_empty());
    assert!(run_search(&IndexedData::new(), Vec::new(), Score::zero(), 10).is_empty());
}

#[test]
fn unknown_terms_match_nothing() {
    let index = two_docs();
    assert!(run_search(&index, terms(&["nope", "A"]), Score::zero(), 10).is_empty());
}

#[test]
fn search_in_an_empty_index_matches_nothing() {
    assert!(run_search(&IndexedData::new(), terms(&["a"]), Score::zero(), 10).is_empty());
}

#[test]
fn score_is_matched_over_union() {
    let index = two_docs();
    let out = run_search(&index, terms(&["b", "x", "zz"]), Score::zero(), 10);
    // doc-a: 1 of {b,x,zz} against 4 terms: 1 / (3 + 4 - 1); doc-b: 1 / (3 + 3 - 1)
    assert_eq!(names(&out), vec!["doc-b", "doc-a"]);
    assert_eq!(out[0].score, Score { num: 1, den: 5 });
    assert_eq!(out[1].score, Score { num: 1, den: 6 });
    assert_eq!(out[0].matched_terms, vec!["x"]);
    assert_eq!(out[1].matched_terms, vec!["b"]);
}

#[test]
fn score_is_one_for_the_documents_own_terms() {
    let index = two_docs();
    let out = run_search(&index, terms(&["x", "c", "a"]), Score { num: 1, den: 1 }, 10);
    assert_eq!(names(&out), vec!["doc-b"]);
    assert_eq!(out[0].score, Score { num: 3, den: 3 });
    assert_eq!(out[0].matched_terms, vec!["x", "c", "a"]);
}

#[test]
fn score_is_below_one_for_a_part_or_more_than_the_terms() {
    let index = two_docs();
    let part = run_search(&index, terms(&["a", "x"]), Score::zero(), 10);
    let b = part.iter().find(|m| m.md5 == "doc-b").unwrap();
    assert_eq!(b.score, Score { num: 2, den: 3 });
    let more = run_search(&index, terms(&["a", "x", "c", "other"]), Score::zero(), 10);
    let b = more.iter().find(|m| m.md5 == "doc-b").unwrap();
    assert_eq!(b.score, Score { num: 3, den: 4 });
}

#[test]
fn scores_stay_between_zero_and_one() {
    let index = build(&[
        ("p", &["a/b/c/d/e"]),
        ("q", &["a"]),
        ("r", &["b/c", "f/g/h"]),
        ("s", &["e/e/e"]),
    ]);
    let out = run_search(&index, terms(&["a", "b", "e", "h", "none"]), Score::zero(), 100);
    assert_eq!(out.len(), 4);
    for m in &out {
        assert!(m.score.num > 0);
        assert!(m.score.num <= m.score.den);
        assert!(value(&m.score) > 0.0 && value(&m.score) <= 1.0);
    }
}

#[test]
fn repeated_query_terms_count_once() {
    let index = two_docs();
    let out = run_search(&index, terms(&["a", "c", "a", "a", "c"]), half(), 10);
    assert_eq!(names(&out), vec!["doc-b", "doc-a"]);
    assert_eq!(out[0].score, Score { num: 2, den: 3 });
    assert_eq!(out[1].score, Score { num: 2, den: 4 });
    assert_eq!(out[0].matched_terms, vec!["a", "c"]);
}

#[test]
fn matched_terms_follow_the_query() {
    let index = two_docs();
    let out = run_search(&index, terms(&["d", "zz", "a", "b"]), Score::zero(), 10);
    let a = out.iter().find(|m| m.md5 == "doc-a").unwrap();
    assert_eq!(a.matched_terms, vec!["d", "a", "b"]);
    let b = out.iter().find(|m| m.md5 == "doc-b").unwrap();
    assert_eq!(b.matched_terms, vec!["a"]);
}

#[test]
fn score_equal_to_the_threshold_is_kept() {
    let index = two_docs();
    let out = run_search(&index, terms(&["a", "c"]), Score { num: 2, den: 3 }, 10);
    assert_eq!(names(&out), vec!["doc-b"]);
    let out = run_search(&index, terms(&["a", "c"]), Score { num: 4, den: 6 }, 10);
    assert_eq!(names(&out), vec!["doc-b"]);
}

#[test]
fn score_below_the_threshold_is_dropped() {
    let index = two_docs();
    let out = run_search(&index, terms(&["a", "c"]), Score { num: 67, den: 100 }, 10);
    assert!(out.is_empty());
    let out = run_search(&index, terms(&["a", "c"]), Score { num: 51, den: 100 }, 10);
    assert_eq!(names(&out), vec!["doc-b"]);
}

#[test]
fn threshold_without_denominator_admits_nothing() {
    let index = two_docs();
    assert!(run_search(&index, terms(&["a"]), Score { num: 1, den: 0 }, 10).is_empty());
    assert_eq!(run_search(&index, terms(&["a"]), Score { num: 0, den: 0 }, 10).len(), 2);
}

#[test]
fn answer_is_cut_at_the_limit() {
    let index = two_docs();
    let out = run_search(&index, terms(&["a", "c"]), Score::zero(), 1);
    assert_eq!(names(&out), vec!["doc-b"]);
    assert!(run_search(&index, terms(&["a", "c"]), Score::zero(), 0).is_empty());
    assert_eq!(run_search(&index, terms(&["a", "c"]), Score::zero(), 2).len(), 2);
}

#[test]
fn threshold_and_limit_hold_together() {
    let mut records: Vec<(String, Vec<String>)> = Vec::new();
    for i in 0..30usize {
        let mut files = vec!["k".to_string()];
        for j in 0..(i % 6) {
            files.push(format!("extra{j}"));
        }
        records.push((format!("doc{i}"), files));
    }
    let lines: Vec<CorpusLine> = records
        .iter()
        .map(|(n, f)| CorpusLine::Record(FileData { name: n.clone(), files: f.clone() }))
        .collect();
    let index = load_data(&lines, None).unwrap();
    let out = run_search(&index, terms(&["k"]), half(), 10);
    assert_eq!(out.len(), 10);
    for m in &out {
        assert!(value(&m.score) >= 0.5);
    }
    for pair in out.windows(2) {
        assert!(value(&pair[0].score) >= value(&pair[1].score));
    }
    // five documents hold `k` alone, five more hold one other term
    assert_eq!(names(&out), vec![
        "doc0", "doc6", "doc12", "doc18", "doc24", "doc1", "doc7", "doc13", "doc19", "doc25"
    ]);
    let all = run_search(&index, terms(&["k"]), half(), usize::MAX);
    assert_eq!(all.len(), 10);
    let loose = run_search(&index, terms(&["k"]), Score::zero(), usize::MAX);
    assert_eq!(loose.len(), 30);
}

#[test]
fn equal_scores_stand_in_the_order_of_ids() {
    let index = build(&[("z", &["t/u"]), ("y", &["t/v"]), ("x", &["t/w"]), ("w", &["t"])]);
    let out = run_search(&index, terms(&["t"]), Score::zero(), 10);
    assert_eq!(names(&out), vec!["w", "z", "y", "x"]);
    let out = run_search(&index, terms(&["w", "t"]), Score::zero(), 10);
    // x: 2/2, w: 1/2, z and y: 1/3
    assert_eq!(names(&out), vec!["x", "w", "z", "y"]);
}

#[test]
fn search_applies_the_defaults() {
    let index = two_docs();
    let request = SearchData { terms: terms(&["a", "c"]), max_length: None, min_score: None };
    let result = search(&index, request);
    assert_eq!(names(&result.matches), vec!["doc-b", "doc-a"]);
}

#[test]
fn search_applies_the_limits_of_the_request() {
    let index = two_docs();
    let request =
        SearchData { terms: terms(&["a", "c"]), max_length: Some(10), min_score: Some(half()) };
    assert_eq!(names(&search(&index, request).matches), vec!["doc-b", "doc-a"]);
    let request = SearchData {
        terms: terms(&["a", "c"]),
        max_length: Some(1),
        min_score: Some(Score { num: 3, den: 5 }),
    };
    assert_eq!(names(&search(&index, request).matches), vec!["doc-b"]);
    let request = SearchData { terms: terms(&["a"]), max_length: Some(0), min_score: None };
    assert!(search(&index, request).matches.is_empty());
}

#[test]
fn score_comparisons_are_exact() {
    let third = Score { num: 1, den: 3 };
    let two_sixths = Score { num: 2, den: 6 };
    assert!(third.same_value(&two_sixths));
    assert!(!third.less_than(&two_sixths));
    assert!(third.less_than(&half()));
    assert!(!half().less_than(&third));
    let big = Score { num: u64::MAX, den: u64::MAX };
    let nearly = Score { num: u64::MAX - 1, den: u64::MAX };
    assert!(nearly.less_than(&big));
    assert!(!big.less_than(&nearly));
    assert!(big.same_value(&Score { num: 1, den: 1 }));
    assert_eq!(Score::zero(), Score { num: 0, den: 1 });
}

#[test]
fn merge_joins_partial_indexes() {
    let mut left = IndexedData::new();
    left.add_record(0, &record("doc-a", &["a/b/c", "a/b/d"])).unwrap();
    let mut right = IndexedData::new();
    right.add_record(1, &record("doc-b", &["a/x/c"])).unwrap();
    left.merge(right).unwrap();
    left.attach_idf();
    assert_eq!(left.num_docs, 2);
    assert_eq!(left.docs_by_id[&0], "doc-a");
    assert_eq!(left.docs_by_id[&1], "doc-b");
    assert_eq!(left.doc_lengths[&0], 4);
    assert_eq!(left.doc_lengths[&1], 3);
    let a = left.terms_to_docs.iter().find(|p| p.term == "a").unwrap();
    assert_eq!(a.docs, vec![0, 1]);
    let x = left.terms_to_docs.iter().find(|p| p.term == "x").unwrap();
    assert_eq!(x.docs, vec![1]);
    let out = run_search(&left, terms(&["a", "c"]), half(), 10);
    assert_eq!(names(&out), vec!["doc-b", "doc-a"]);
    assert_eq!(out[0].score, Score { num: 2, den: 3 });
}

#[test]
fn merge_appends_the_documents_of_the_chunk() {
    let mut left = IndexedData::new();
    left.add_record(5, &record("five", &["t"])).unwrap();
    let mut right = IndexedData::new();
    right.add_record(2, &record("two", &["t"])).unwrap();
    right.add_record(3, &record("three", &["t/u"])).unwrap();
    left.merge(right).unwrap();
    let t = left.terms_to_docs.iter().find(|p| p.term == "t").unwrap();
    assert_eq!(t.docs, vec![5, 2, 3]);
    assert_eq!(left.num_docs, 3);
    assert!(left.idf.is_empty());
    let pairs: usize = left.terms_to_docs.iter().map(|p| p.docs.len()).sum();
    let lengths: usize = left.doc_lengths.values().sum();
    assert_eq!(pairs, lengths);
}

#[test]
fn merge_in_any_pairing_answers_alike() {
    let part = |id: usize, name: &str, files: &[&str]| {
        let mut index = IndexedData::new();
        index.add_record(id, &record(name, files)).unwrap();
        index
    };
    let mut first = part(0, "p", &["a/b"]);
    let mut second = part(1, "q", &["a/c"]);
    second.merge(part(2, "r", &["b/c"])).unwrap();
    first.merge(second).unwrap();
    let mut other = part(0, "p", &["a/b"]);
    other.merge(part(1, "q", &["a/c"])).unwrap();
    other.merge(part(2, "r", &["b/c"])).unwrap();
    let query = terms(&["a", "b", "c"]);
    let one = run_search(&first, query.clone(), Score::zero(), 10);
    let two = run_search(&other, query, Score::zero(), 10);
    assert_eq!(names(&one), names(&two));
    assert_eq!(names(&one), vec!["p", "q", "r"]);
    for (x, y) in one.iter().zip(two.iter()) {
        assert_eq!(x.score, y.score);
        assert_eq!(x.matched_terms, y.matched_terms);
    }
}

#[test]
fn merge_with_an_empty_index_changes_nothing() {
    let mut index = two_docs();
    index.merge(IndexedData::new()).unwrap();
    assert_eq!(index.num_docs, 2);
    assert_eq!(index.terms_to_docs.len(), 5);
    let mut empty = IndexedData::new();
    empty.merge(two_docs()).unwrap();
    assert_eq!(empty.num_docs, 2);
    assert_eq!(empty.terms_to_docs.len(), 5);
    let out = run_search(&empty, terms(&["a", "c"]), half(), 10);
    assert_eq!(names(&out), vec!["doc-b", "doc-a"]);
}

#[test]
fn merge_refuses_a_shared_document() {
    let mut left = IndexedData::new();
    left.add_record(0, &record("zero", &["a"])).unwrap();
    left.add_record(1, &record("one", &["b"])).unwrap();
    let mut right = IndexedData::new();
    right.add_record(2, &record("two", &["c"])).unwrap();
    right.add_record(1, &record("uno", &["d"])).unwrap();
    assert_eq!(left.merge(right), Err(BuildError::DuplicateDocument { id: 1 }));
    assert_eq!(left.num_docs, 2);
    assert_eq!(left.terms_to_docs.len(), 2);
    assert_eq!(left.docs_by_id[&1], "one");
}

#[test]
fn same_index_gives_the_same_answer() {
    let query = terms(&["a", "b", "x"]);
    let one = run_search(&two_docs(), query.clone(), Score::zero(), 10);
    let two = run_search(&two_docs(), query, Score::zero(), 10);
    assert_eq!(names(&one), names(&two));
    for (x, y) in one.iter().zip(two.iter()) {
        assert_eq!(x.score, y.score);
        assert_eq!(x.matched_terms, y.matched_terms);
    }
}
