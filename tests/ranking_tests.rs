use data_collecting::aggregate::AggregateStats;
use data_collecting::document::Document;
use data_collecting::ranking::Metric;
use data_collecting::search::find_word_lines;

fn names(docs: &[Document]) -> Vec<&str> {
    docs.iter().map(|d| d.name.as_str()).collect()
}

fn entries(v: &[(String, usize)]) -> Vec<(&str, usize)> {
    v.iter().map(|(w, n)| (w.as_str(), *n)).collect()
}

fn sample() -> Vec<Document> {
    vec![
        Document::make_document("one.txt", "x"),
        Document::make_document("three.txt", "a b c\nd\ne"),
        Document::make_document("two.txt", "p q\nr s\n"),
        Document::make_document("tie.txt", "u v\nw"),
    ]
}

#[test]
fn ranking_by_words_is_descending_and_stable() {
    let docs = sample();
    let r = Document::rank_by_word_count(&docs);
    assert_eq!(names(&r), vec!["three.txt", "two.txt", "tie.txt", "one.txt"]);
    for pair in r.windows(2) {
        assert!(pair[0].word_count >= pair[1].word_count);
    }
    assert_eq!(names(&docs), vec!["one.txt", "three.txt", "two.txt", "tie.txt"]);
}

#[test]
fn ranking_by_lines_and_characters() {
    let docs = sample();
    let r = Document::rank_by_line_count(&docs);
    assert_eq!(names(&r), vec!["three.txt", "two.txt", "tie.txt", "one.txt"]);
    let r = Document::rank_by_cha_count(&docs);
    assert_eq!(names(&r), vec!["three.txt", "two.txt", "tie.txt", "one.txt"]);
    let r = Document::rank(&docs, Metric::Line);
    assert_eq!(r[3].line_count, 1);
    assert_eq!(docs[0].metric_value(Metric::Cha), 1);
}

#[test]
fn ranking_empty_set() {
    assert!(Document::rank_by_word_count(&[]).is_empty());
}

#[test]
fn two_file_folder_scenario() {
    let docs = vec![
        Document::make_document("a.txt", "cat cat dog"),
        Document::make_document("b.txt", "dog bird bird bird"),
    ];
    let ranked = Document::rank_by_word_count(&docs);
    assert_eq!(names(&ranked), vec!["b.txt", "a.txt"]);
    let s: AggregateStats = Document::calculate_aggregate_stats(&ranked);
    assert_eq!(s.total_word_count, 7);
    assert_eq!(s.total_char_count, 24);
    assert_eq!(s.total_line_count, 2);
    assert_eq!(entries(&s.top_words), vec![("bird", 3), ("dog", 2), ("cat", 2)]);
    let s = Document::calculate_aggregate_stats(&docs);
    assert_eq!(entries(&s.top_words), vec![("bird", 3), ("cat", 2), ("dog", 2)]);
}

#[test]
fn aggregate_of_one_document_is_that_document() {
    let d = Document::make_document("d.txt", "a a b\nc, c c");
    let s = Document::calculate_aggregate_stats(&[d.copy()]);
    assert_eq!(s.total_word_count, d.word_count);
    assert_eq!(s.total_char_count, d.cha_count);
    assert_eq!(s.total_line_count, d.line_count);
    assert_eq!(entries(&s.top_words), entries(&d.com_words));
}

#[test]
fn aggregate_totals_ignore_order() {
    let docs = sample();
    let rev: Vec<Document> = docs.iter().rev().map(|d| d.copy()).collect();
    let a = Document::calculate_aggregate_stats(&docs);
    let b = Document::calculate_aggregate_stats(&rev);
    assert_eq!(a.total_word_count, b.total_word_count);
    assert_eq!(a.total_char_count, b.total_char_count);
    assert_eq!(a.total_line_count, b.total_line_count);
    assert_eq!(a.total_word_count, 13);
}

#[test]
fn aggregate_empty_set() {
    let s = Document::calculate_aggregate_stats(&[]);
    assert_eq!(s.total_word_count, 0);
    assert_eq!(s.total_char_count, 0);
    assert_eq!(s.total_line_count, 0);
    assert!(s.top_words.is_empty());
}

#[test]
fn aggregate_keeps_ten_words() {
    let docs = vec![
        Document::make_document("a", "w1 w2 w3 w4 w5 w1"),
        Document::make_document("b", "w6 w7 w8 w9 w10 w6 w6"),
        Document::make_document("c", "w11 w12 w1"),
    ];
    let s = Document::calculate_aggregate_stats(&docs);
    assert_eq!(s.top_words.len(), 10);
    assert_eq!(entries(&s.top_words)[..2], [("w1", 3), ("w6", 3)]);
}

#[test]
fn search_scenario() {
    assert_eq!(find_word_lines("hello world\ngoodbye", "hello"), vec![1]);
    assert_eq!(find_word_lines("hello world\ngoodbye\n", "hello"), vec![1]);
}

#[test]
fn search_line_endings() {
    assert_eq!(find_word_lines("a\r\nb\n\nab", "b"), vec![2, 4]);
    assert_eq!(find_word_lines("x\r\ny", "\r"), Vec::<usize>::new());
    assert_eq!(find_word_lines("x\ry", "\r"), vec![1]);
    assert_eq!(find_word_lines("", "a"), Vec::<usize>::new());
    assert_eq!(find_word_lines("\n\n", ""), vec![1, 2]);
    assert_eq!(find_word_lines("abcabd", "abd"), vec![1]);
    assert_eq!(find_word_lines("ab", "abc"), Vec::<usize>::new());
}
