use data_collecting::document::Document;

fn average_word_length(text: &str) -> f64 {
    let (total, words) = Document::word_length_totals(text);
    if words == 0 {
        0.0
    } else {
        total as f64 / words as f64
    }
}

fn entries(v: &[(String, usize)]) -> Vec<(&str, usize)> {
    v.iter().map(|(w, n)| (w.as_str(), *n)).collect()
}

#[test]
fn test_count_words() {
    assert_eq!(Document::count_words("This is a test 1"), 5);
    assert_eq!(Document::count_words("This is a test"), 4);
    assert_eq!(Document::count_words("Word1, Word2, Word3"), 3);
    assert_eq!(Document::count_words("  Multiple    spaces   "), 2);
    assert_eq!(Document::count_words(""), 0);
}

#[test]
fn test_count_characters() {
    assert_eq!(Document::count_characters("This is a test"), 11);
    assert_eq!(Document::count_characters("Word1, Word2, Word3"), 17);
    assert_eq!(Document::count_characters("  Multiple    spaces   "), 14);
    assert_eq!(Document::count_characters(""), 0);
}

#[test]
fn test_line_count() {
    assert_eq!(Document::line_count("This is a test\nWith multiple lines\nis it correct\n"), 3);
    assert_eq!(Document::line_count("This is a test\nWith multiple lines\n"), 2);
    assert_eq!(Document::line_count("No newline character"), 1);
    assert_eq!(Document::line_count(""), 0);
}

#[test]
fn test_calculate_average_word_length() {
    assert_eq!(average_word_length("This is a test"), 2.75);
    assert_eq!(average_word_length("Word1, Word2, Word3"), 5.666666666666667);
    assert_eq!(average_word_length("  Multiple    spaces   "), 7.0);
    assert_eq!(average_word_length(""), 0.0);
}

#[test]
fn test_is_valid_word() {
    assert!(Document::is_valid_word("ValidWord"));
    assert!(!Document::is_valid_word("Invalid@Word"));
    assert!(Document::is_valid_word(""));
}

#[test]
fn test_clean_word() {
    assert_eq!(Document::clean_word("CleanWord123"), "CleanWord123");
    assert_eq!(Document::clean_word("Word#1"), "Word1");
    assert_eq!(Document::clean_word(""), "");
}

#[test]
fn repeated_whitespace_does_not_change_word_count() {
    assert_eq!(Document::count_words("a   b"), 2);
    assert_eq!(Document::count_words("a b"), 2);
    assert_eq!(Document::count_words("a\t\n b\u{3000}\u{3000}c"), 3);
}

#[test]
fn unicode_whitespace_and_letters() {
    assert_eq!(Document::count_words("é\u{a0}ü"), 2);
    assert_eq!(Document::count_characters("é\u{a0}ü"), 2);
    assert_eq!(Document::clean_word("naïve-日本"), "naïve日本");
    assert!(Document::is_valid_word("日本語123"));
}

#[test]
fn line_count_edge_cases() {
    assert_eq!(Document::line_count("a\nb\nc\n"), 3);
    assert_eq!(Document::line_count("a\nb\n"), 2);
    assert_eq!(Document::line_count("\n"), 1);
    assert_eq!(Document::line_count("\n\nx"), 3);
}

#[test]
fn word_length_totals_values() {
    assert_eq!(Document::word_length_totals("Word1, Word2, Word3"), (17, 3));
    assert_eq!(Document::word_length_totals("   "), (0, 0));
}

#[test]
fn common_words_ranked_with_first_seen_ties() {
    let r = Document::find_most_common_words("dog cat, cat! dog? bird ... cat");
    assert_eq!(entries(&r), vec![("cat", 3), ("dog", 2), ("bird", 1)]);
}

#[test]
fn common_words_skip_empty_and_keep_five() {
    let r = Document::find_most_common_words("a b c d e f g ?? a !");
    assert_eq!(entries(&r), vec![("a", 2), ("b", 1), ("c", 1), ("d", 1), ("e", 1)]);
    assert!(Document::find_most_common_words("").is_empty());
    assert!(Document::find_most_common_words("?! ...").is_empty());
}

#[test]
fn common_words_are_case_sensitive() {
    let r = Document::find_most_common_words("Cat cat CAT cat");
    assert_eq!(entries(&r), vec![("cat", 2), ("Cat", 1), ("CAT", 1)]);
}

#[test]
fn make_document_fills_every_field() {
    let d = Document::make_document("a.txt", "cat cat dog\nend");
    assert_eq!(d.name, "a.txt");
    assert_eq!(d.content, "cat cat dog\nend");
    assert_eq!(d.word_count, 4);
    assert_eq!(d.line_count, 2);
    assert_eq!(d.cha_count, 12);
    assert_eq!(entries(&d.com_words), vec![("cat", 2), ("dog", 1), ("end", 1)]);
    assert_eq!(d.word_length_total(), 12);
    let c = d.copy();
    assert_eq!(c.name, d.name);
    assert_eq!(entries(&c.com_words), entries(&d.com_words));
}
