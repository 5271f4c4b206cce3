use showcase::search::{count_terms, document_frequencies, document_terms, sample_documents, Analyzer, Document};

fn strings(v: &[&str]) -> Vec<String> {
    v.iter().map(|s| s.to_string()).collect()
}

#[test]
fn cjk_text_is_ngrammed() {
    let analyzer = Analyzer::new(2);
    let terms = analyzer.analyze("全文検索");

    assert!(terms.iter().any(|term| term == "全文検索"));
    assert!(terms.iter().any(|term| term == "全文"));
    assert!(terms.iter().any(|term| term == "検索"));
}

#[test]
fn cjk_run_gives_run_and_bigrams_in_order() {
    let terms = Analyzer::new(2).analyze("全文検索");
    assert_eq!(terms, strings(&["全文検索", "全文", "文検", "検索"]));
}

#[test]
fn ascii_words_are_lowercased_and_split() {
    let terms = Analyzer::default().analyze("Rust 検索");
    assert_eq!(terms, strings(&["rust", "検索"]));
}

#[test]
fn punctuation_separates_terms() {
    let terms = Analyzer::default().analyze("TF-IDF, HTTP API!");
    assert_eq!(terms, strings(&["tf", "idf", "http", "api"]));
}

#[test]
fn ascii_and_cjk_runs_split_each_other() {
    let terms = Analyzer::new(2).analyze("Rustで作る");
    assert_eq!(terms, strings(&["rust", "で作る", "で作", "作る"]));
}

#[test]
fn run_as_long_as_ngram_gives_one_term() {
    let terms = Analyzer::new(3).analyze("検索す");
    assert_eq!(terms, strings(&["検索す"]));
}

#[test]
fn zero_ngram_acts_as_unigram() {
    let terms = Analyzer::new(0).analyze("検索");
    assert_eq!(terms, strings(&["検索", "検", "索"]));
}

#[test]
fn empty_and_separator_only_text_have_no_terms() {
    assert!(Analyzer::default().analyze("").is_empty());
    assert!(Analyzer::default().analyze(" 、。!? ").is_empty());
}

#[test]
fn count_terms_keeps_first_occurrence_order() {
    let counts = count_terms(strings(&["b", "a", "b", "c", "b", "a"]));
    assert_eq!(
        counts,
        vec![("b".to_string(), 3), ("a".to_string(), 2), ("c".to_string(), 1)]
    );
    assert!(count_terms(Vec::new()).is_empty());
}

#[test]
fn searchable_text_joins_title_and_body() {
    let doc = Document::new(7, "料理メモ", "カレーを作る");
    assert_eq!(doc.id, 7);
    assert_eq!(doc.searchable_text(), "料理メモ カレーを作る");
}

#[test]
fn document_frequencies_count_documents_not_occurrences() {
    let docs = vec![
        Document::new(1, "Rust検索", "転置インデックスで検索する"),
        Document::new(2, "料理メモ", "カレーを作る"),
    ];
    let analyzer = Analyzer::default();
    let tables = document_terms(&docs, &analyzer);
    assert_eq!(tables.len(), 2);
    let search_count = tables[0].iter().find(|(t, _)| t == "検索").map(|(_, c)| *c);
    assert_eq!(search_count, Some(2));
    let df = document_frequencies(&tables);
    let df_of = |term: &str| df.iter().find(|(t, _)| t == term).map(|(_, c)| *c);
    assert_eq!(df_of("rust"), Some(1));
    assert_eq!(df_of("検索"), Some(1));
    assert_eq!(df_of("カレーを作る"), Some(1));
    assert_eq!(df_of("missing"), None);
    assert_eq!(df[0].0, "rust");
}

#[test]
fn sample_documents_are_numbered_from_one() {
    let docs = sample_documents();
    assert_eq!(docs.len(), 5);
    for (i, doc) in docs.iter().enumerate() {
        assert_eq!(doc.id, i + 1);
    }
    assert_eq!(docs[3].title, "全文検索の基礎");
}

#[test]
fn a_separator_splits_the_analysis() {
    let a = Analyzer::new(2);
    let whole = a.analyze("Rust 2024,東京都");
    let mut parts = a.analyze("Rust 2024");
    parts.extend(a.analyze("東京都"));
    assert_eq!(whole, parts);
    let low: Vec<char> = "rust".chars().collect();
    assert_eq!(a.analyze_lowered(&low), vec!["rust".to_string()]);
}
