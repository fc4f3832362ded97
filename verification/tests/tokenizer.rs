use buscador::analyzer::{analyze, stopword_filter, Analyzer, Stopwords};
use buscador::tokenizer::tokenize;

fn strings(words: &[&str]) -> Vec<String> {
    words.iter().map(|w| w.to_string()).collect()
}

#[test]
fn tokenize_splits_on_whitespace() {
    assert_eq!(tokenize("the quick fox"), strings(&["the", "quick", "fox"]));
}

#[test]
fn tokenize_empty_text_has_no_token() {
    assert_eq!(tokenize(""), Vec::<String>::new());
}

#[test]
fn tokenize_whitespace_only_has_no_token() {
    assert_eq!(tokenize("  \t\n  "), Vec::<String>::new());
}

#[test]
fn tokenize_punctuation_only_has_no_token() {
    assert_eq!(tokenize("?!... -- ()"), Vec::<String>::new());
}

#[test]
fn tokenize_drops_punctuation_inside_words() {
    assert_eq!(tokenize("don't stop-me, now!"), strings(&["dont", "stopme", "now"]));
}

#[test]
fn tokenize_collapses_whitespace_runs() {
    assert_eq!(tokenize("  a \t\t b\n\nc  "), strings(&["a", "b", "c"]));
}

#[test]
fn tokenize_keeps_case() {
    assert_eq!(tokenize("Some Data"), strings(&["Some", "Data"]));
}

#[test]
fn tokenize_keeps_digits_and_letters_of_any_script() {
    assert_eq!(tokenize("abc123 über 東京 42"), strings(&["abc123", "über", "東京", "42"]));
}

#[test]
fn tokenize_splits_on_unicode_whitespace() {
    assert_eq!(tokenize("a\u{00A0}b\u{3000}c"), strings(&["a", "b", "c"]));
}

#[test]
fn tokenize_source_line() {
    assert_eq!(
        tokenize("fn tokenize(text: &str) -> Vec<String> {"),
        strings(&["fn", "tokenizetext", "str", "VecString"])
    );
}

#[test]
fn tokenize_never_gives_an_empty_token() {
    for text in ["", " ", "a", " a ", "a  b", "!a!", "! !", "a ! b"] {
        for token in tokenize(text) {
            assert!(!token.is_empty());
        }
    }
}

#[test]
fn stopwords_contains_exact_matches_only() {
    let stopwords = Stopwords::from_words(&strings(&["the", "a"]));
    assert!(stopwords.contains("the"));
    assert!(stopwords.contains("a"));
    assert!(!stopwords.contains("The"));
    assert!(!stopwords.contains("then"));
    assert!(!stopwords.contains(""));
}

#[test]
fn stopwords_new_is_empty_and_insert_adds() {
    let mut stopwords = Stopwords::new();
    assert!(!stopwords.contains("dia"));
    stopwords.insert("dia");
    assert!(stopwords.contains("dia"));
    assert!(!stopwords.contains("a"));
}

#[test]
fn stopword_filter_removes_stopwords_in_order() {
    let stopwords = Stopwords::from_words(&strings(&["a", "dia"]));
    let tokens = strings(&["bom", "dia", "a", "todos", "a", "dia", "x"]);
    assert_eq!(stopword_filter(&tokens, &stopwords), strings(&["bom", "todos", "x"]));
}

#[test]
fn stopword_filter_with_no_stopwords_keeps_everything() {
    let tokens = strings(&["b", "a", "b"]);
    assert_eq!(stopword_filter(&tokens, &Stopwords::new()), tokens);
}

#[test]
fn stopword_filter_can_remove_everything() {
    let stopwords = Stopwords::from_words(&strings(&["the"]));
    assert_eq!(
        stopword_filter(&strings(&["the", "the"]), &stopwords),
        Vec::<String>::new()
    );
}

#[test]
fn analyze_is_tokenize_then_filter() {
    let stopwords = Stopwords::from_words(&strings(&["the"]));
    assert_eq!(analyze("the quick, the fox", &stopwords), strings(&["quick", "fox"]));
    assert_eq!(
        analyze("the quick, the fox", &stopwords),
        stopword_filter(&tokenize("the quick, the fox"), &stopwords)
    );
}

#[test]
fn analyze_is_case_sensitive() {
    let stopwords = Stopwords::from_words(&strings(&["the"]));
    assert_eq!(analyze("The the THE", &stopwords), strings(&["The", "THE"]));
}

#[test]
fn analyzer_default_mode_keeps_case() {
    let analyzer = Analyzer::new(Stopwords::from_words(&strings(&["the"])));
    assert!(!analyzer.is_case_folding());
    assert!(analyzer.is_stopword("the"));
    assert!(!analyzer.is_stopword("fox"));
    assert_eq!(analyzer.analyze("The Quick the fox"), strings(&["The", "Quick", "fox"]));
}

#[test]
fn analyzer_case_folding_lowercases_before_filtering() {
    let analyzer = Analyzer::with_case_folding(Stopwords::from_words(&strings(&["the"])));
    assert!(analyzer.is_case_folding());
    assert_eq!(analyzer.analyze("The QUICK Fox"), strings(&["quick", "fox"]));
}

#[test]
fn analyzer_of_only_stopwords_gives_nothing() {
    let analyzer = Analyzer::new(Stopwords::from_words(&strings(&["the"])));
    assert_eq!(analyzer.analyze("the the, the!"), Vec::<String>::new());
}

#[test]
fn token_analyzes_to_itself() {
    let analyzer = Analyzer::new(Stopwords::from_words(&strings(&["the"])));
    for token in analyzer.analyze("the quick-brown fox, 42 times: über!") {
        assert_eq!(analyzer.analyze(&token), vec![token.clone()]);
    }
}

#[test]
fn analysis_of_joined_texts_is_joined_analysis() {
    let analyzer = Analyzer::new(Stopwords::from_words(&strings(&["the"])));
    let a = "the quick, fox";
    let b = " lazy the dog ";
    let mut expected = analyzer.analyze(a);
    expected.extend(analyzer.analyze(b));
    assert_eq!(analyzer.analyze(&format!("{} {}", a, b)), expected);
}
