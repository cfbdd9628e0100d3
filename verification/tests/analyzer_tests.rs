use querycore::analyzer::{box_analyzer, Analyzer, BoxedAnalyzer, LowerCaser, RemoveLongFilter,
    SimpleTokenizer, TokenStream};
use querycore::analyzer_manager::AnalyzerManager;

fn terms_of<TS: TokenStream>(mut ts: TS) -> Vec<String> {
    let mut out = Vec::new();
    while ts.advance() {
        out.push(ts.token().term.clone());
    }
    out
}

#[test]
fn test_simple_tokenizer_lowercase() {
    let analyzer = SimpleTokenizer
        .filter(RemoveLongFilter::limit(40))
        .filter(LowerCaser);
    let stream = analyzer.token_stream("Hello, Happy Tax Payer!");
    assert_eq!(terms_of(stream), vec!["hello", "happy", "tax", "payer"]);
}

#[test]
fn test_remove_long_filter() {
    let analyzer = SimpleTokenizer.filter(RemoveLongFilter::limit(6));
    let stream = analyzer.token_stream("short enormous tiny");
    assert_eq!(terms_of(stream), vec!["short", "tiny"]);
}

#[test]
fn test_en_stem() {
    let manager = AnalyzerManager::default();
    let en_stem = manager.get("en_stem").unwrap();
    let stream = en_stem.token_stream("Running wildly");
    assert_eq!(terms_of(stream), vec!["run", "wild"]);
}

#[test]
fn test_manager_register_and_get() {
    let mut manager = AnalyzerManager::default();
    assert!(manager.get("raw").is_some());
    assert!(manager.get("default").is_some());
    assert!(manager.get("ja").is_some());
    assert!(manager.get("nope").is_none());
    let raw = manager.get("raw").unwrap();
    manager.register("mine", raw.boxed_clone());
    assert!(manager.get("mine").is_some());
}

#[test]
fn test_token_stream_texts_offsets() {
    let boxed = box_analyzer(SimpleTokenizer);
    let texts: Vec<String> = vec!["alpha beta".to_string(), "gamma".to_string()];
    let mut ts = boxed.token_stream_texts(&texts);
    let mut offsets = Vec::new();
    while ts.advance() {
        offsets.push((ts.token().term.clone(), ts.token().offset_from));
    }
    // the second text's offsets are shifted by the first text's byte length
    assert_eq!(
        offsets,
        vec![
            ("alpha".to_string(), 0),
            ("beta".to_string(), 6),
            ("gamma".to_string(), 10)
        ]
    );
}
