use ragrs::token_counter::{count_tokens, try_count_tokens};
use ragrs::tokenize::{is_stop_word, tokenize};
use ragrs::types::Chunk;

#[test]
fn test_empty() {
    assert_eq!(count_tokens(""), 0);
}

#[test]
fn test_sentence() {
    let n = count_tokens("Hello, world! How are you?");
    assert!(n >= 5 && n <= 10);
}

#[test]
fn test_consistency() {
    let text = "The quick brown fox";
    assert_eq!(count_tokens(text), count_tokens(text));
}

#[test]
fn test_tokenize_filters_stopwords() {
    let tokens = tokenize("Hello, world! This is a test.");
    assert!(tokens.contains(&"hello".to_string()));
    assert!(tokens.contains(&"world".to_string()));
    assert!(tokens.contains(&"test".to_string()));
    assert!(!tokens.contains(&"this".to_string()));
    assert!(!tokens.contains(&"is".to_string()));
}

#[test]
fn test_tokenize_empty() {
    assert!(tokenize("").is_empty());
    assert!(tokenize("   ").is_empty());
}

#[test]
fn tokenize_exact_output() {
    assert_eq!(
        tokenize("Rust's API-keys expire, X y 42 é!"),
        vec!["rusts", "apikeys", "expire", "42", "é"]
    );
}

#[test]
fn tokenize_drops_french_stop_words() {
    assert_eq!(tokenize("Le chat est dans la maison"), vec!["chat", "maison"]);
}

#[test]
fn is_stop_word_cases() {
    assert!(is_stop_word("the"));
    assert!(is_stop_word("plus"));
    assert!(!is_stop_word("The"));
    assert!(!is_stop_word("rust"));
    assert!(!is_stop_word(""));
}

#[test]
fn chunk_new_and_recalculate() {
    let mut c = Chunk::new("c1".into(), "Hello world".into(), "doc.md".into(), 3);
    assert_eq!(c.tokens, count_tokens("Hello world"));
    assert!(c.tokens > 0);
    assert_eq!(c.metadata.position, 3);
    assert_eq!(c.metadata.total_chunks, 0);
    c.content = String::new();
    c.recalculate_tokens();
    assert_eq!(c.tokens, 0);
}

#[test]
fn try_count_tokens_counts_or_declines() {
    assert_eq!(try_count_tokens(""), Some(0));
    let text = "Hello, world! How are you?";
    let n = try_count_tokens(text).unwrap();
    assert_eq!(n, count_tokens(text));
    assert!(n >= 1 && n <= text.len());
    assert_eq!(try_count_tokens("é"), Some(count_tokens("é")));
}

#[test]
fn chunk_try_new_and_try_recalculate() {
    let c = Chunk::try_new("c2".into(), "Some text here".into(), "a.txt".into(), 1).unwrap();
    assert_eq!(c.tokens, count_tokens("Some text here"));
    assert_eq!(c.id, "c2");
    assert_eq!(c.metadata.source, "a.txt");
    let mut d = c.clone();
    d.content = "More words to count in this sentence".into();
    assert!(d.try_recalculate_tokens());
    assert_eq!(d.tokens, count_tokens("More words to count in this sentence"));
    assert!(d.tokens != c.tokens);
}

#[test]
fn tokenize_splits_on_unicode_whitespace() {
    assert_eq!(tokenize("foo\u{3000}bar\u{00a0}baz\u{2028}qux"), vec!["foo", "bar", "baz", "qux"]);
    assert_eq!(tokenize("foo\u{200b}bar"), vec!["foobar"]);
}

#[test]
fn tokenize_joined_texts_concatenate() {
    let a = "Rust makes systems programming safe";
    let b = "Verus proves Rust code CORRECT";
    let mut expected = tokenize(a);
    expected.extend(tokenize(b));
    assert_eq!(tokenize(&format!("{} {}", a, b)), expected);
}
