use ragrs::engine::is_indexable_extension;
use ragrs::snippet::{
    can_truncate, extract_relevant_snippet, snippet_body, strip_markdown, truncate,
    try_extract_relevant_snippet,
};
use ragrs::text::{is_blank, trimmed};
use ragrs::verify::{authorization_header, fact_check_url, verification_claim, verification_sources};
use ragrs::types::Chunk;

#[test]
fn strip_markdown_removes_markers() {
    assert_eq!(strip_markdown("## Title **bold** *it* `code`"), "Title bold it code");
    assert_eq!(strip_markdown("a#b"), "ab");
    assert_eq!(strip_markdown("plain text"), "plain text");
    let once = strip_markdown("# **x** ***y***");
    assert_eq!(strip_markdown(&once), once);
}

#[test]
fn truncate_by_bytes() {
    assert_eq!(truncate("hello", 5), "hello");
    assert_eq!(truncate("hello world", 5), "hello...");
    assert_eq!(truncate("", 0), "");
    assert!(can_truncate("héllo", 3));
    assert!(!can_truncate("héllo", 2));
    assert_eq!(truncate("héllo", 3), "hé...");
}

#[test]
fn snippet_picks_best_sentence_with_neighbours() {
    let content = "# Intro\nThe weather is sunny today. API keys never expire at all. \
                   Billing runs monthly here. Support answers quickly.";
    let s = extract_relevant_snippet(content, "Do API keys expire?", 200);
    assert_eq!(
        s,
        "IntroThe weather is sunny today. API keys never expire at all. Billing runs monthly here"
    );
}

#[test]
fn snippet_without_long_sentences_uses_clean_text() {
    assert_eq!(snippet_body("**short**", "x"), "short");
    assert_eq!(extract_relevant_snippet("tiny. bits.", "x", 4), "tiny...");
}

#[test]
fn trimming_twice_changes_nothing() {
    let once = trimmed("  \t spaced out \n ");
    assert_eq!(once, "spaced out");
    assert_eq!(trimmed(&once), once);
    assert_eq!(trimmed("   "), "");
}

#[test]
fn blank_texts() {
    assert!(is_blank(""));
    assert!(is_blank(" \n\t"));
    assert!(!is_blank(" a "));
}

#[test]
fn indexable_extensions() {
    assert!(is_indexable_extension("md"));
    assert!(is_indexable_extension("txt"));
    assert!(is_indexable_extension("markdown"));
    assert!(!is_indexable_extension("pdf"));
    assert!(!is_indexable_extension("MD"));
}

#[test]
fn verification_request_parts() {
    assert_eq!(fact_check_url("https://api.wauldo.com"), "https://api.wauldo.com/v1/fact-check");
    assert_eq!(authorization_header("k"), "Bearer k");
    assert_eq!(verification_claim("Q?", "snip"), "Regarding \"Q?\": snip");
    let chunks: Vec<Chunk> = (0..4)
        .map(|i| Chunk::new(format!("c{i}"), format!("content {i}"), format!("d{i}.md"), i))
        .collect();
    assert_eq!(
        verification_sources(&chunks),
        "[Source 1] d0.md: content 0\n\n[Source 2] d1.md: content 1\n\n[Source 3] d2.md: content 2"
    );
    assert_eq!(verification_sources(&chunks[..1].to_vec()), "[Source 1] d0.md: content 0");
    assert_eq!(verification_sources(&Vec::new()), "");
}

#[test]
fn try_snippet_declines_a_split_character() {
    assert_eq!(try_extract_relevant_snippet("tiny. bits.", "x", 4), Some("tiny...".to_string()));
    assert_eq!(try_extract_relevant_snippet("héllo", "x", 2), None);
    assert_eq!(try_extract_relevant_snippet("héllo", "x", 3), Some("hé...".to_string()));
}
