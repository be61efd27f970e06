use ragrs::chunking::{split_sentences, ChunkingEngine};
use ragrs::token_counter::count_tokens;

#[test]
fn test_chunk_text_produces_chunks() {
    let engine = ChunkingEngine::new(50, 10);
    let text = "This is sentence one. This is sentence two. This is sentence three.";
    let chunks = engine.chunk_text(text, "test.md").unwrap();
    assert!(!chunks.is_empty());
    for chunk in &chunks {
        assert!(!chunk.content.is_empty());
        assert_eq!(chunk.metadata.source, "test.md");
    }
}

#[test]
fn test_empty_text() {
    let engine = ChunkingEngine::default();
    let chunks = engine.chunk_text("", "test.md").unwrap();
    assert!(chunks.is_empty());
}

#[test]
fn test_sentence_splitting() {
    let sentences = split_sentences("First. Second! Third?");
    assert_eq!(sentences.len(), 3);
}

#[test]
fn test_chunking_produces_valid_chunks() {
    let engine = ChunkingEngine::new(50, 10);
    let text = "First sentence here. Second sentence follows. Third sentence ends.";
    let chunks = engine.chunk_text(text, "test.md").unwrap();

    assert!(!chunks.is_empty());
    for chunk in &chunks {
        assert!(!chunk.content.is_empty());
        assert_eq!(chunk.metadata.source, "test.md");
        assert!(chunk.tokens > 0);
    }
}

#[test]
fn split_sentences_keeps_terminators_and_trims() {
    let sentences = split_sentences("  First one.   Second one!Third?  tail  ");
    assert_eq!(sentences, vec!["First one.", "Second one!", "Third?", "tail"]);
}

#[test]
fn split_sentences_blank_text_has_none() {
    assert!(split_sentences("").is_empty());
    assert!(split_sentences("  \n\t ").is_empty());
}

#[test]
fn split_sentences_repeated_terminators() {
    assert_eq!(split_sentences("..!"), vec![".", ".", "!"]);
}

#[test]
fn chunk_text_single_chunk_metadata() {
    let engine = ChunkingEngine::default();
    let chunks = engine
        .chunk_text("Short text. Another line.", "docs/guide.md")
        .unwrap();
    assert_eq!(chunks.len(), 1);
    let c = &chunks[0];
    assert_eq!(c.id, "docs_guide_md_0");
    assert_eq!(c.content, "Short text. Another line.");
    assert_eq!(c.metadata.source, "docs/guide.md");
    assert_eq!(c.metadata.position, 0);
    assert_eq!(c.metadata.total_chunks, 1);
    assert_eq!(c.tokens, count_tokens("Short text. Another line."));
}

#[test]
fn chunk_text_splits_and_numbers_chunks() {
    // Every sentence is larger than the budget, so each starts a new chunk.
    let engine = ChunkingEngine::new(1, 0);
    let text = "Alpha beta gamma. Delta epsilon zeta. Eta theta iota.";
    let chunks = engine.chunk_text(text, "a.b").unwrap();
    assert!(chunks.len() >= 3);
    for (i, c) in chunks.iter().enumerate() {
        assert_eq!(c.id, format!("a_b_{}", i));
        assert_eq!(c.metadata.position, i);
        assert_eq!(c.metadata.total_chunks, chunks.len());
        assert_eq!(c.content, c.content.trim());
        assert!(!c.content.is_empty());
        assert_eq!(c.tokens, count_tokens(&c.content));
    }
    assert_eq!(chunks[0].content, "Alpha beta gamma.");
    // The overlap keeps the previous sentence in the next chunk; the next
    // sentence is appended right after it.
    assert_eq!(chunks.len(), 3);
    assert_eq!(chunks[1].content, "Alpha beta gamma.Delta epsilon zeta.");
    assert_eq!(chunks[2].content, "Delta epsilon zeta.Eta theta iota.");
}

#[test]
fn chunk_text_blank_text_has_no_chunks() {
    let engine = ChunkingEngine::new(10, 2);
    assert!(engine.chunk_text("   \n  ", "x.md").unwrap().is_empty());
    assert_eq!(engine.chunk_text(" word ", "x.md").unwrap().len(), 1);
}

#[test]
fn get_overlap_keeps_last_sentences() {
    let engine = ChunkingEngine::new(100, 0);
    assert_eq!(engine.get_overlap("One. Two. Three."), "Three.");
    assert_eq!(engine.get_overlap(""), "");
    let wide = ChunkingEngine::new(100, 1000);
    assert_eq!(wide.get_overlap("One. Two. Three."), "One. Two. Three.");
}

#[test]
fn chunk_ten_sentences_indexes_above_nine() {
    let engine = ChunkingEngine::new(1, 0);
    let text = "A a. B b. C c. D d. E e. F f. G g. H h. I i. J j. K k. L l.";
    let chunks = engine.chunk_text(text, "n").unwrap();
    assert!(chunks.len() >= 11);
    assert_eq!(chunks[10].id, "n_10");
}

#[test]
fn try_variants_agree_with_chunking() {
    let engine = ChunkingEngine::new(12, 4);
    let text = "First sentence here. Second one follows. Third closes it. Fourth adds more.";
    let a = engine.chunk_text(text, "doc.md").unwrap();
    let b = engine.try_chunk_text(text, "doc.md").unwrap();
    assert_eq!(a.len(), b.len());
    for (x, y) in a.iter().zip(b.iter()) {
        assert_eq!(x.id, y.id);
        assert_eq!(x.content, y.content);
        assert_eq!(x.tokens, y.tokens);
    }
    assert_eq!(engine.try_get_overlap("One. Two. Three.").unwrap(), engine.get_overlap("One. Two. Three."));
    assert_eq!(engine.try_get_overlap("").unwrap(), "");
    assert!(engine.try_chunk_text("  ", "e.md").unwrap().is_empty());
}

#[test]
fn each_chunk_begins_with_the_previous_overlap() {
    let engine = ChunkingEngine::new(15, 6);
    let text = "Rust is fast. It is also safe. Verus checks proofs. Contracts state behaviour. \
                Tests run examples. Laws cover all inputs.";
    let chunks = engine.chunk_text(text, "laws.md").unwrap();
    assert!(chunks.len() >= 2);
    for pair in chunks.windows(2) {
        let overlap = engine.get_overlap(&pair[0].content);
        assert!(!overlap.is_empty());
        assert!(pair[1].content.starts_with(&overlap));
    }
}
