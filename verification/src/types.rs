//! Core data types: indexed chunks and indexing summaries.

use vstd::prelude::*;
use crate::token_counter::{count_tokens, encodable, token_count, try_count_tokens};

verus! {

/// Where a chunk comes from and where it stands in its document.
#[derive(Debug, Clone)]
pub struct ChunkMetadata {
    pub source: String,
    pub position: usize,
    pub total_chunks: usize,
}

/// A chunk of indexed content.
#[derive(Debug, Clone)]
pub struct Chunk {
    pub id: String,
    pub content: String,
    pub tokens: usize,
    pub metadata: ChunkMetadata,
}

/// The outcome of indexing one file: its name and how many chunks it gave.
#[derive(Debug, Clone)]
pub struct IndexResult {
    pub file: String,
    pub chunks: usize,
}

impl Chunk {
    /// A chunk of `content` at `position` in `source`; its token count is
    /// computed, and its document's chunk total starts at zero.
    pub fn new(id: String, content: String, source: String, position: usize) -> (res: Self)
        requires
            encodable(content@),
        ensures
            res.id@ == id@,
            res.content@ == content@,
            res.tokens == token_count(content@),
            res.metadata.source@ == source@,
            res.metadata.position == position,
            res.metadata.total_chunks == 0,
    {
        let tokens = count_tokens(content.as_str());
        Chunk {
            id,
            content,
            tokens,
            metadata: ChunkMetadata { source, position, total_chunks: 0 },
        }
    }

    /// `Chunk::new` where the content's tokens can be counted; `None` where
    /// the encoder gives up on the content.
    pub fn try_new(id: String, content: String, source: String, position: usize) -> (res: Option<
        Self,
    >)
        ensures
            res is Some <==> encodable(content@),
            res matches Some(c) ==> {
                &&& c.id@ == id@
                &&& c.content@ == content@
                &&& c.tokens == token_count(content@)
                &&& c.metadata.source@ == source@
                &&& c.metadata.position == position
                &&& c.metadata.total_chunks == 0
            },
    {
        if try_count_tokens(content.as_str()).is_some() {
            Some(Chunk::new(id, content, source, position))
        } else {
            None
        }
    }

    /// Recomputes the token count from the current content.
    pub fn recalculate_tokens(&mut self)
        requires
            encodable(old(self).content@),
        ensures
            final(self).tokens == token_count(old(self).content@),
            final(self).id == old(self).id,
            final(self).content == old(self).content,
            final(self).metadata == old(self).metadata,
    {
        self.tokens = count_tokens(self.content.as_str());
    }

    /// `recalculate_tokens` where the content's tokens can be counted; where
    /// the encoder gives up on the content, the chunk is left as it was and
    /// `false` is returned.
    pub fn try_recalculate_tokens(&mut self) -> (ok: bool)
        ensures
            ok <==> encodable(old(self).content@),
            ok ==> final(self).tokens == token_count(old(self).content@),
            !ok ==> final(self).tokens == old(self).tokens,
            final(self).id == old(self).id,
            final(self).content == old(self).content,
            final(self).metadata == old(self).metadata,
    {
        if try_count_tokens(self.content.as_str()).is_some() {
            self.recalculate_tokens();
            true
        } else {
            false
        }
    }
}

} // verus!
