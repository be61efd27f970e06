//! Token counting with the cl100k_base byte-pair encoding (GPT-4 compatible).

use vstd::prelude::*;
use crate::text::utf8_len;

verus! {

/// What the cl100k_base encoding makes of a text, special tokens allowed:
/// the token ranks, or nothing where its regex engine gives up on the text.
pub uninterp spec fn cl100k_encoding(text: Seq<char>) -> Option<Seq<u32>>;

/// `tiktoken_rs::CoreBPE::encode` on the shared cl100k_base encoder
/// (`tiktoken_rs::cl100k_base_singleton`), with all of its special tokens
/// allowed (`CoreBPE::special_tokens`). The ranks, or the failure that the crate
/// reports when its regex engine gives up on a text (`EncodeError`), are named
/// and depend on the text alone. What the crate's source also shows: a
/// non-empty text that is encoded has at least one token and at most one per
/// byte of its UTF-8 encoding (each token stands for one or more of its bytes).
#[verifier::external_body]
fn cl100k_encode(text: &str) -> (res: Option<Vec<u32>>)
    ensures
        res is Some <==> cl100k_encoding(text@) is Some,
        res matches Some(v) ==> v@ == cl100k_encoding(text@)->0,
        res matches Some(v) ==> (text@.len() > 0 ==> 1 <= v.len() <= utf8_len(text@)),
{
    let bpe = tiktoken_rs::cl100k_base_singleton();
    let allowed = bpe.special_tokens();
    match bpe.encode(text, &allowed) {
        Ok((tokens, _)) => Some(tokens),
        Err(_) => None,
    }
}

/// A text whose tokens can be counted: the empty text, or one that the
/// encoder accepts.
pub open spec fn encodable(text: Seq<char>) -> bool {
    text.len() == 0 || cl100k_encoding(text) is Some
}

/// The number of cl100k_base tokens of a text; the empty text has none.
pub open spec fn token_count(text: Seq<char>) -> nat {
    if text.len() == 0 {
        0
    } else {
        match cl100k_encoding(text) {
            Some(tokens) => tokens.len(),
            None => 0,
        }
    }
}

/// Counts the tokens of a text, or `None` where the encoder gives up on it.
pub fn try_count_tokens(text: &str) -> (res: Option<usize>)
    ensures
        res is Some <==> encodable(text@),
        res matches Some(n) ==> n == token_count(text@),
        res matches Some(n) ==> (text@.len() > 0 ==> 1 <= n <= utf8_len(text@)),
{
    if text.is_empty() {
        return Some(0);
    }
    match cl100k_encode(text) {
        Some(tokens) => Some(tokens.len()),
        None => None,
    }
}

/// Counts tokens using the cl100k_base encoding (GPT-4 compatible).
pub fn count_tokens(text: &str) -> (n: usize)
    requires
        encodable(text@),
    ensures
        n == token_count(text@),
        text@.len() > 0 ==> 1 <= n <= utf8_len(text@),
{
    try_count_tokens(text).unwrap()
}

} // verus!
