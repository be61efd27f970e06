//! The requests sent to the fact-checking service: where they go, how they
//! authenticate, and the claim and evidence they carry.

use vstd::prelude::*;
use crate::text::{decimal, join, push_decimal, push_str};
use crate::types::Chunk;

verus! {

/// The fact-checking endpoint under a base URL.
pub fn fact_check_url(base_url: &str) -> (res: String)
    ensures
        res@ == base_url@ + "/v1/fact-check"@,
{
    let mut res = base_url.to_owned();
    push_str(&mut res, "/v1/fact-check");
    res
}

/// The value of the `Authorization` header for an API key.
pub fn authorization_header(api_key: &str) -> (res: String)
    ensures
        res@ == "Bearer "@ + api_key@,
{
    let mut res = "Bearer ".to_owned();
    push_str(&mut res, api_key);
    res
}

/// The claim checked for a question: `Regarding "<question>": <snippet>`.
pub fn verification_claim(question: &str, snippet: &str) -> (res: String)
    ensures
        res@ == "Regarding \""@ + question@ + "\": "@ + snippet@,
{
    let mut res = "Regarding \"".to_owned();
    push_str(&mut res, question);
    push_str(&mut res, "\": ");
    push_str(&mut res, snippet);
    res
}

/// The evidence line for the `i`-th source: `[Source <i+1>] <document>: <content>`.
pub open spec fn source_line(i: nat, c: Chunk) -> Seq<char> {
    "[Source "@ + decimal(i + 1) + "] "@ + c.metadata.source@ + ": "@ + c.content@
}

/// The evidence lines of the first `n` ranked chunks.
pub open spec fn source_lines(chunks: Seq<Chunk>, n: nat) -> Seq<Seq<char>> {
    Seq::new(n, |i: int| source_line(i as nat, chunks[i]))
}

/// The evidence sent with a claim: the first three ranked chunks (or fewer),
/// each as a `[Source <n>] <document>: <content>` line, separated by blank
/// lines.
pub open spec fn verification_sources_spec(chunks: Seq<Chunk>) -> Seq<char> {
    let n = if chunks.len() < 3 {
        chunks.len()
    } else {
        3
    };
    join(source_lines(chunks, n), "\n\n"@)
}

/// Builds the evidence sent with a claim from the ranked chunks.
pub fn verification_sources(chunks: &Vec<Chunk>) -> (res: String)
    ensures
        res@ == verification_sources_spec(chunks@),
{
    let n: usize = if chunks.len() < 3 {
        chunks.len()
    } else {
        3
    };
    let mut res = String::new();
    let mut i: usize = 0;
    while i < n
        invariant
            i <= n <= 3,
            n <= chunks.len(),
            n == if chunks.len() < 3 {
                chunks.len()
            } else {
                3
            },
            res@ == join(source_lines(chunks@, i as nat), "\n\n"@),
        decreases n - i,
    {
        let ghost before = res@;
        if i > 0 {
            push_str(&mut res, "\n\n");
        }
        let ghost sep_done = res@;
        push_str(&mut res, "[Source ");
        push_decimal(&mut res, i + 1);
        push_str(&mut res, "] ");
        push_str(&mut res, chunks[i].metadata.source.as_str());
        push_str(&mut res, ": ");
        push_str(&mut res, chunks[i].content.as_str());
        proof {
            let line = source_line(i as nat, chunks@[i as int]);
            assert(res@ == sep_done + line);
            let prev = source_lines(chunks@, i as nat);
            let next = source_lines(chunks@, (i + 1) as nat);
            assert(next.drop_last() == prev);
            assert(next.last() == line);
            if i == 0 {
                assert(next.len() == 1);
                assert(prev.len() == 0);
            }
        }
        i = i + 1;
    }
    res
}

} // verus!
