//! Sentence-aware chunking with token-bounded overlap.

use vstd::prelude::*;
use crate::error::RagrsError;
use crate::text::{
    all_whitespace, char_is_whitespace, chars_of, decimal, join, join_range,
    lemma_decimal_injective, lemma_join_ends, lemma_not_blank_concat, lemma_trim_empty_iff,
    lemma_trim_idempotent, lemma_trim_keeps_prefix, lemma_trim_shape, lemma_trim_split,
    lemma_trim_ws_around, lemma_trimmed_not_blank, push_decimal, push_str, string_of_range, trim,
    trim_bounds, trim_end, trim_start, trimmed, views,
};
use crate::token_counter::{encodable, token_count, try_count_tokens};
use crate::types::Chunk;

verus! {

/// Characters that end a sentence.
pub open spec fn is_terminator(c: char) -> bool {
    c == '.' || c == '!' || c == '?'
}

/// Reading `s` left to right: the sentences finished so far (each trimmed,
/// each ending at a terminator) and the run read since the last terminator.
pub open spec fn sentence_scan(s: Seq<char>) -> (Seq<Seq<char>>, Seq<char>)
    decreases s.len(),
{
    if s.len() == 0 {
        (seq![], seq![])
    } else {
        let (done, cur) = sentence_scan(s.drop_last());
        let run = cur.push(s.last());
        if is_terminator(s.last()) {
            (done.push(trim(run)), seq![])
        } else {
            (done, run)
        }
    }
}

/// The sentences of `s`: each run up to and including a terminator, trimmed,
/// and then the trimmed rest if it is not blank.
pub open spec fn sentences_of(s: Seq<char>) -> Seq<Seq<char>> {
    let (done, cur) = sentence_scan(s);
    if trim(cur).len() > 0 {
        done.push(trim(cur))
    } else {
        done
    }
}

/// How many trailing sentences the overlap keeps, having kept `taken` of them
/// worth `tc` tokens: it walks back while the tokens stay within `limit`, and
/// always keeps at least one.
pub open spec fn overlap_keep(sents: Seq<Seq<char>>, limit: nat, taken: nat, tc: nat) -> nat
    decreases sents.len() - taken,
{
    if taken >= sents.len() {
        sents.len()
    } else {
        let t = token_count(sents[sents.len() - 1 - taken]);
        if tc + t > limit && taken > 0 {
            taken
        } else {
            overlap_keep(sents, limit, taken + 1, tc + t)
        }
    }
}

/// The overlap carried from a finished chunk into the next one: its last
/// sentences within `limit` tokens (at least one), joined with spaces.
pub open spec fn overlap_text(text: Seq<char>, limit: nat) -> Seq<char> {
    let sents = sentences_of(text);
    let n = overlap_keep(sents, limit, 0, 0);
    join(sents.subrange(sents.len() - n, sents.len() as int), seq![' '])
}

/// The overlap walk of `overlap_keep` can count the tokens of every sentence
/// it looks at, the one that stops the walk included.
pub open spec fn overlap_walk_countable(
    sents: Seq<Seq<char>>,
    limit: nat,
    taken: nat,
    tc: nat,
) -> bool
    decreases sents.len() - taken,
{
    if taken >= sents.len() {
        true
    } else {
        let s = sents[sents.len() - 1 - taken];
        let t = token_count(s);
        encodable(s) && (tc + t > limit && taken > 0 || overlap_walk_countable(
            sents,
            limit,
            taken + 1,
            tc + t,
        ))
    }
}

/// The overlap of `text` within `limit` tokens can be computed: the walk back
/// over its sentences can count their tokens.
pub open spec fn overlap_countable(text: Seq<char>, limit: nat) -> bool {
    overlap_walk_countable(sentences_of(text), limit, 0, 0)
}

/// One sentence read by the chunker, from the state (finished pieces, current
/// chunk text, its running token total): when the sentence would push a
/// non-empty chunk over `size` tokens, the trimmed chunk is finished and the
/// next one starts from its overlap; then the sentence and a space are added.
pub open spec fn chunk_step(
    state: (Seq<Seq<char>>, Seq<char>, nat),
    sentence: Seq<char>,
    size: nat,
    overlap: nat,
) -> (Seq<Seq<char>>, Seq<char>, nat) {
    let (pieces, cur, ct) = state;
    let st = token_count(sentence);
    let (pieces1, cur1, ct1) = if ct + st > size && cur.len() > 0 {
        let ov = overlap_text(cur, overlap);
        (pieces.push(trim(cur)), ov, token_count(ov))
    } else {
        (pieces, cur, ct)
    };
    (pieces1, cur1 + sentence + seq![' '], ct1 + st)
}

/// The chunker's state after reading the given sentences.
pub open spec fn chunk_scan(sents: Seq<Seq<char>>, size: nat, overlap: nat) -> (
    Seq<Seq<char>>,
    Seq<char>,
    nat,
)
    decreases sents.len(),
{
    if sents.len() == 0 {
        (seq![], seq![], 0)
    } else {
        chunk_step(chunk_scan(sents.drop_last(), size, overlap), sents.last(), size, overlap)
    }
}

/// The token counts that one step of the chunker makes can all be made: the
/// sentence's, and where the step finishes a chunk, that chunk's, those of the
/// overlap walk and that of the overlap.
pub open spec fn step_countable(
    state: (Seq<Seq<char>>, Seq<char>, nat),
    sentence: Seq<char>,
    size: nat,
    overlap: nat,
) -> bool {
    let (pieces, cur, ct) = state;
    &&& encodable(sentence)
    &&& ct + token_count(sentence) > size && cur.len() > 0 ==> {
        &&& encodable(trim(cur))
        &&& overlap_countable(cur, overlap)
        &&& encodable(overlap_text(cur, overlap))
    }
}

/// The step of the chunker that reads sentence `j` can make its token counts.
pub open spec fn step_countable_at(sents: Seq<Seq<char>>, j: int, size: nat, overlap: nat) -> bool {
    step_countable(chunk_scan(sents.take(j), size, overlap), sents[j], size, overlap)
}

/// Every token count that chunking `text` makes can be made: those of each
/// step, and that of the last chunk.
pub open spec fn chunk_countable(text: Seq<char>, size: nat, overlap: nat) -> bool {
    let sents = sentences_of(text);
    &&& forall|j: int| 0 <= j < sents.len() ==> #[trigger] step_countable_at(sents, j, size, overlap)
    &&& encodable(trim(chunk_scan(sents, size, overlap).1))
}

/// The contents of the chunks of `text`: the finished pieces, then the
/// trimmed last chunk if it is not blank.
pub open spec fn chunk_pieces(text: Seq<char>, size: nat, overlap: nat) -> Seq<Seq<char>> {
    let (pieces, cur, _) = chunk_scan(sentences_of(text), size, overlap);
    if trim(cur).len() > 0 {
        pieces.push(trim(cur))
    } else {
        pieces
    }
}

/// `source` with each '.' and '/' replaced by '_'.
pub open spec fn id_prefix(source: Seq<char>) -> Seq<char> {
    source.map_values(|c: char| if c == '.' || c == '/' { '_' } else { c })
}

/// The id of the chunk at `position` of `source`: `<prefix>_<position>`.
pub open spec fn chunk_id(source: Seq<char>, position: nat) -> Seq<char> {
    id_prefix(source) + seq!['_'] + decimal(position)
}

/// `chunks` are the chunks of `source` with the given contents, in order.
pub open spec fn chunks_of_pieces(chunks: Seq<Chunk>, pieces: Seq<Seq<char>>, source: Seq<char>) -> bool {
    &&& chunks.len() == pieces.len()
    &&& forall|i: int|
        0 <= i < chunks.len() ==> {
            &&& #[trigger] chunks[i].content@ == pieces[i]
            &&& chunks[i].id@ == chunk_id(source, i as nat)
            &&& chunks[i].tokens == token_count(pieces[i])
            &&& chunks[i].metadata.source@ == source
            &&& chunks[i].metadata.position == i
            &&& chunks[i].metadata.total_chunks == chunks.len()
        }
}

/// Every part is non-empty and has no leading or trailing whitespace.
pub open spec fn all_trimmed_nonempty(parts: Seq<Seq<char>>) -> bool {
    forall|i: int| 0 <= i < parts.len() ==> #[trigger] parts[i].len() > 0 && trim(parts[i]) == parts[i]
}

proof fn lemma_sentence_scan(s: Seq<char>)
    ensures
        all_trimmed_nonempty(sentence_scan(s).0),
        sentence_scan(s).0.len() == 0 ==> sentence_scan(s).1 == s,
        sentence_scan(s).0.len() > 0 ==> !all_whitespace(s),
    decreases s.len(),
{
    if s.len() > 0 {
        let p = s.drop_last();
        lemma_sentence_scan(p);
        let (done, cur) = sentence_scan(p);
        let run = cur.push(s.last());
        if !all_whitespace(p) {
            let k = choose|k: int| 0 <= k < p.len() && !char_is_whitespace(p[k]);
            assert(s[k] == p[k]);
        }
        if is_terminator(s.last()) {
            assert(!char_is_whitespace(run[run.len() - 1]));
            assert(!all_whitespace(run));
            lemma_trim_empty_iff(run);
            lemma_trim_idempotent(run);
            assert(!char_is_whitespace(s[s.len() - 1]));
        } else if done.len() == 0 {
            assert(run == s);
        }
    }
}

/// What `sentences_of` guarantees: every sentence is non-empty and trimmed,
/// and there are none exactly when the text is blank.
proof fn lemma_sentences_of(s: Seq<char>)
    ensures
        all_trimmed_nonempty(sentences_of(s)),
        sentences_of(s).len() == 0 <==> all_whitespace(s),
{
    lemma_sentence_scan(s);
    let (done, cur) = sentence_scan(s);
    lemma_trim_empty_iff(cur);
    lemma_trim_idempotent(cur);
    if done.len() == 0 {
        assert(cur == s);
    }
}

proof fn lemma_chunk_scan(sents: Seq<Seq<char>>, size: nat, overlap: nat)
    requires
        all_trimmed_nonempty(sents),
    ensures
        all_trimmed_nonempty(chunk_scan(sents, size, overlap).0),
        chunk_scan(sents, size, overlap).1.len() > 0 ==> !all_whitespace(
            chunk_scan(sents, size, overlap).1,
        ),
        sents.len() > 0 ==> chunk_scan(sents, size, overlap).1.len() > 0,
    decreases sents.len(),
{
    if sents.len() > 0 {
        let p = sents.drop_last();
        assert forall|i: int| 0 <= i < p.len() implies #[trigger] p[i].len() > 0 && trim(p[i])
            == p[i] by {
            assert(p[i] == sents[i]);
        }
        lemma_chunk_scan(p, size, overlap);
        let (pieces, cur, ct) = chunk_scan(p, size, overlap);
        let sentence = sents.last();
        assert(sentence == sents[sents.len() - 1]);
        lemma_trimmed_not_blank(sentence);
        let st = token_count(sentence);
        if ct + st > size && cur.len() > 0 {
            lemma_trim_empty_iff(cur);
            lemma_trim_idempotent(cur);
            let ov = overlap_text(cur, overlap);
            lemma_not_blank_concat(ov, sentence, seq![' ']);
        } else {
            lemma_not_blank_concat(cur, sentence, seq![' ']);
        }
    }
}

/// What `chunk_pieces` guarantees: every piece is non-empty and trimmed, and
/// there are none exactly when the text is blank.
proof fn lemma_chunk_pieces(text: Seq<char>, size: nat, overlap: nat)
    ensures
        all_trimmed_nonempty(chunk_pieces(text, size, overlap)),
        chunk_pieces(text, size, overlap).len() == 0 <==> all_whitespace(text),
{
    let sents = sentences_of(text);
    lemma_sentences_of(text);
    lemma_chunk_scan(sents, size, overlap);
    let (pieces, cur, _) = chunk_scan(sents, size, overlap);
    lemma_trim_empty_iff(cur);
    lemma_trim_idempotent(cur);
    if sents.len() == 0 {
        assert(cur.len() == 0);
    }
}

/// Whitespace after a text only extends the run after its last terminator.
proof fn lemma_sentence_scan_ws_suffix(t: Seq<char>, r: Seq<char>)
    requires
        all_whitespace(r),
    ensures
        sentence_scan(t + r) == (sentence_scan(t).0, sentence_scan(t).1 + r),
    decreases r.len(),
{
    if r.len() == 0 {
        assert(t + r == t);
        assert(sentence_scan(t).1 + r == sentence_scan(t).1);
    } else {
        let r1 = r.drop_last();
        assert forall|i: int| 0 <= i < r1.len() implies #[trigger] char_is_whitespace(r1[i]) by {
            assert(r1[i] == r[i]);
        }
        lemma_sentence_scan_ws_suffix(t, r1);
        assert((t + r).drop_last() == t + r1);
        assert((t + r).last() == r.last());
        assert(char_is_whitespace(r[r.len() - 1]));
        assert((sentence_scan(t).1 + r1).push(r.last()) == sentence_scan(t).1 + r);
    }
}

/// Whitespace before a text only extends the run before its first terminator.
proof fn lemma_sentence_scan_ws_prefix(l: Seq<char>, t: Seq<char>)
    requires
        all_whitespace(l),
    ensures
        sentence_scan(l + t).0 == sentence_scan(t).0,
        sentence_scan(l + t).1 == if sentence_scan(t).0.len() == 0 {
            l + sentence_scan(t).1
        } else {
            sentence_scan(t).1
        },
    decreases t.len(),
{
    let e = Seq::<char>::empty();
    if t.len() == 0 {
        lemma_sentence_scan_ws_suffix(e, l);
        assert(e + l == l);
        assert(l + t == l);
        assert(l + e == l);
    } else {
        let t1 = t.drop_last();
        let c = t.last();
        lemma_sentence_scan_ws_prefix(l, t1);
        assert((l + t).drop_last() == l + t1);
        assert((l + t).last() == c);
        let (d, cur) = sentence_scan(t1);
        if d.len() == 0 {
            assert((l + cur).push(c) == l + cur.push(c));
            if is_terminator(c) {
                lemma_trim_ws_around(l, cur.push(c), e);
            }
        }
    }
}

/// Trimming a text does not change its sentences.
proof fn lemma_sentences_of_trim(s: Seq<char>)
    ensures
        sentences_of(trim(s)) == sentences_of(s),
{
    let (a, b) = lemma_trim_split(s);
    let l = s.take(a);
    let t = s.subrange(a, b);
    let r = s.subrange(b, s.len() as int);
    assert(s == l + (t + r));
    lemma_sentence_scan_ws_prefix(l, t + r);
    lemma_sentence_scan_ws_suffix(t, r);
    let (d, cur) = sentence_scan(t);
    lemma_trim_ws_around(l, cur, r);
    if d.len() == 0 {
        assert(l + (cur + r) == (l + cur) + r);
        lemma_trim_ws_around(l, cur + r, r);
    }
}

/// The overlap walk keeps what it has taken and no more than all sentences,
/// and starting from nothing it keeps at least one when there is one.
proof fn lemma_overlap_keep_bounds(sents: Seq<Seq<char>>, limit: nat, taken: nat, tc: nat)
    requires
        taken <= sents.len(),
    ensures
        taken <= overlap_keep(sents, limit, taken, tc) <= sents.len(),
        taken == 0 && sents.len() > 0 ==> overlap_keep(sents, limit, taken, tc) >= 1,
    decreases sents.len() - taken,
{
    if taken < sents.len() {
        let t = token_count(sents[sents.len() - 1 - taken]);
        if !(tc + t > limit && taken > 0) {
            lemma_overlap_keep_bounds(sents, limit, taken + 1, tc + t);
        }
    }
}

/// The overlap of a text that is not blank is non-empty and begins and ends
/// with non-whitespace.
proof fn lemma_overlap_text_shape(text: Seq<char>, limit: nat)
    requires
        !all_whitespace(text),
    ensures
        overlap_text(text, limit).len() > 0,
        !char_is_whitespace(overlap_text(text, limit)[0]),
        !char_is_whitespace(overlap_text(text, limit).last()),
{
    lemma_sentences_of(text);
    let sents = sentences_of(text);
    lemma_overlap_keep_bounds(sents, limit, 0, 0);
    let n = overlap_keep(sents, limit, 0, 0);
    let part = sents.subrange(sents.len() - n, sents.len() as int);
    assert forall|i: int| 0 <= i < part.len() implies (#[trigger] part[i]).len() > 0 by {
        assert(part[i] == sents[sents.len() - n + i]);
    }
    lemma_join_ends(part);
    assert(part[0] == sents[sents.len() - n]);
    assert(part.last() == sents[sents.len() - 1]);
    lemma_trim_shape(part[0]);
    lemma_trim_shape(part.last());
}

/// The chunker's finished pieces each begin, from the second on, with the
/// overlap of the piece before; the text being gathered begins with the
/// overlap of the last finished piece.
proof fn lemma_chunk_scan_overlap(sents: Seq<Seq<char>>, size: nat, overlap: nat)
    requires
        all_trimmed_nonempty(sents),
    ensures
        forall|i: int|
            0 <= i < chunk_scan(sents, size, overlap).0.len() - 1 ==> overlap_text(
                #[trigger] chunk_scan(sents, size, overlap).0[i],
                overlap,
            ).is_prefix_of(chunk_scan(sents, size, overlap).0[i + 1]),
        chunk_scan(sents, size, overlap).0.len() > 0 ==> {
            let o = overlap_text(chunk_scan(sents, size, overlap).0.last(), overlap);
            &&& o.len() > 0
            &&& !char_is_whitespace(o[0])
            &&& !char_is_whitespace(o.last())
            &&& o.is_prefix_of(chunk_scan(sents, size, overlap).1)
        },
    decreases sents.len(),
{
    if sents.len() > 0 {
        let p = sents.drop_last();
        assert forall|i: int| 0 <= i < p.len() implies #[trigger] p[i].len() > 0 && trim(p[i])
            == p[i] by {
            assert(p[i] == sents[i]);
        }
        lemma_chunk_scan_overlap(p, size, overlap);
        lemma_chunk_scan(p, size, overlap);
        let (pieces, cur, ct) = chunk_scan(p, size, overlap);
        let sentence = sents.last();
        let st = token_count(sentence);
        if ct + st > size && cur.len() > 0 {
            lemma_sentences_of_trim(cur);
            lemma_overlap_text_shape(cur, overlap);
            if pieces.len() > 0 {
                lemma_trim_keeps_prefix(overlap_text(pieces.last(), overlap), cur);
            }
            let np = pieces.push(trim(cur));
            assert forall|i: int| 0 <= i < np.len() - 1 implies overlap_text(
                #[trigger] np[i],
                overlap,
            ).is_prefix_of(np[i + 1]) by {
                assert(np[i] == pieces[i]);
                if i < pieces.len() - 1 {
                    assert(np[i + 1] == pieces[i + 1]);
                }
            }
            let o = overlap_text(cur, overlap);
            assert((o + sentence + seq![' ']).subrange(0, o.len() as int) == o);
        } else if pieces.len() > 0 {
            let o = overlap_text(pieces.last(), overlap);
            assert((cur + sentence + seq![' ']).subrange(0, o.len() as int) == cur.subrange(
                0,
                o.len() as int,
            ));
        }
    }
}

/// Each chunk after the first begins with the overlap of the chunk before it:
/// that chunk's last sentences within the overlap budget, joined with spaces.
pub proof fn lemma_chunks_overlap(text: Seq<char>, size: nat, overlap: nat)
    ensures
        forall|i: int|
            0 <= i < chunk_pieces(text, size, overlap).len() - 1 ==> overlap_text(
                #[trigger] chunk_pieces(text, size, overlap)[i],
                overlap,
            ).is_prefix_of(chunk_pieces(text, size, overlap)[i + 1]),
{
    let sents = sentences_of(text);
    lemma_sentences_of(text);
    lemma_chunk_scan_overlap(sents, size, overlap);
    let (pieces, cur, _) = chunk_scan(sents, size, overlap);
    if trim(cur).len() > 0 {
        if pieces.len() > 0 {
            lemma_trim_keeps_prefix(overlap_text(pieces.last(), overlap), cur);
        }
        let all = pieces.push(trim(cur));
        assert forall|i: int| 0 <= i < all.len() - 1 implies overlap_text(
            #[trigger] all[i],
            overlap,
        ).is_prefix_of(all[i + 1]) by {
            assert(all[i] == pieces[i]);
            if i < pieces.len() - 1 {
                assert(all[i + 1] == pieces[i + 1]);
            }
        }
    }
}

/// The non-whitespace test as a predicate.
pub open spec fn not_whitespace() -> spec_fn(char) -> bool {
    |c: char| !char_is_whitespace(c)
}

/// The sum of the token counts of the parts.
pub open spec fn token_total(parts: Seq<Seq<char>>) -> nat
    decreases parts.len(),
{
    if parts.len() == 0 {
        0
    } else {
        token_total(parts.drop_last()) + token_count(parts.last())
    }
}

/// The token total of parts is the first part's count plus the rest's total.
proof fn lemma_token_total_first(s: Seq<Seq<char>>)
    requires
        s.len() > 0,
    ensures
        token_total(s) == token_count(s[0]) + token_total(s.drop_first()),
    decreases s.len(),
{
    if s.len() > 1 {
        let d = s.drop_last();
        lemma_token_total_first(d);
        assert(d[0] == s[0]);
        assert(s.drop_first().drop_last() == d.drop_first());
        assert(s.drop_first().last() == s.last());
        assert(token_total(s.drop_first()) == token_total(d.drop_first()) + token_count(s.last()));
    } else {
        assert(s.drop_first().len() == 0);
        assert(s.drop_last().len() == 0);
        assert(s.last() == s[0]);
        assert(token_total(s.drop_first()) == 0);
        assert(token_total(s.drop_last()) == 0);
    }
}

/// A blank text has no non-whitespace characters.
proof fn lemma_filter_blank(s: Seq<char>)
    requires
        all_whitespace(s),
    ensures
        s.filter(not_whitespace()) == Seq::<char>::empty(),
    decreases s.len(),
{
    if s.len() > 0 {
        let p = s.drop_last();
        assert forall|i: int| 0 <= i < p.len() implies #[trigger] char_is_whitespace(p[i]) by {
            assert(p[i] == s[i]);
        }
        lemma_filter_blank(p);
        assert(p.push(s.last()) == s);
        p.lemma_filter_push(s.last(), not_whitespace());
        assert(char_is_whitespace(s[s.len() - 1]));
    } else {
        reveal(Seq::filter);
    }
}

/// Trimming keeps every non-whitespace character.
proof fn lemma_filter_trim(s: Seq<char>)
    ensures
        trim(s).filter(not_whitespace()) == s.filter(not_whitespace()),
{
    let (a, b) = lemma_trim_split(s);
    let l = s.take(a);
    let t = s.subrange(a, b);
    let r = s.subrange(b, s.len() as int);
    assert(s == l + t + r);
    Seq::filter_distributes_over_add(l + t, r, not_whitespace());
    Seq::filter_distributes_over_add(l, t, not_whitespace());
    lemma_filter_blank(l);
    lemma_filter_blank(r);
    assert(Seq::<char>::empty() + t.filter(not_whitespace()) + Seq::<char>::empty() == t.filter(
        not_whitespace(),
    ));
}

/// What reading a text leaves: finished sentences that end at a terminator
/// and hold none before it, a run with no terminator, and between them all
/// the text's non-whitespace characters in order.
proof fn lemma_sentence_scan_parts(s: Seq<char>)
    ensures
        forall|i: int|
            0 <= i < sentence_scan(s).0.len() ==> {
                &&& (#[trigger] sentence_scan(s).0[i]).len() > 0
                &&& is_terminator(sentence_scan(s).0[i].last())
                &&& forall|j: int|
                    0 <= j < sentence_scan(s).0[i].len() - 1 ==> !is_terminator(
                        #[trigger] sentence_scan(s).0[i][j],
                    )
            },
        forall|j: int|
            0 <= j < sentence_scan(s).1.len() ==> !is_terminator(#[trigger] sentence_scan(s).1[j]),
        s.filter(not_whitespace()) == sentence_scan(s).0.flatten().filter(not_whitespace())
            + sentence_scan(s).1.filter(not_whitespace()),
    decreases s.len(),
{
    let nw = not_whitespace();
    if s.len() > 0 {
        let p = s.drop_last();
        let c = s.last();
        lemma_sentence_scan_parts(p);
        let (done, cur) = sentence_scan(p);
        let run = cur.push(c);
        assert(p.push(c) == s);
        p.lemma_filter_push(c, nw);
        cur.lemma_filter_push(c, nw);
        let df = done.flatten().filter(nw);
        assert(s.filter(nw) == df + run.filter(nw)) by {
            if nw(c) {
                assert((df + cur.filter(nw)).push(c) == df + cur.filter(nw).push(c));
            }
        }
        if is_terminator(c) {
            let t = trim(run);
            lemma_filter_trim(run);
            let (a, b) = lemma_trim_split(run);
            assert(!char_is_whitespace(c));
            if b < run.len() {
                assert(run.subrange(b, run.len() as int)[run.len() - 1 - b] == run[run.len() - 1]);
            }
            if a == run.len() {
                assert(run.take(a)[run.len() - 1] == c);
            }
            assert forall|j: int| 0 <= j < t.len() - 1 implies !is_terminator(#[trigger] t[j]) by {
                assert(t[j] == run[a + j]);
                assert(run[a + j] == cur[a + j]);
            }
            assert(t.last() == run[b - 1]);
            done.lemma_flatten_push(t);
            Seq::filter_distributes_over_add(done.flatten(), t, nw);
            let nd = done.push(t);
            assert forall|i: int| 0 <= i < nd.len() implies {
                &&& (#[trigger] nd[i]).len() > 0
                &&& is_terminator(nd[i].last())
                &&& forall|j: int| 0 <= j < nd[i].len() - 1 ==> !is_terminator(#[trigger] nd[i][j])
            } by {
                if i < done.len() {
                    assert(nd[i] == done[i]);
                }
            }
            reveal(Seq::filter);
            assert(Seq::<char>::empty().filter(nw) == Seq::<char>::empty());
            assert(df + t.filter(nw) + Seq::<char>::empty() == df + t.filter(nw));
        } else {
            assert forall|j: int| 0 <= j < run.len() implies !is_terminator(#[trigger] run[j]) by {
                if j < cur.len() {
                    assert(run[j] == cur[j]);
                }
            }
        }
    } else {
        reveal(Seq::filter);
        assert(Seq::<Seq<char>>::empty().flatten() == Seq::<char>::empty());
    }
}

/// Sentences end at '.', '!' and '?': every sentence but the last ends with
/// one of them, no sentence holds one anywhere but at its end, and the
/// sentences hold all the text's non-whitespace characters, in order.
pub proof fn lemma_sentences_split_at_terminators(text: Seq<char>)
    ensures
        forall|i: int|
            0 <= i < sentences_of(text).len() - 1 ==> {
                let e = (#[trigger] sentences_of(text)[i]).last();
                e == '.' || e == '!' || e == '?'
            },
        forall|i: int, j: int|
            0 <= i < sentences_of(text).len() && 0 <= j < sentences_of(text)[i].len() - 1 ==> {
                let c = #[trigger] sentences_of(text)[i][j];
                !(c == '.' || c == '!' || c == '?')
            },
        text.filter(not_whitespace()) == sentences_of(text).flatten().filter(not_whitespace()),
{
    let nw = not_whitespace();
    lemma_sentence_scan_parts(text);
    let (done, cur) = sentence_scan(text);
    let t = trim(cur);
    if t.len() > 0 {
        let (a, b) = lemma_trim_split(cur);
        assert forall|j: int| 0 <= j < t.len() implies !is_terminator(#[trigger] t[j]) by {
            assert(t[j] == cur[a + j]);
        }
        lemma_filter_trim(cur);
        done.lemma_flatten_push(t);
        Seq::filter_distributes_over_add(done.flatten(), t, nw);
        let s = done.push(t);
        assert forall|i: int| 0 <= i < s.len() - 1 implies {
            let e = (#[trigger] s[i]).last();
            e == '.' || e == '!' || e == '?'
        } by {
            assert(s[i] == done[i]);
        }
        assert forall|i: int, j: int| 0 <= i < s.len() && 0 <= j < s[i].len() - 1 implies {
            let c = #[trigger] s[i][j];
            !(c == '.' || c == '!' || c == '?')
        } by {
            if i < done.len() {
                assert(s[i] == done[i]);
                assert(!is_terminator(done[i][j]));
            } else {
                assert(s[i] == t);
                assert(!is_terminator(t[j]));
            }
        }
    } else {
        lemma_trim_empty_iff(cur);
        lemma_filter_blank(cur);
        assert(done.flatten().filter(nw) + Seq::<char>::empty() == done.flatten().filter(nw));
        assert forall|i: int, j: int| 0 <= i < done.len() && 0 <= j < done[i].len() - 1 implies {
            let c = #[trigger] done[i][j];
            !(c == '.' || c == '!' || c == '?')
        } by {
            assert(!is_terminator(done[i][j]));
        }
    }
}

/// Gathering sentences whose tokens fit the budget closes no chunk: the text
/// gathered is the sentences joined with spaces, followed by a space.
proof fn lemma_chunk_scan_within_budget(sents: Seq<Seq<char>>, size: nat, overlap: nat)
    requires
        token_total(sents) <= size,
    ensures
        chunk_scan(sents, size, overlap) == (
            Seq::<Seq<char>>::empty(),
            if sents.len() == 0 {
                Seq::<char>::empty()
            } else {
                join(sents, seq![' ']) + seq![' ']
            },
            token_total(sents),
        ),
    decreases sents.len(),
{
    if sents.len() > 0 {
        let p = sents.drop_last();
        lemma_chunk_scan_within_budget(p, size, overlap);
        if p.len() == 0 {
            assert(Seq::<char>::empty() + sents.last() + seq![' '] == sents.last() + seq![' ']);
            assert(sents.last() == sents[0]);
        } else {
            assert(join(p, seq![' ']) + seq![' '] + sents.last() + seq![' '] == join(
                sents,
                seq![' '],
            ) + seq![' ']);
        }
    }
}

/// A text whose sentences fit the chunk budget together is a single chunk:
/// its sentences joined with single spaces (no chunk when it is blank).
pub proof fn lemma_within_budget_one_chunk(text: Seq<char>, size: nat, overlap: nat)
    requires
        token_total(sentences_of(text)) <= size,
    ensures
        chunk_pieces(text, size, overlap) == if sentences_of(text).len() == 0 {
            Seq::<Seq<char>>::empty()
        } else {
            seq![join(sentences_of(text), seq![' '])]
        },
{
    let sents = sentences_of(text);
    lemma_sentences_of(text);
    lemma_chunk_scan_within_budget(sents, size, overlap);
    if sents.len() > 0 {
        assert forall|i: int| 0 <= i < sents.len() implies (#[trigger] sents[i]).len() > 0 by {}
        let j = join(sents, seq![' ']);
        lemma_join_ends(sents);
        lemma_trim_shape(sents[0]);
        lemma_trim_shape(sents.last());
        assert(trim_start(j) == j);
        assert(trim_end(j) == j);
        lemma_trim_ws_around(Seq::<char>::empty(), j, seq![' ']);
    }
}

/// Sentences whose tokens pass the budget together, two or more of them,
/// make the chunker close a chunk.
proof fn lemma_chunk_scan_over_budget(sents: Seq<Seq<char>>, size: nat, overlap: nat)
    requires
        sents.len() >= 2,
        token_total(sents) > size,
    ensures
        chunk_scan(sents, size, overlap).0.len() >= 1,
    decreases sents.len(),
{
    let p = sents.drop_last();
    if p.len() >= 2 && token_total(p) > size {
        lemma_chunk_scan_over_budget(p, size, overlap);
    } else if token_total(p) <= size {
        lemma_chunk_scan_within_budget(p, size, overlap);
        assert((join(p, seq![' ']) + seq![' ']).len() > 0);
    } else {
        assert(p.drop_last().len() == 0);
        assert(token_total(p.drop_last()) == 0);
        assert(chunk_scan(p.drop_last(), size, overlap) == (
            Seq::<Seq<char>>::empty(),
            Seq::<char>::empty(),
            0nat,
        ));
        assert((Seq::<char>::empty() + p.last() + seq![' ']).len() > 0);
    }
}

/// A text of two or more sentences whose tokens pass the chunk budget
/// together gives two chunks or more.
pub proof fn lemma_over_budget_several_chunks(text: Seq<char>, size: nat, overlap: nat)
    requires
        sentences_of(text).len() >= 2,
        token_total(sentences_of(text)) > size,
    ensures
        chunk_pieces(text, size, overlap).len() >= 2,
{
    let sents = sentences_of(text);
    lemma_sentences_of(text);
    lemma_chunk_scan_over_budget(sents, size, overlap);
    lemma_chunk_scan(sents, size, overlap);
    let (pieces, cur, _) = chunk_scan(sents, size, overlap);
    lemma_trim_empty_iff(cur);
}

/// The last `k` parts.
pub open spec fn last_parts(parts: Seq<Seq<char>>, k: int) -> Seq<Seq<char>> {
    parts.subrange(parts.len() - k, parts.len() as int)
}

/// The overlap walk keeps at least one sentence; beyond one, the kept
/// sentences' tokens fit the budget, and one more would not.
proof fn lemma_overlap_walk(sents: Seq<Seq<char>>, limit: nat, taken: nat, tc: nat)
    requires
        taken <= sents.len(),
        tc == token_total(sents.subrange(sents.len() - taken, sents.len() as int)),
        taken >= 2 ==> tc <= limit,
    ensures
        taken <= overlap_keep(sents, limit, taken, tc) <= sents.len(),
        overlap_keep(sents, limit, taken, tc) >= 2 ==> token_total(
            sents.subrange(
                sents.len() - overlap_keep(sents, limit, taken, tc),
                sents.len() as int,
            ),
        ) <= limit,
        overlap_keep(sents, limit, taken, tc) < sents.len() ==> token_total(
            sents.subrange(
                sents.len() - overlap_keep(sents, limit, taken, tc) - 1,
                sents.len() as int,
            ),
        ) > limit,
    decreases sents.len() - taken,
{
    let n = sents.len();
    if taken < n {
        let t = token_count(sents[n - 1 - taken]);
        let wider = sents.subrange(n - taken - 1, n as int);
        lemma_token_total_first(wider);
        assert(wider.drop_first() == sents.subrange(n - taken, n as int));
        assert(wider[0] == sents[n - 1 - taken]);
        if !(tc + t > limit && taken > 0) {
            lemma_overlap_walk(sents, limit, taken + 1, tc + t);
        }
    }
}

/// The overlap of a text is its last k sentences joined with spaces, k at
/// least one: more than one only while their tokens fit the overlap budget,
/// and as many as fit (one more sentence would pass the budget).
pub proof fn lemma_overlap_within_budget(text: Seq<char>, limit: nat)
    ensures
        sentences_of(text).len() == 0 ==> overlap_text(text, limit) == Seq::<char>::empty(),
        sentences_of(text).len() > 0 ==> exists|k: int|
            {
                &&& 1 <= k <= sentences_of(text).len()
                &&& overlap_text(text, limit) == join(
                    #[trigger] last_parts(sentences_of(text), k),
                    seq![' '],
                )
                &&& k >= 2 ==> token_total(last_parts(sentences_of(text), k)) <= limit
                &&& k < sentences_of(text).len() ==> token_total(
                    last_parts(sentences_of(text), k + 1),
                ) > limit
            },
{
    let sents = sentences_of(text);
    let n = sents.len() as int;
    assert(sents.subrange(n, n).len() == 0);
    lemma_overlap_walk(sents, limit, 0, 0);
    lemma_overlap_keep_bounds(sents, limit, 0, 0);
    let k = overlap_keep(sents, limit, 0, 0) as int;
    if n > 0 {
        assert(overlap_text(text, limit) == join(last_parts(sents, k), seq![' ']));
        assert(last_parts(sents, k + 1) == sents.subrange(n - k - 1, n));
    } else {
        assert(sents.subrange(n - k, n).len() == 0);
    }
}

/// Splits content into chunks preserving sentence boundaries.
pub struct ChunkingEngine {
    chunk_size: usize,
    overlap: usize,
}

impl ChunkingEngine {
    /// The token budget of a chunk.
    pub closed spec fn max_tokens(&self) -> nat {
        self.chunk_size as nat
    }

    /// The token budget of the overlap between consecutive chunks.
    pub closed spec fn overlap_tokens(&self) -> nat {
        self.overlap as nat
    }

    pub fn new(chunk_size: usize, overlap: usize) -> (res: Self)
        ensures
            res.max_tokens() == chunk_size,
            res.overlap_tokens() == overlap,
    {
        ChunkingEngine { chunk_size, overlap }
    }

    /// How many trailing sentences the overlap keeps (`overlap_keep`), or
    /// `None` where the walk back cannot count a sentence's tokens.
    fn overlap_count(&self, sentences: &Vec<String>) -> (res: Option<usize>)
        ensures
            res is Some <==> overlap_walk_countable(views(sentences@), self.overlap_tokens(), 0, 0),
            res matches Some(k) ==> k == overlap_keep(views(sentences@), self.overlap_tokens(), 0, 0),
            res matches Some(k) ==> k <= sentences.len(),
    {
        let ghost sents = views(sentences@);
        let ghost limit = self.overlap as nat;
        let n = sentences.len();
        let mut taken: usize = 0;
        let mut tc: usize = 0;
        while taken < n
            invariant_except_break
                n == sentences.len() == sents.len(),
                overlap_keep(sents, limit, taken as nat, tc as nat) == overlap_keep(
                    sents,
                    limit,
                    0,
                    0,
                ),
                overlap_walk_countable(sents, limit, taken as nat, tc as nat)
                    == overlap_walk_countable(sents, limit, 0, 0),
                taken == 0 ==> tc == 0,
                taken > 0 ==> tc <= limit || taken == 1,
                sents == views(sentences@),
                limit == self.overlap,
            invariant
                taken <= n,
            ensures
                overlap_keep(sents, limit, 0, 0) == taken,
                overlap_walk_countable(sents, limit, 0, 0),
            decreases n - taken,
        {
            assert(sents[n - 1 - taken] == sentences@[n - 1 - taken]@);
            let t = match try_count_tokens(sentences[n - 1 - taken].as_str()) {
                Some(t) => t,
                None => {
                    return None;
                },
            };
            if (tc as u128) + (t as u128) > (self.overlap as u128) && taken > 0 {
                break;
            }
            tc = tc + t;
            taken = taken + 1;
        }
        Some(taken)
    }

    /// The last sentences of `text` within the overlap budget (at least one
    /// when there is any), joined with spaces.
    pub fn get_overlap(&self, text: &str) -> (res: String)
        requires
            overlap_countable(text@, self.overlap_tokens()),
        ensures
            res@ == overlap_text(text@, self.overlap_tokens()),
    {
        let sentences = split_sentences(text);
        let ghost sents = views(sentences@);
        let n = sentences.len();
        let taken = self.overlap_count(&sentences).unwrap();
        let space = vec![' '];
        assert(space@ == seq![' ']);
        let res = join_range(&sentences, n - taken, n, &space);
        assert(views(sentences@.subrange(n - taken, n as int)) == sents.subrange(
            n - taken,
            n as int,
        ));
        res
    }

    /// `get_overlap` where the walk back can count the sentences' tokens;
    /// `None` where it cannot.
    pub fn try_get_overlap(&self, text: &str) -> (res: Option<String>)
        ensures
            res is Some <==> overlap_countable(text@, self.overlap_tokens()),
            res matches Some(o) ==> o@ == overlap_text(text@, self.overlap_tokens()),
    {
        let sentences = split_sentences(text);
        if self.overlap_count(&sentences).is_some() {
            Some(self.get_overlap(text))
        } else {
            None
        }
    }

    /// The contents of the chunks of `text`, each of whose tokens can be
    /// counted, or `None` where chunking cannot make a token count it needs.
    fn scan_pieces(&self, text: &str) -> (res: Option<Vec<String>>)
        ensures
            res is Some <==> chunk_countable(text@, self.max_tokens(), self.overlap_tokens()),
            res matches Some(pieces) ==> views(pieces@) == chunk_pieces(
                text@,
                self.max_tokens(),
                self.overlap_tokens(),
            ),
            res matches Some(pieces) ==> forall|k: int|
                0 <= k < pieces.len() ==> encodable(#[trigger] pieces@[k]@),
    {
        let sentences = split_sentences(text);
        let ghost sents = views(sentences@);
        let ghost size = self.chunk_size as nat;
        let ghost ov = self.overlap as nat;
        let mut pieces: Vec<String> = Vec::new();
        let mut current = String::new();
        let mut current_tokens: u128 = 0;
        let mut i: usize = 0;
        assert(sents.take(0) == Seq::<Seq<char>>::empty());
        while i < sentences.len()
            invariant
                i <= sentences.len(),
                sents == views(sentences@),
                sents == sentences_of(text@),
                size == self.chunk_size,
                ov == self.overlap,
                chunk_scan(sents.take(i as int), size, ov) == (
                    views(pieces@),
                    current@,
                    current_tokens as nat,
                ),
                current_tokens <= 2 * (usize::MAX as u128),
                current@.len() == 0 ==> current_tokens == 0,
                forall|j: int| 0 <= j < i ==> #[trigger] step_countable_at(sents, j, size, ov),
                forall|k: int| 0 <= k < pieces.len() ==> encodable(#[trigger] pieces@[k]@),
            decreases sentences.len() - i,
        {
            let ghost pieces_before = pieces@;
            let ghost state_before = (views(pieces@), current@, current_tokens as nat);
            assert(sents[i as int] == sentences@[i as int]@);
            let st = match try_count_tokens(sentences[i].as_str()) {
                Some(t) => t,
                None => {
                    assert(!step_countable_at(sents, i as int, size, ov));
                    return None;
                },
            };
            if current_tokens + (st as u128) > (self.chunk_size as u128)
                && !current.as_str().is_empty() {
                let piece = trimmed(current.as_str());
                if try_count_tokens(piece.as_str()).is_none() {
                    assert(!step_countable_at(sents, i as int, size, ov));
                    return None;
                }
                let next = match self.try_get_overlap(current.as_str()) {
                    Some(o) => o,
                    None => {
                        assert(!step_countable_at(sents, i as int, size, ov));
                        return None;
                    },
                };
                let next_tokens = match try_count_tokens(next.as_str()) {
                    Some(t) => t,
                    None => {
                        assert(!step_countable_at(sents, i as int, size, ov));
                        return None;
                    },
                };
                pieces.push(piece);
                current_tokens = next_tokens as u128;
                current = next;
                assert(views(pieces@) == views(pieces_before).push(piece@));
                assert(pieces@[pieces@.len() - 1] == piece);
            }
            assert(step_countable_at(sents, i as int, size, ov));
            push_str(&mut current, sentences[i].as_str());
            current.push(' ');
            current_tokens = current_tokens + (st as u128);
            i = i + 1;
            proof {
                assert(sents.take(i as int).drop_last() == sents.take(i - 1));
                assert(sents.take(i as int).last() == sentences@[i - 1]@);
                assert(chunk_scan(sents.take(i as int), size, ov) == chunk_step(
                    state_before,
                    sentences@[i - 1]@,
                    size,
                    ov,
                ));
            }
        }
        assert(sents.take(sentences.len() as int) == sents);
        let ghost scan = chunk_scan(sents, size, ov);
        assert(scan.0 == views(pieces@) && scan.1 == current@);
        let tail = trimmed(current.as_str());
        if try_count_tokens(tail.as_str()).is_none() {
            return None;
        }
        if !tail.as_str().is_empty() {
            let ghost before = pieces@;
            pieces.push(tail);
            assert(views(pieces@) == views(before).push(tail@));
            assert(pieces@[pieces@.len() - 1] == tail);
        }
        assert(views(pieces@) == chunk_pieces(text@, size, ov));
        Some(pieces)
    }

    /// Splits text into sentence-aware chunks with overlap.
    pub fn chunk_text(&self, text: &str, source: &str) -> (res: Result<Vec<Chunk>, RagrsError>)
        requires
            chunk_countable(text@, self.max_tokens(), self.overlap_tokens()),
        ensures
            res is Ok,
            res matches Ok(chunks) && chunks_of_pieces(
                chunks@,
                chunk_pieces(text@, self.max_tokens(), self.overlap_tokens()),
                source@,
            ),
            all_trimmed_nonempty(chunk_pieces(text@, self.max_tokens(), self.overlap_tokens())),
            res matches Ok(chunks) && (chunks.len() == 0 <==> all_whitespace(text@)),
            res matches Ok(chunks) && forall|i: int, j: int|
                0 <= i < chunks.len() && 0 <= j < chunks.len() && i != j ==> #[trigger] chunks@[i].id@
                    != #[trigger] chunks@[j].id@,
    {
        proof {
            lemma_chunk_pieces(text@, self.chunk_size as nat, self.overlap as nat);
        }
        let pieces = self.scan_pieces(text).unwrap();
        let chunks = build_chunks(&pieces, source);
        proof {
            assert forall|i: int, j: int|
                0 <= i < chunks.len() && 0 <= j < chunks.len() && i != j implies #[trigger] chunks@[i].id@
                    != #[trigger] chunks@[j].id@ by {
                assert(chunks@[i].content@ == views(pieces@)[i]);
                assert(chunks@[j].content@ == views(pieces@)[j]);
                lemma_chunk_ids_distinct(source@, i as nat, j as nat);
            }
        }
        Ok(chunks)
    }

    /// `chunk_text` where every token count it makes can be made; `None`
    /// where one cannot.
    pub fn try_chunk_text(&self, text: &str, source: &str) -> (res: Option<Vec<Chunk>>)
        ensures
            res is Some <==> chunk_countable(text@, self.max_tokens(), self.overlap_tokens()),
            res matches Some(chunks) ==> chunks_of_pieces(
                chunks@,
                chunk_pieces(text@, self.max_tokens(), self.overlap_tokens()),
                source@,
            ),
    {
        if self.scan_pieces(text).is_some() {
            Some(self.chunk_text(text, source).unwrap())
        } else {
            None
        }
    }
}

impl Default for ChunkingEngine {
    /// A chunk budget of 200 tokens with 30 tokens of overlap.
    fn default() -> (res: Self)
        ensures
            res.max_tokens() == 200,
            res.overlap_tokens() == 30,
    {
        Self::new(200, 30)
    }
}

/// Chunks at different positions of one source have different ids.
pub proof fn lemma_chunk_ids_distinct(source: Seq<char>, i: nat, j: nat)
    requires
        i != j,
    ensures
        chunk_id(source, i) != chunk_id(source, j),
{
    let p = id_prefix(source) + seq!['_'];
    if chunk_id(source, i) == chunk_id(source, j) {
        assert(chunk_id(source, i).skip(p.len() as int) == decimal(i));
        assert(chunk_id(source, j).skip(p.len() as int) == decimal(j));
        lemma_decimal_injective(i, j);
    }
}

/// The chunks of `source` with the given contents, in order.
fn build_chunks(pieces: &Vec<String>, source: &str) -> (chunks: Vec<Chunk>)
    requires
        forall|k: int| 0 <= k < pieces.len() ==> encodable(#[trigger] pieces@[k]@),
    ensures
        chunks_of_pieces(chunks@, views(pieces@), source@),
{
    let ghost all = views(pieces@);
    let prefix = id_prefix_string(source);
    let total = pieces.len();
    let mut chunks: Vec<Chunk> = Vec::new();
    let mut j: usize = 0;
    while j < total
        invariant
            j <= total == pieces.len(),
            all == views(pieces@),
            prefix@ == id_prefix(source@),
            forall|k: int| 0 <= k < pieces.len() ==> encodable(#[trigger] pieces@[k]@),
            chunks.len() == j,
            forall|k: int|
                0 <= k < j ==> {
                    &&& #[trigger] chunks@[k].content@ == all[k]
                    &&& chunks@[k].id@ == chunk_id(source@, k as nat)
                    &&& chunks@[k].tokens == token_count(all[k])
                    &&& chunks@[k].metadata.source@ == source@
                    &&& chunks@[k].metadata.position == k
                    &&& chunks@[k].metadata.total_chunks == total
                },
        decreases total - j,
    {
        let mut id = prefix.clone();
        id.push('_');
        push_decimal(&mut id, j);
        assert(id@ == chunk_id(source@, j as nat));
        let content = pieces[j].clone();
        assert(content@ == all[j as int]);
        let mut chunk = Chunk::new(id, content, source.to_owned(), j);
        chunk.metadata.total_chunks = total;
        let ghost before = chunks@;
        chunks.push(chunk);
        proof {
            assert forall|k: int| 0 <= k < j + 1 implies {
                &&& #[trigger] chunks@[k].content@ == all[k]
                &&& chunks@[k].id@ == chunk_id(source@, k as nat)
                &&& chunks@[k].tokens == token_count(all[k])
                &&& chunks@[k].metadata.source@ == source@
                &&& chunks@[k].metadata.position == k
                &&& chunks@[k].metadata.total_chunks == total
            } by {
                if k < j {
                    assert(chunks@[k] == before[k]);
                } else {
                    assert(chunks@[k] == chunk);
                }
            }
        }
        j = j + 1;
    }
    chunks
}

/// `source` with each '.' and '/' replaced by '_'.
pub fn id_prefix_string(source: &str) -> (res: String)
    ensures
        res@ == id_prefix(source@),
{
    let mut res = String::new();
    for c in it: source.chars()
        invariant
            res@ == id_prefix(it.seq().take(it.index() as int)),
    {
        proof {
            let k = it.index() as int;
            assert(id_prefix(it.seq().take(k + 1)) == id_prefix(it.seq().take(k)).push(
                if c == '.' || c == '/' { '_' } else { c },
            ));
        }
        if c == '.' || c == '/' {
            res.push('_');
        } else {
            res.push(c);
        }
    }
    assert(source@.take(source@.len() as int) == source@);
    res
}

/// Splits text into sentences: each run up to and including '.', '!' or '?',
/// trimmed, then the trimmed rest if it is not blank.
pub fn split_sentences(text: &str) -> (res: Vec<String>)
    ensures
        views(res@) == sentences_of(text@),
        all_trimmed_nonempty(views(res@)),
        res.len() == 0 <==> all_whitespace(text@),
{
    proof {
        lemma_sentences_of(text@);
    }
    let cs = chars_of(text);
    let mut res: Vec<String> = Vec::new();
    let mut start: usize = 0;
    let mut i: usize = 0;
    while i < cs.len()
        invariant
            start <= i <= cs.len(),
            sentence_scan(cs@.take(i as int)) == (views(res@), cs@.subrange(start as int, i as int)),
        decreases cs.len() - i,
    {
        let c = cs[i];
        let ghost before = res@;
        i = i + 1;
        proof {
            assert(cs@.take(i as int).drop_last() == cs@.take(i - 1));
            assert(cs@.subrange(start as int, i - 1).push(c) == cs@.subrange(start as int, i as int));
        }
        if c == '.' || c == '!' || c == '?' {
            let (a, b) = trim_bounds(&cs, start, i);
            let sentence = string_of_range(&cs, a, b);
            res.push(sentence);
            start = i;
            proof {
                assert(views(res@) == views(before).push(sentence@));
                assert(cs@.subrange(i as int, i as int) == Seq::<char>::empty());
            }
        }
    }
    assert(cs@.take(cs@.len() as int) == cs@);
    let (a, b) = trim_bounds(&cs, start, cs.len());
    if a < b {
        let ghost before = res@;
        let sentence = string_of_range(&cs, a, b);
        res.push(sentence);
        assert(views(res@) == views(before).push(sentence@));
    }
    res
}

} // verus!
