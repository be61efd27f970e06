//! Display helpers for query results: markdown stripping, picking the most
//! relevant sentences of a chunk, and byte-bounded truncation.

use vstd::prelude::*;
use crate::chunking::is_terminator;
use crate::text::{
    all_ascii, ascii_lower, char_is_control, char_width, chars_of, join, join_range, lemma_utf8_prefix_le,
    lemma_utf8_take_succ, lowercase, string_of, string_of_range, trim, trim_bounds, utf8_len,
    utf8_width, views,
};
use crate::tokenize::{tokenize, tokens_of};

verus! {

/// The index of the first character at or after `i` that is not '#'.
pub open spec fn skip_hashes(s: Seq<char>, i: int) -> int
    decreases s.len() - i,
{
    if 0 <= i < s.len() && s[i] == '#' {
        skip_hashes(s, i + 1)
    } else {
        i
    }
}

pub proof fn lemma_skip_hashes(s: Seq<char>, i: int)
    requires
        0 <= i <= s.len(),
    ensures
        i <= skip_hashes(s, i) <= s.len(),
        forall|k: int| i <= k < skip_hashes(s, i) ==> #[trigger] s[k] == '#',
        skip_hashes(s, i) < s.len() ==> s[skip_hashes(s, i)] != '#',
    decreases s.len() - i,
{
    if i < s.len() && s[i] == '#' {
        lemma_skip_hashes(s, i + 1);
    }
}

/// The markdown-stripped text of `s[i..]`: a run of '#' and one space after
/// it are dropped, '*' and "**" markers are dropped, backticks are dropped,
/// and every other character is kept.
pub open spec fn strip_from(s: Seq<char>, i: int) -> Seq<char>
    decreases s.len() - i,
{
    if i < 0 || i >= s.len() {
        seq![]
    } else {
        let c = s[i];
        if c == '#' {
            let j = skip_hashes(s, i + 1);
            proof {
                lemma_skip_hashes(s, i + 1);
            }
            let k = if j < s.len() && s[j] == ' ' {
                j + 1
            } else {
                j
            };
            strip_from(s, k)
        } else if c == '*' {
            if i + 1 < s.len() && s[i + 1] == '*' {
                strip_from(s, i + 2)
            } else {
                strip_from(s, i + 1)
            }
        } else if c == '`' {
            strip_from(s, i + 1)
        } else {
            seq![c] + strip_from(s, i + 1)
        }
    }
}

/// The markdown-stripped text of `s`.
pub open spec fn strip_markdown_spec(s: Seq<char>) -> Seq<char> {
    strip_from(s, 0)
}

/// `s` holds none of the characters that markdown stripping removes.
pub open spec fn markdown_free(s: Seq<char>) -> bool {
    forall|k: int| 0 <= k < s.len() ==> #[trigger] s[k] != '#' && s[k] != '*' && s[k] != '`'
}

/// Stripping leaves no marker characters behind.
proof fn lemma_strip_from_free(s: Seq<char>, i: int)
    ensures
        markdown_free(strip_from(s, i)),
    decreases s.len() - i,
{
    if 0 <= i < s.len() {
        let c = s[i];
        if c == '#' {
            lemma_skip_hashes(s, i + 1);
            let j = skip_hashes(s, i + 1);
            let k = if j < s.len() && s[j] == ' ' {
                j + 1
            } else {
                j
            };
            lemma_strip_from_free(s, k);
        } else if c == '*' {
            if i + 1 < s.len() && s[i + 1] == '*' {
                lemma_strip_from_free(s, i + 2);
            } else {
                lemma_strip_from_free(s, i + 1);
            }
        } else if c == '`' {
            lemma_strip_from_free(s, i + 1);
        } else {
            lemma_strip_from_free(s, i + 1);
            let r = strip_from(s, i + 1);
            assert forall|k: int| 0 <= k < (seq![c] + r).len() implies #[trigger] (seq![c] + r)[k]
                != '#' && (seq![c] + r)[k] != '*' && (seq![c] + r)[k] != '`' by {
                if k > 0 {
                    assert((seq![c] + r)[k] == r[k - 1]);
                }
            }
        }
    }
}

/// Stripping text without markers keeps it as it is.
proof fn lemma_strip_from_identity(s: Seq<char>, i: int)
    requires
        markdown_free(s),
        0 <= i <= s.len(),
    ensures
        strip_from(s, i) == s.subrange(i, s.len() as int),
    decreases s.len() - i,
{
    if i < s.len() {
        lemma_strip_from_identity(s, i + 1);
        assert(s.subrange(i, s.len() as int) == seq![s[i]] + s.subrange(i + 1, s.len() as int));
    }
}

/// Markdown stripping is idempotent: stripped text is stripped again to
/// itself.
pub proof fn lemma_strip_markdown_idempotent(s: Seq<char>)
    ensures
        strip_markdown_spec(strip_markdown_spec(s)) == strip_markdown_spec(s),
        markdown_free(strip_markdown_spec(s)),
{
    let t = strip_markdown_spec(s);
    lemma_strip_from_free(s, 0);
    lemma_strip_from_identity(t, 0);
    assert(t.subrange(0, t.len() as int) == t);
}

/// Strips markdown formatting from text: header markers (with the space
/// after them), bold and italic markers, and backticks.
pub fn strip_markdown(text: &str) -> (res: String)
    ensures
        res@ == strip_markdown_spec(text@),
        markdown_free(res@),
{
    proof {
        lemma_strip_markdown_idempotent(text@);
    }
    let cs = chars_of(text);
    let ghost s = cs@;
    let mut out: Vec<char> = Vec::new();
    let mut i: usize = 0;
    while i < cs.len()
        invariant
            s == cs@,
            i <= cs.len(),
            strip_from(s, 0) == out@ + strip_from(s, i as int),
        decreases cs.len() - i,
    {
        let c = cs[i];
        let ghost before = out@;
        if c == '#' {
            let mut j = i + 1;
            while j < cs.len() && cs[j] == '#'
                invariant
                    i + 1 <= j <= cs.len(),
                    s == cs@,
                    skip_hashes(s, i + 1) == skip_hashes(s, j as int),
                decreases cs.len() - j,
            {
                j = j + 1;
            }
            if j < cs.len() && cs[j] == ' ' {
                j = j + 1;
            }
            i = j;
        } else if c == '*' {
            if i + 1 < cs.len() && cs[i + 1] == '*' {
                i = i + 2;
            } else {
                i = i + 1;
            }
        } else if c == '`' {
            i = i + 1;
        } else {
            out.push(c);
            i = i + 1;
            assert(out@ + strip_from(s, i as int) == before + (seq![c] + strip_from(s, i as int)));
        }
    }
    string_of(&out)
}

/// How many leading characters of `t[i..]` fit in `budget` bytes.
pub open spec fn chars_within_from(t: Seq<char>, i: int, budget: int) -> int
    decreases t.len() - i,
{
    if i < 0 || i >= t.len() || char_width(t[i]) > budget {
        0
    } else {
        1 + chars_within_from(t, i + 1, budget - char_width(t[i]))
    }
}

/// How many leading characters of `t` fit in `max` bytes.
pub open spec fn chars_within(t: Seq<char>, max: nat) -> int {
    chars_within_from(t, 0, max as int)
}

/// Cutting `t` after `max` bytes falls between two characters (or `t` is no
/// longer than that).
pub open spec fn truncatable(t: Seq<char>, max: nat) -> bool {
    utf8_len(t) <= max || utf8_len(t.take(chars_within(t, max))) == max
}

/// `t` itself when it has at most `max` bytes, else its first `max` bytes
/// followed by "...".
pub open spec fn truncated(t: Seq<char>, max: nat) -> Seq<char> {
    if utf8_len(t) <= max {
        t
    } else {
        t.take(chars_within(t, max)) + seq!['.', '.', '.']
    }
}

/// Whether `text` can be cut after `max_chars` bytes without splitting a
/// character (or needs no cut).
pub fn can_truncate(text: &str, max_chars: usize) -> (res: bool)
    ensures
        res == truncatable(text@, max_chars as nat),
{
    let cs = chars_of(text);
    let (i, acc, fits) = scan_within(&cs, max_chars);
    fits || acc == max_chars
}

/// Walks `cs` while the characters fit in `max` bytes: returns how many fit,
/// their byte total, and whether all of `cs` fits.
fn scan_within(cs: &Vec<char>, max: usize) -> (res: (usize, usize, bool))
    ensures
        res.0 == chars_within(cs@, max as nat),
        res.0 <= cs.len(),
        res.1 == utf8_len(cs@.take(res.0 as int)),
        res.1 <= max,
        res.2 == (utf8_len(cs@) <= max),
        res.2 ==> res.0 == cs.len(),
{
    let ghost t = cs@;
    let mut i: usize = 0;
    let mut acc: usize = 0;
    assert(t.take(0) == Seq::<char>::empty());
    assert(utf8_len(Seq::<char>::empty()) == 0);
    while i < cs.len() && utf8_width(cs[i]) <= max - acc
        invariant
            t == cs@,
            i <= cs.len(),
            acc <= max,
            acc == utf8_len(t.take(i as int)),
            chars_within(t, max as nat) == i + chars_within_from(t, i as int, max - acc),
        decreases cs.len() - i,
    {
        proof {
            lemma_utf8_take_succ(t, i as int);
        }
        acc = acc + utf8_width(cs[i]);
        i = i + 1;
    }
    if i == cs.len() {
        assert(t.take(i as int) == t);
        (i, acc, true)
    } else {
        proof {
            lemma_utf8_take_succ(t, i as int);
            lemma_utf8_prefix_le(t, i + 1);
        }
        (i, acc, false)
    }
}

/// The text itself when it has at most `max_chars` bytes, else its first
/// `max_chars` bytes followed by "...".
pub fn truncate(text: &str, max_chars: usize) -> (res: String)
    requires
        truncatable(text@, max_chars as nat),
    ensures
        res@ == truncated(text@, max_chars as nat),
{
    let cs = chars_of(text);
    let (i, acc, fits) = scan_within(&cs, max_chars);
    if fits {
        text.to_owned()
    } else {
        let mut res = string_of_range(&cs, 0, i);
        res.push('.');
        res.push('.');
        res.push('.');
        assert(cs@.subrange(0, i as int) == cs@.take(i as int));
        res
    }
}

/// The characters a snippet keeps: all but control characters.
pub open spec fn keeps_char() -> spec_fn(char) -> bool {
    |c: char| !char_is_control(c) || c == ' '
}

/// Reading `s` left to right: the pieces finished at a terminator and the
/// piece being read.
pub open spec fn split_scan(s: Seq<char>) -> (Seq<Seq<char>>, Seq<char>)
    decreases s.len(),
{
    if s.len() == 0 {
        (seq![], seq![])
    } else {
        let (done, cur) = split_scan(s.drop_last());
        if is_terminator(s.last()) {
            (done.push(cur), seq![])
        } else {
            (done, cur.push(s.last()))
        }
    }
}

/// The pieces of `s` between terminators, empty ones included (what
/// `str::split(['.', '!', '?'])` yields).
pub open spec fn split_pieces(s: Seq<char>) -> Seq<Seq<char>> {
    let (done, cur) = split_scan(s);
    done.push(cur)
}

/// A candidate sentence is longer than ten UTF-8 bytes.
pub open spec fn long_enough() -> spec_fn(Seq<char>) -> bool {
    |p: Seq<char>| utf8_len(p) > 10
}

/// The candidate sentences of a cleaned text: its trimmed pieces longer than
/// ten bytes.
pub open spec fn snippet_sentences(clean: Seq<char>) -> Seq<Seq<char>> {
    split_pieces(clean).map_values(|p: Seq<char>| trim(p)).filter(long_enough())
}

/// `needle` occurs in `hay` as a run of consecutive characters.
pub open spec fn contains_text(hay: Seq<char>, needle: Seq<char>) -> bool {
    exists|i: int|
        0 <= i && i + needle.len() <= hay.len() && #[trigger] hay.subrange(i, i + needle.len())
            == needle
}

/// The terms that occur in the lowercased sentence.
pub open spec fn occurs_in_lowercase(sentence: Seq<char>) -> spec_fn(Seq<char>) -> bool {
    |t: Seq<char>| contains_text(lowercase(sentence), t)
}

/// How many of the query terms occur in the lowercased sentence (counting
/// repeated terms each time).
pub open spec fn sentence_score(sentence: Seq<char>, terms: Seq<Seq<char>>) -> nat {
    terms.filter(occurs_in_lowercase(sentence)).len()
}

/// Scores every sentence against the terms.
pub open spec fn sentence_scores(sents: Seq<Seq<char>>, terms: Seq<Seq<char>>) -> Seq<nat> {
    sents.map_values(|s: Seq<char>| sentence_score(s, terms))
}

/// The first index with the highest score, and that score; index 0 when no
/// score is positive.
pub open spec fn best_scan(scores: Seq<nat>) -> (int, nat)
    decreases scores.len(),
{
    if scores.len() == 0 {
        (0, 0)
    } else {
        let (b, bs) = best_scan(scores.drop_last());
        if scores.last() > bs {
            (scores.len() - 1, scores.last())
        } else {
            (b, bs)
        }
    }
}

/// The text a snippet is cut from: the cleaned chunk when it has no sentence
/// longer than ten bytes; else the best-matching sentence with its neighbours,
/// joined with ". ".
pub open spec fn snippet_body_spec(content: Seq<char>, query: Seq<char>) -> Seq<char> {
    let clean = strip_markdown_spec(content).filter(keeps_char());
    let sents = snippet_sentences(clean);
    if sents.len() == 0 {
        clean
    } else {
        let terms = tokens_of(query);
        let best = best_scan(sentence_scores(sents, terms)).0;
        let start = if best >= 1 {
            best - 1
        } else {
            0
        };
        let end = if best + 2 < sents.len() {
            best + 2
        } else {
            sents.len() as int
        };
        join(sents.subrange(start, end), seq!['.', ' '])
    }
}

/// The chunk without markdown markers and control characters.
fn clean_text(content: &str) -> (res: Vec<char>)
    ensures
        res@ == strip_markdown_spec(content@).filter(keeps_char()),
{
    let stripped = strip_markdown(content);
    let cs = chars_of(stripped.as_str());
    let mut out: Vec<char> = Vec::new();
    let mut i: usize = 0;
    while i < cs.len()
        invariant
            i <= cs.len(),
            out@ == cs@.take(i as int).filter(keeps_char()),
        decreases cs.len() - i,
    {
        let c = cs[i];
        proof {
            reveal(Seq::filter);
            assert(cs@.take(i + 1).drop_last() == cs@.take(i as int));
            assert(cs@.take(i + 1).last() == c);
        }
        if !c.is_control() || c == ' ' {
            out.push(c);
        }
        i = i + 1;
    }
    assert(cs@.take(cs@.len() as int) == cs@);
    out
}

/// Whether the UTF-8 encoding of `cs[from..to]` has more than `bound` bytes.
fn utf8_len_exceeds(cs: &Vec<char>, from: usize, to: usize, bound: usize) -> (res: bool)
    requires
        from <= to <= cs.len(),
        bound < usize::MAX - 4,
    ensures
        res == (utf8_len(cs@.subrange(from as int, to as int)) > bound),
{
    let ghost t = cs@.subrange(from as int, to as int);
    let mut acc: usize = 0;
    let mut i: usize = from;
    assert(t.take(0) == Seq::<char>::empty());
    assert(utf8_len(Seq::<char>::empty()) == 0);
    while i < to
        invariant
            from <= i <= to <= cs.len(),
            t == cs@.subrange(from as int, to as int),
            acc <= bound,
            bound < usize::MAX - 4,
            acc == utf8_len(t.take(i - from)),
        decreases to - i,
    {
        proof {
            lemma_utf8_take_succ(t, i - from);
            assert(t[i - from] == cs@[i as int]);
        }
        acc = acc + utf8_width(cs[i]);
        i = i + 1;
        if acc > bound {
            proof {
                lemma_utf8_prefix_le(t, i - from);
            }
            return true;
        }
    }
    assert(t.take(to - from) == t);
    false
}

/// Adding a piece to the piece list adds its trimmed form when long enough.
proof fn lemma_sentences_push(done: Seq<Seq<char>>, piece: Seq<char>)
    ensures
        done.push(piece).map_values(|p: Seq<char>| trim(p)).filter(long_enough()) == if utf8_len(
            trim(piece),
        ) > 10 {
            done.map_values(|p: Seq<char>| trim(p)).filter(long_enough()).push(trim(piece))
        } else {
            done.map_values(|p: Seq<char>| trim(p)).filter(long_enough())
        },
{
    reveal(Seq::filter);
    let m = done.push(piece).map_values(|p: Seq<char>| trim(p));
    assert(m == done.map_values(|p: Seq<char>| trim(p)).push(trim(piece)));
    assert(m.drop_last() == done.map_values(|p: Seq<char>| trim(p)));
}

/// The candidate sentences of a cleaned text.
fn sentences_for_snippet(cs: &Vec<char>) -> (res: Vec<String>)
    ensures
        views(res@) == snippet_sentences(cs@),
{
    let ghost s = cs@;
    let mut res: Vec<String> = Vec::new();
    let mut start: usize = 0;
    let mut i: usize = 0;
    while i < cs.len()
        invariant
            s == cs@,
            start <= i <= cs.len(),
            split_scan(s.take(i as int)).1 == s.subrange(start as int, i as int),
            views(res@) == split_scan(s.take(i as int)).0.map_values(|p: Seq<char>| trim(p)).filter(
                long_enough(),
            ),
        decreases cs.len() - i,
    {
        let c = cs[i];
        let ghost done = split_scan(s.take(i as int)).0;
        proof {
            assert(s.take(i + 1).drop_last() == s.take(i as int));
            assert(s.take(i + 1).last() == c);
        }
        if c == '.' || c == '!' || c == '?' {
            let (a, b) = trim_bounds(cs, start, i);
            proof {
                lemma_sentences_push(done, s.subrange(start as int, i as int));
            }
            if utf8_len_exceeds(cs, a, b, 10) {
                let ghost before = views(res@);
                let piece = string_of_range(cs, a, b);
                res.push(piece);
                assert(views(res@) == before.push(piece@));
            }
            start = i + 1;
            assert(s.subrange(start as int, (i + 1) as int) == Seq::<char>::empty());
        } else {
            assert(s.subrange(start as int, i as int).push(c) == s.subrange(start as int, i + 1));
        }
        i = i + 1;
    }
    assert(s.take(s.len() as int) == s);
    let (a, b) = trim_bounds(cs, start, cs.len());
    proof {
        lemma_sentences_push(split_scan(s).0, s.subrange(start as int, s.len() as int));
    }
    if utf8_len_exceeds(cs, a, b, 10) {
        let ghost before = views(res@);
        let piece = string_of_range(cs, a, b);
        res.push(piece);
        assert(views(res@) == before.push(piece@));
    }
    res
}

/// Whether `needle` occurs in `hay` starting at `i`.
fn matches_at(hay: &Vec<char>, needle: &Vec<char>, i: usize) -> (res: bool)
    requires
        i + needle.len() <= hay.len(),
    ensures
        res == (hay@.subrange(i as int, i + needle.len()) == needle@),
{
    let mut j: usize = 0;
    while j < needle.len()
        invariant
            j <= needle.len(),
            i + needle.len() <= hay.len(),
            forall|k: int| 0 <= k < j ==> hay@[i + k] == #[trigger] needle@[k],
        decreases needle.len() - j,
    {
        if hay[i + j] != needle[j] {
            assert(hay@.subrange(i as int, i + needle.len())[j as int] != needle@[j as int]);
            return false;
        }
        j = j + 1;
    }
    assert(hay@.subrange(i as int, i + needle.len()) =~= needle@);
    true
}

/// Whether `needle` occurs in `hay` as a run of consecutive characters.
pub fn contains_chars(hay: &Vec<char>, needle: &Vec<char>) -> (res: bool)
    ensures
        res == contains_text(hay@, needle@),
{
    if needle.len() > hay.len() {
        return false;
    }
    let last = hay.len() - needle.len();
    let mut i: usize = 0;
    loop
        invariant
            last == hay.len() - needle.len(),
            needle.len() <= hay.len(),
            i <= last,
            forall|k: int|
                0 <= k < i ==> #[trigger] hay@.subrange(k, k + needle.len()) != needle@,
        decreases last - i,
    {
        if matches_at(hay, needle, i) {
            return true;
        }
        if i == last {
            return false;
        }
        i = i + 1;
    }
}

/// How many of the terms occur in the lowercased sentence.
fn score_sentence(sentence: &String, terms: &Vec<String>) -> (res: usize)
    ensures
        res == sentence_score(sentence@, views(terms@)),
{
    let lower = sentence.as_str().to_lowercase();
    let hay = chars_of(lower.as_str());
    let ghost pred = occurs_in_lowercase(sentence@);
    let ghost tv = views(terms@);
    let mut count: usize = 0;
    let mut i: usize = 0;
    while i < terms.len()
        invariant
            i <= terms.len(),
            tv == views(terms@),
            hay@ == lowercase(sentence@),
            pred == occurs_in_lowercase(sentence@),
            count <= i,
            count == tv.take(i as int).filter(pred).len(),
        decreases terms.len() - i,
    {
        let needle = chars_of(terms[i].as_str());
        proof {
            reveal(Seq::filter);
            assert(tv.take(i + 1).drop_last() == tv.take(i as int));
            assert(tv.take(i + 1).last() == terms@[i as int]@);
        }
        if contains_chars(&hay, &needle) {
            count = count + 1;
        }
        i = i + 1;
    }
    assert(tv.take(tv.len() as int) == tv);
    count
}

/// The text a snippet is cut from: the best-matching sentence of the cleaned
/// chunk with its neighbours, or the whole cleaned chunk when it has no
/// sentence longer than ten bytes.
pub fn snippet_body(content: &str, query: &str) -> (res: String)
    ensures
        res@ == snippet_body_spec(content@, query@),
{
    let clean = clean_text(content);
    let sentences = sentences_for_snippet(&clean);
    let n = sentences.len();
    if n == 0 {
        return string_of(&clean);
    }
    let terms = tokenize(query);
    let ghost sents = views(sentences@);
    let ghost scores = sentence_scores(sents, views(terms@));
    let mut best: usize = 0;
    let mut best_score: usize = 0;
    let mut i: usize = 0;
    assert(scores.take(0) == Seq::<nat>::empty());
    while i < n
        invariant
            i <= n == sentences.len(),
            sents == views(sentences@),
            scores == sentence_scores(sents, views(terms@)),
            (best as int, best_score as nat) == best_scan(scores.take(i as int)),
            best < n,
        decreases n - i,
    {
        let score = score_sentence(&sentences[i], &terms);
        proof {
            assert(scores.take(i + 1).drop_last() == scores.take(i as int));
            assert(scores.take(i + 1).last() == scores[i as int]);
            assert(scores[i as int] == sentence_score(sents[i as int], views(terms@)));
        }
        if score > best_score {
            best = i;
            best_score = score;
        }
        i = i + 1;
    }
    assert(scores.take(n as int) == scores);
    let start = if best >= 1 {
        best - 1
    } else {
        0
    };
    let end = if n - best > 2 {
        best + 2
    } else {
        n
    };
    let sep = vec!['.', ' '];
    assert(sep@ == seq!['.', ' ']);
    let res = join_range(&sentences, start, end, &sep);
    assert(views(sentences@.subrange(start as int, end as int)) == sents.subrange(start as int, end as int));
    res
}

/// The snippet of a chunk shown for a query: the best-matching sentence with
/// its neighbours, cut after `max_chars` bytes.
pub fn extract_relevant_snippet(content: &str, query: &str, max_chars: usize) -> (res: String)
    requires
        truncatable(snippet_body_spec(content@, query@), max_chars as nat),
    ensures
        res@ == truncated(snippet_body_spec(content@, query@), max_chars as nat),
{
    let body = snippet_body(content, query);
    truncate(body.as_str(), max_chars)
}

/// `extract_relevant_snippet` where the cut after `max_chars` bytes falls on
/// a character boundary; `None` where it would split a character.
pub fn try_extract_relevant_snippet(content: &str, query: &str, max_chars: usize) -> (res: Option<
    String,
>)
    ensures
        res is Some <==> truncatable(snippet_body_spec(content@, query@), max_chars as nat),
        res matches Some(s) ==> s@ == truncated(snippet_body_spec(content@, query@), max_chars as nat),
{
    let body = snippet_body(content, query);
    if can_truncate(body.as_str(), max_chars) {
        Some(extract_relevant_snippet(content, query, max_chars))
    } else {
        None
    }
}


/// A sentence-ending character, '.', '!' or '?', as a predicate.
pub open spec fn ends_sentence() -> spec_fn(char) -> bool {
    |c: char| c == '.' || c == '!' || c == '?'
}

/// Any other character, as a predicate.
pub open spec fn within_sentence() -> spec_fn(char) -> bool {
    |c: char| !(c == '.' || c == '!' || c == '?')
}

proof fn lemma_split_scan_parts(s: Seq<char>)
    ensures
        forall|i: int, j: int|
            0 <= i < split_scan(s).0.len() && 0 <= j < split_scan(s).0[i].len() ==> within_sentence()(
                #[trigger] split_scan(s).0[i][j],
            ),
        forall|j: int| 0 <= j < split_scan(s).1.len() ==> within_sentence()(#[trigger] split_scan(s).1[j]),
        split_scan(s).0.flatten() + split_scan(s).1 == s.filter(within_sentence()),
        split_scan(s).0.len() == s.filter(ends_sentence()).len(),
    decreases s.len(),
{
    if s.len() == 0 {
        reveal(Seq::filter);
        assert(Seq::<Seq<char>>::empty().flatten() + Seq::<char>::empty() == Seq::<char>::empty());
    } else {
        let p = s.drop_last();
        let c = s.last();
        lemma_split_scan_parts(p);
        let (done, cur) = split_scan(p);
        assert(p.push(c) == s);
        p.lemma_filter_push(c, within_sentence());
        p.lemma_filter_push(c, ends_sentence());
        if is_terminator(c) {
            done.lemma_flatten_push(cur);
            let nd = done.push(cur);
            assert forall|i: int, j: int|
                0 <= i < nd.len() && 0 <= j < nd[i].len() implies within_sentence()(
                #[trigger] nd[i][j],
            ) by {
                if i < done.len() {
                    assert(nd[i] == done[i]);
                }
            }
            assert(nd.flatten() + Seq::<char>::empty() == nd.flatten());
        } else {
            assert forall|j: int| 0 <= j < cur.push(c).len() implies within_sentence()(
                #[trigger] cur.push(c)[j],
            ) by {
                if j < cur.len() {
                    assert(cur.push(c)[j] == cur[j]);
                }
            }
            assert(done.flatten() + cur.push(c) == (done.flatten() + cur).push(c));
        }
    }
}

/// The snippet splitter cuts at every '.', '!' and '?' and nowhere else: no
/// piece holds one of them, the pieces together are the text without them,
/// and there is one piece more than there are of them.
pub proof fn lemma_split_pieces_at_terminators(s: Seq<char>)
    ensures
        forall|i: int, j: int|
            0 <= i < split_pieces(s).len() && 0 <= j < split_pieces(s)[i].len() ==> {
                let c = #[trigger] split_pieces(s)[i][j];
                !(c == '.' || c == '!' || c == '?')
            },
        split_pieces(s).flatten() == s.filter(within_sentence()),
        split_pieces(s).len() == s.filter(ends_sentence()).len() + 1,
{
    lemma_split_scan_parts(s);
    let (done, cur) = split_scan(s);
    done.lemma_flatten_push(cur);
    let all = done.push(cur);
    assert forall|i: int, j: int| 0 <= i < all.len() && 0 <= j < all[i].len() implies {
        let c = #[trigger] all[i][j];
        !(c == '.' || c == '!' || c == '?')
    } by {
        if i < done.len() {
            assert(all[i] == done[i]);
            assert(within_sentence()(done[i][j]));
        } else {
            assert(all[i] == cur);
            assert(within_sentence()(cur[j]));
        }
    }
}

/// Sentences that differ only in the case of ASCII letters score alike
/// against any query terms.
pub proof fn lemma_score_ignores_case(s1: Seq<char>, s2: Seq<char>, terms: Seq<Seq<char>>)
    requires
        all_ascii(s1),
        s1.len() == s2.len(),
        forall|i: int| 0 <= i < s1.len() ==> ascii_lower(#[trigger] s1[i]) == ascii_lower(s2[i]),
    ensures
        sentence_score(s1, terms) == sentence_score(s2, terms),
{
    assert forall|i: int| 0 <= i < s2.len() implies (#[trigger] s2[i] as u32) < 0x80 by {
        assert(ascii_lower(s1[i]) == ascii_lower(s2[i]));
        assert((s1[i] as u32) < 0x80);
    }
    assert(lowercase(s1) == lowercase(s2));
    assert(occurs_in_lowercase(s1) =~= occurs_in_lowercase(s2));
}

/// One more query term adds one to a sentence's score when the term occurs
/// in the sentence with its ASCII letters lowercased, and nothing otherwise.
pub proof fn lemma_score_push_term(s: Seq<char>, terms: Seq<Seq<char>>, t: Seq<char>)
    requires
        all_ascii(s),
    ensures
        sentence_score(s, terms.push(t)) == sentence_score(s, terms) + if contains_text(
            s.map_values(|c: char| ascii_lower(c)),
            t,
        ) {
            1nat
        } else {
            0nat
        },
{
    terms.lemma_filter_push(t, occurs_in_lowercase(s));
}

} // verus!
