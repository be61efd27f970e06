//! Tokenization and stop-word filtering for BM25 retrieval.

use vstd::prelude::*;
use vstd::utf8::encode_utf8;
use crate::text::{
    all_ascii, ascii_lower, char_is_alphanumeric, char_is_whitespace, chars_of, lowercase,
    string_of, utf8_len_at_least_two,
    views,
};

verus! {

/// The common English and French stop words.
pub open spec fn is_stop_word_spec(w: Seq<char>) -> bool {
    w == "the"@
        || w == "is"@
        || w == "at"@
        || w == "which"@
        || w == "on"@
        || w == "a"@
        || w == "an"@
        || w == "as"@
        || w == "are"@
        || w == "was"@
        || w == "were"@
        || w == "be"@
        || w == "been"@
        || w == "being"@
        || w == "have"@
        || w == "has"@
        || w == "had"@
        || w == "do"@
        || w == "does"@
        || w == "did"@
        || w == "will"@
        || w == "would"@
        || w == "should"@
        || w == "could"@
        || w == "may"@
        || w == "might"@
        || w == "must"@
        || w == "can"@
        || w == "shall"@
        || w == "of"@
        || w == "to"@
        || w == "for"@
        || w == "with"@
        || w == "in"@
        || w == "and"@
        || w == "or"@
        || w == "but"@
        || w == "not"@
        || w == "this"@
        || w == "that"@
        || w == "these"@
        || w == "those"@
        || w == "it"@
        || w == "its"@
        || w == "le"@
        || w == "la"@
        || w == "les"@
        || w == "un"@
        || w == "une"@
        || w == "des"@
        || w == "du"@
        || w == "de"@
        || w == "et"@
        || w == "ou"@
        || w == "est"@
        || w == "en"@
        || w == "au"@
        || w == "aux"@
        || w == "ce"@
        || w == "se"@
        || w == "qui"@
        || w == "que"@
        || w == "ne"@
        || w == "pas"@
        || w == "par"@
        || w == "sur"@
        || w == "son"@
        || w == "sa"@
        || w == "ses"@
        || w == "dans"@
        || w == "pour"@
        || w == "avec"@
        || w == "il"@
        || w == "elle"@
        || w == "nous"@
        || w == "vous"@
        || w == "ils"@
        || w == "ont"@
        || w == "sont"@
        || w == "mais"@
        || w == "plus"@
}

/// Checks whether a word is a common English or French stop word.
pub fn is_stop_word(word: &str) -> (res: bool)
    ensures
        res == is_stop_word_spec(word@),
{
    let w = word.to_owned();
    w == "the".to_owned()
        || w == "is".to_owned()
        || w == "at".to_owned()
        || w == "which".to_owned()
        || w == "on".to_owned()
        || w == "a".to_owned()
        || w == "an".to_owned()
        || w == "as".to_owned()
        || w == "are".to_owned()
        || w == "was".to_owned()
        || w == "were".to_owned()
        || w == "be".to_owned()
        || w == "been".to_owned()
        || w == "being".to_owned()
        || w == "have".to_owned()
        || w == "has".to_owned()
        || w == "had".to_owned()
        || w == "do".to_owned()
        || w == "does".to_owned()
        || w == "did".to_owned()
        || w == "will".to_owned()
        || w == "would".to_owned()
        || w == "should".to_owned()
        || w == "could".to_owned()
        || w == "may".to_owned()
        || w == "might".to_owned()
        || w == "must".to_owned()
        || w == "can".to_owned()
        || w == "shall".to_owned()
        || w == "of".to_owned()
        || w == "to".to_owned()
        || w == "for".to_owned()
        || w == "with".to_owned()
        || w == "in".to_owned()
        || w == "and".to_owned()
        || w == "or".to_owned()
        || w == "but".to_owned()
        || w == "not".to_owned()
        || w == "this".to_owned()
        || w == "that".to_owned()
        || w == "these".to_owned()
        || w == "those".to_owned()
        || w == "it".to_owned()
        || w == "its".to_owned()
        || w == "le".to_owned()
        || w == "la".to_owned()
        || w == "les".to_owned()
        || w == "un".to_owned()
        || w == "une".to_owned()
        || w == "des".to_owned()
        || w == "du".to_owned()
        || w == "de".to_owned()
        || w == "et".to_owned()
        || w == "ou".to_owned()
        || w == "est".to_owned()
        || w == "en".to_owned()
        || w == "au".to_owned()
        || w == "aux".to_owned()
        || w == "ce".to_owned()
        || w == "se".to_owned()
        || w == "qui".to_owned()
        || w == "que".to_owned()
        || w == "ne".to_owned()
        || w == "pas".to_owned()
        || w == "par".to_owned()
        || w == "sur".to_owned()
        || w == "son".to_owned()
        || w == "sa".to_owned()
        || w == "ses".to_owned()
        || w == "dans".to_owned()
        || w == "pour".to_owned()
        || w == "avec".to_owned()
        || w == "il".to_owned()
        || w == "elle".to_owned()
        || w == "nous".to_owned()
        || w == "vous".to_owned()
        || w == "ils".to_owned()
        || w == "ont".to_owned()
        || w == "sont".to_owned()
        || w == "mais".to_owned()
        || w == "plus".to_owned()
}

/// Reading `s` left to right: the whitespace-separated words finished so far
/// and the word being read.
pub open spec fn word_scan(s: Seq<char>) -> (Seq<Seq<char>>, Seq<char>)
    decreases s.len(),
{
    if s.len() == 0 {
        (seq![], seq![])
    } else {
        let (done, cur) = word_scan(s.drop_last());
        if char_is_whitespace(s.last()) {
            (if cur.len() > 0 { done.push(cur) } else { done }, seq![])
        } else {
            (done, cur.push(s.last()))
        }
    }
}

/// The maximal runs of non-whitespace characters of `s` (what
/// `str::split_whitespace` yields).
pub open spec fn words_of(s: Seq<char>) -> Seq<Seq<char>> {
    let (done, cur) = word_scan(s);
    if cur.len() > 0 {
        done.push(cur)
    } else {
        done
    }
}

/// The alphanumeric test as a predicate.
pub open spec fn alphanumeric() -> spec_fn(char) -> bool {
    |c: char| char_is_alphanumeric(c)
}

/// A word's alphanumeric characters.
pub open spec fn clean_word(w: Seq<char>) -> Seq<char> {
    w.filter(alphanumeric())
}

/// A cleaned word is kept when it has at least two UTF-8 bytes and is not a
/// stop word.
pub open spec fn keep_token(w: Seq<char>) -> bool {
    encode_utf8(w).len() >= 2 && !is_stop_word_spec(w)
}

/// The token a word gives, if any.
pub open spec fn token_of(w: Seq<char>) -> Option<Seq<char>> {
    let c = clean_word(w);
    if keep_token(c) {
        Some(c)
    } else {
        None
    }
}

/// `token_of` as a function value.
pub open spec fn token_of_fn() -> spec_fn(Seq<char>) -> Option<Seq<char>> {
    |w: Seq<char>| token_of(w)
}

/// The tokens of a text: its lowercased words, each reduced to its
/// alphanumeric characters, kept when at least two bytes long and not a stop
/// word.
pub open spec fn tokens_of(text: Seq<char>) -> Seq<Seq<char>> {
    lowered_tokens(lowercase(text))
}

/// The tokens of an already lowercased text: its words, each reduced to its
/// alphanumeric characters, kept when at least two bytes long and not a stop
/// word.
pub open spec fn lowered_tokens(lowered: Seq<char>) -> Seq<Seq<char>> {
    words_of(lowered).filter_map(token_of_fn())
}

/// Taking tokens word by word commutes with concatenating word lists.
proof fn lemma_filter_map_concat(a: Seq<Seq<char>>, b: Seq<Seq<char>>)
    ensures
        (a + b).filter_map(token_of_fn()) == a.filter_map(token_of_fn()) + b.filter_map(
            token_of_fn(),
        ),
    decreases b.len(),
{
    if b.len() == 0 {
        assert(a + b == a);
        assert(a.filter_map(token_of_fn()) + Seq::<Seq<char>>::empty() == a.filter_map(
            token_of_fn(),
        ));
    } else {
        let c = b.drop_last();
        lemma_filter_map_concat(a, c);
        assert((a + b).drop_last() == a + c);
        assert((a + b).last() == b.last());
        match token_of_fn()(b.last()) {
            Some(t) => {
                assert(a.filter_map(token_of_fn()) + c.filter_map(token_of_fn()) + seq![t]
                    == a.filter_map(token_of_fn()) + (c.filter_map(token_of_fn()) + seq![t]));
            },
            None => {},
        }
    }
}

/// Reading a space and then `y` after `x` finishes the words of `x` and then
/// reads `y` as if from the start.
proof fn lemma_word_scan_after_space(x: Seq<char>, y: Seq<char>)
    ensures
        word_scan(x + seq![' '] + y) == (words_of(x) + word_scan(y).0, word_scan(y).1),
    decreases y.len(),
{
    let xs = x + seq![' '];
    if y.len() == 0 {
        assert(xs + y == xs);
        assert(xs.drop_last() == x);
        assert(words_of(x) + Seq::<Seq<char>>::empty() == words_of(x));
    } else {
        let z = y.drop_last();
        lemma_word_scan_after_space(x, z);
        assert((xs + y).drop_last() == xs + z);
        assert((xs + y).last() == y.last());
        let (d, c) = word_scan(z);
        assert((words_of(x) + d).push(c) == words_of(x) + d.push(c));
    }
}

/// Tokenizing lowercased texts joined by a space gives the tokens of the
/// first followed by those of the second.
pub proof fn lemma_lowered_tokens_join(x: Seq<char>, y: Seq<char>)
    ensures
        lowered_tokens(x + seq![' '] + y) == lowered_tokens(x) + lowered_tokens(y),
{
    lemma_word_scan_after_space(x, y);
    let (d, c) = word_scan(y);
    if c.len() > 0 {
        assert((words_of(x) + d).push(c) == words_of(x) + d.push(c));
    }
    assert(words_of(x + seq![' '] + y) == words_of(x) + words_of(y));
    lemma_filter_map_concat(words_of(x), words_of(y));
}

/// Tokenizing ASCII texts joined by a space gives the tokens of the first
/// followed by those of the second.
pub proof fn lemma_tokens_join_ascii(a: Seq<char>, b: Seq<char>)
    requires
        all_ascii(a),
        all_ascii(b),
    ensures
        tokens_of(a + seq![' '] + b) == tokens_of(a) + tokens_of(b),
{
    let j = a + seq![' '] + b;
    assert forall|i: int| 0 <= i < j.len() implies (#[trigger] j[i] as u32) < 0x80 by {
        if i < a.len() {
            assert(j[i] == a[i]);
        } else if i > a.len() {
            assert(j[i] == b[i - a.len() - 1]);
        }
    }
    let la = a.map_values(|c: char| ascii_lower(c));
    let lb = b.map_values(|c: char| ascii_lower(c));
    assert(lowercase(j) == la + seq![' '] + lb);
    lemma_lowered_tokens_join(la, lb);
}

/// A well-formed token: at least two UTF-8 bytes, not a stop word, and made
/// of alphanumeric characters only.
pub open spec fn is_token(t: Seq<char>) -> bool {
    &&& keep_token(t)
    &&& forall|j: int| 0 <= j < t.len() ==> #[trigger] char_is_alphanumeric(t[j])
}

/// Every token that a word list gives is well formed.
proof fn lemma_tokens_well_formed(words: Seq<Seq<char>>)
    ensures
        forall|i: int|
            0 <= i < words.filter_map(token_of_fn()).len() ==> is_token(
                #[trigger] words.filter_map(token_of_fn())[i],
            ),
    decreases words.len(),
{
    if words.len() > 0 {
        let rest = words.drop_last();
        lemma_tokens_well_formed(rest);
        let w = words.last();
        assert(token_of_fn()(w) == token_of(w));
        let out = words.filter_map(token_of_fn());
        let prev = rest.filter_map(token_of_fn());
        match token_of(w) {
            Some(t) => {
                assert(out == prev + seq![t]);
                assert forall|j: int| 0 <= j < t.len() implies #[trigger] char_is_alphanumeric(
                    t[j],
                ) by {
                    w.lemma_filter_pred(alphanumeric(), j);
                }
                assert forall|i: int| 0 <= i < out.len() implies is_token(#[trigger] out[i]) by {
                    if i < prev.len() {
                        assert(out[i] == prev[i]);
                    }
                }
            },
            None => {
                assert(out == prev);
            },
        }
    }
}

/// Appending a word to the word list adds its token, if any.
proof fn lemma_tokens_push(done: Seq<Seq<char>>, w: Seq<char>)
    ensures
        done.push(w).filter_map(token_of_fn()) == done.filter_map(token_of_fn()) + match token_of(
            w,
        ) {
            Some(t) => seq![t],
            None => Seq::empty(),
        },
{
    assert(done.push(w).drop_last() == done);
    assert(token_of_fn()(w) == token_of(w));
    match token_of(w) {
        Some(t) => {},
        None => {
            assert(done.filter_map(token_of_fn()) + Seq::<Seq<char>>::empty() == done.filter_map(
                token_of_fn(),
            ));
        },
    }
}

/// Adding a character to a word adds it to the cleaned word when it is
/// alphanumeric.
proof fn lemma_clean_push(w: Seq<char>, c: char)
    ensures
        clean_word(w.push(c)) == if char_is_alphanumeric(c) {
            clean_word(w).push(c)
        } else {
            clean_word(w)
        },
{
    reveal(Seq::filter);
    assert(w.push(c).drop_last() == w);
    assert(w.push(c).last() == c);
}

/// Checks the cleaned word and appends it to the tokens when it is kept.
fn emit_token(tokens: &mut Vec<String>, clean: &Vec<char>)
    ensures
        views(final(tokens)@) == views(old(tokens)@) + match (if keep_token(clean@) {
            Some(clean@)
        } else {
            None
        }) {
            Some(t) => seq![t],
            None => Seq::empty(),
        },
{
    let ghost before = views(tokens@);
    if utf8_len_at_least_two(clean) {
        let word = string_of(clean);
        if !is_stop_word(word.as_str()) {
            tokens.push(word);
            assert(views(tokens@) == before.push(word@));
            return;
        }
    }
    assert(before + Seq::<Seq<char>>::empty() == before);
}

/// Tokenizes text into lowercase words, dropping punctuation, words shorter
/// than two bytes and stop words.
pub fn tokenize(text: &str) -> (res: Vec<String>)
    ensures
        views(res@) == tokens_of(text@),
        forall|i: int| 0 <= i < res.len() ==> is_token(#[trigger] res@[i]@),
{
    proof {
        lemma_tokens_well_formed(words_of(lowercase(text@)));
    }
    let lower = text.to_lowercase();
    let cs = chars_of(lower.as_str());
    let ghost s = cs@;
    let mut tokens: Vec<String> = Vec::new();
    let mut clean: Vec<char> = Vec::new();
    let mut in_word = false;
    let ghost mut cur: Seq<char> = seq![];
    let ghost mut done: Seq<Seq<char>> = seq![];
    let mut i: usize = 0;
    while i < cs.len()
        invariant
            s == cs@,
            i <= cs.len(),
            word_scan(s.take(i as int)) == (done, cur),
            clean@ == clean_word(cur),
            in_word == (cur.len() > 0),
            views(tokens@) == done.filter_map(token_of_fn()),
        decreases cs.len() - i,
    {
        let c = cs[i];
        proof {
            assert(s.take(i + 1).drop_last() == s.take(i as int));
            assert(s.take(i + 1).last() == c);
            lemma_clean_push(cur, c);
        }
        if c.is_whitespace() {
            if in_word {
                proof {
                    lemma_tokens_push(done, cur);
                }
                emit_token(&mut tokens, &clean);
                proof {
                    done = done.push(cur);
                }
            }
            clean = Vec::new();
            in_word = false;
            proof {
                cur = seq![];
                assert(clean_word(cur) == Seq::<char>::empty()) by {
                    reveal(Seq::filter);
                }
            }
        } else {
            if c.is_alphanumeric() {
                clean.push(c);
            }
            in_word = true;
            proof {
                cur = cur.push(c);
            }
        }
        i = i + 1;
    }
    assert(s.take(s.len() as int) == s);
    if in_word {
        proof {
            lemma_tokens_push(done, cur);
        }
        emit_token(&mut tokens, &clean);
    }
    assert forall|i: int| 0 <= i < tokens.len() implies is_token(#[trigger] tokens@[i]@) by {
        assert(views(tokens@)[i] == tokens@[i]@);
    }
    tokens
}


/// The English and French stop words, listed.
pub open spec fn stop_list() -> Seq<Seq<char>> {
    seq![
        "the"@,
        "is"@,
        "at"@,
        "which"@,
        "on"@,
        "a"@,
        "an"@,
        "as"@,
        "are"@,
        "was"@,
        "were"@,
        "be"@,
        "been"@,
        "being"@,
        "have"@,
        "has"@,
        "had"@,
        "do"@,
        "does"@,
        "did"@,
        "will"@,
        "would"@,
        "should"@,
        "could"@,
        "may"@,
        "might"@,
        "must"@,
        "can"@,
        "shall"@,
        "of"@,
        "to"@,
        "for"@,
        "with"@,
        "in"@,
        "and"@,
        "or"@,
        "but"@,
        "not"@,
        "this"@,
        "that"@,
        "these"@,
        "those"@,
        "it"@,
        "its"@,
        "le"@,
        "la"@,
        "les"@,
        "un"@,
        "une"@,
        "des"@,
        "du"@,
        "de"@,
        "et"@,
        "ou"@,
        "est"@,
        "en"@,
        "au"@,
        "aux"@,
        "ce"@,
        "se"@,
        "qui"@,
        "que"@,
        "ne"@,
        "pas"@,
        "par"@,
        "sur"@,
        "son"@,
        "sa"@,
        "ses"@,
        "dans"@,
        "pour"@,
        "avec"@,
        "il"@,
        "elle"@,
        "nous"@,
        "vous"@,
        "ils"@,
        "ont"@,
        "sont"@,
        "mais"@,
        "plus"@,
    ]
}

/// Every listed stop word is one.
proof fn lemma_stop_list_entries(i: int)
    requires
        0 <= i < stop_list().len(),
    ensures
        is_stop_word_spec(stop_list()[i]),
{
    if i == 0 {
        assert(stop_list()[0] == "the"@);
    } else if i == 1 {
        assert(stop_list()[1] == "is"@);
    } else if i == 2 {
        assert(stop_list()[2] == "at"@);
    } else if i == 3 {
        assert(stop_list()[3] == "which"@);
    } else if i == 4 {
        assert(stop_list()[4] == "on"@);
    } else if i == 5 {
        assert(stop_list()[5] == "a"@);
    } else if i == 6 {
        assert(stop_list()[6] == "an"@);
    } else if i == 7 {
        assert(stop_list()[7] == "as"@);
    } else if i == 8 {
        assert(stop_list()[8] == "are"@);
    } else if i == 9 {
        assert(stop_list()[9] == "was"@);
    } else if i == 10 {
        assert(stop_list()[10] == "were"@);
    } else if i == 11 {
        assert(stop_list()[11] == "be"@);
    } else if i == 12 {
        assert(stop_list()[12] == "been"@);
    } else if i == 13 {
        assert(stop_list()[13] == "being"@);
    } else if i == 14 {
        assert(stop_list()[14] == "have"@);
    } else if i == 15 {
        assert(stop_list()[15] == "has"@);
    } else if i == 16 {
        assert(stop_list()[16] == "had"@);
    } else if i == 17 {
        assert(stop_list()[17] == "do"@);
    } else if i == 18 {
        assert(stop_list()[18] == "does"@);
    } else if i == 19 {
        assert(stop_list()[19] == "did"@);
    } else if i == 20 {
        assert(stop_list()[20] == "will"@);
    } else if i == 21 {
        assert(stop_list()[21] == "would"@);
    } else if i == 22 {
        assert(stop_list()[22] == "should"@);
    } else if i == 23 {
        assert(stop_list()[23] == "could"@);
    } else if i == 24 {
        assert(stop_list()[24] == "may"@);
    } else if i == 25 {
        assert(stop_list()[25] == "might"@);
    } else if i == 26 {
        assert(stop_list()[26] == "must"@);
    } else if i == 27 {
        assert(stop_list()[27] == "can"@);
    } else if i == 28 {
        assert(stop_list()[28] == "shall"@);
    } else if i == 29 {
        assert(stop_list()[29] == "of"@);
    } else if i == 30 {
        assert(stop_list()[30] == "to"@);
    } else if i == 31 {
        assert(stop_list()[31] == "for"@);
    } else if i == 32 {
        assert(stop_list()[32] == "with"@);
    } else if i == 33 {
        assert(stop_list()[33] == "in"@);
    } else if i == 34 {
        assert(stop_list()[34] == "and"@);
    } else if i == 35 {
        assert(stop_list()[35] == "or"@);
    } else if i == 36 {
        assert(stop_list()[36] == "but"@);
    } else if i == 37 {
        assert(stop_list()[37] == "not"@);
    } else if i == 38 {
        assert(stop_list()[38] == "this"@);
    } else if i == 39 {
        assert(stop_list()[39] == "that"@);
    } else if i == 40 {
        assert(stop_list()[40] == "these"@);
    } else if i == 41 {
        assert(stop_list()[41] == "those"@);
    } else if i == 42 {
        assert(stop_list()[42] == "it"@);
    } else if i == 43 {
        assert(stop_list()[43] == "its"@);
    } else if i == 44 {
        assert(stop_list()[44] == "le"@);
    } else if i == 45 {
        assert(stop_list()[45] == "la"@);
    } else if i == 46 {
        assert(stop_list()[46] == "les"@);
    } else if i == 47 {
        assert(stop_list()[47] == "un"@);
    } else if i == 48 {
        assert(stop_list()[48] == "une"@);
    } else if i == 49 {
        assert(stop_list()[49] == "des"@);
    } else if i == 50 {
        assert(stop_list()[50] == "du"@);
    } else if i == 51 {
        assert(stop_list()[51] == "de"@);
    } else if i == 52 {
        assert(stop_list()[52] == "et"@);
    } else if i == 53 {
        assert(stop_list()[53] == "ou"@);
    } else if i == 54 {
        assert(stop_list()[54] == "est"@);
    } else if i == 55 {
        assert(stop_list()[55] == "en"@);
    } else if i == 56 {
        assert(stop_list()[56] == "au"@);
    } else if i == 57 {
        assert(stop_list()[57] == "aux"@);
    } else if i == 58 {
        assert(stop_list()[58] == "ce"@);
    } else if i == 59 {
        assert(stop_list()[59] == "se"@);
    } else if i == 60 {
        assert(stop_list()[60] == "qui"@);
    } else if i == 61 {
        assert(stop_list()[61] == "que"@);
    } else if i == 62 {
        assert(stop_list()[62] == "ne"@);
    } else if i == 63 {
        assert(stop_list()[63] == "pas"@);
    } else if i == 64 {
        assert(stop_list()[64] == "par"@);
    } else if i == 65 {
        assert(stop_list()[65] == "sur"@);
    } else if i == 66 {
        assert(stop_list()[66] == "son"@);
    } else if i == 67 {
        assert(stop_list()[67] == "sa"@);
    } else if i == 68 {
        assert(stop_list()[68] == "ses"@);
    } else if i == 69 {
        assert(stop_list()[69] == "dans"@);
    } else if i == 70 {
        assert(stop_list()[70] == "pour"@);
    } else if i == 71 {
        assert(stop_list()[71] == "avec"@);
    } else if i == 72 {
        assert(stop_list()[72] == "il"@);
    } else if i == 73 {
        assert(stop_list()[73] == "elle"@);
    } else if i == 74 {
        assert(stop_list()[74] == "nous"@);
    } else if i == 75 {
        assert(stop_list()[75] == "vous"@);
    } else if i == 76 {
        assert(stop_list()[76] == "ils"@);
    } else if i == 77 {
        assert(stop_list()[77] == "ont"@);
    } else if i == 78 {
        assert(stop_list()[78] == "sont"@);
    } else if i == 79 {
        assert(stop_list()[79] == "mais"@);
    } else if i == 80 {
        assert(stop_list()[80] == "plus"@);
    }
}

/// A word is a stop word exactly when it is on the list of stop words.
pub proof fn lemma_stop_words_listed(w: Seq<char>)
    ensures
        is_stop_word_spec(w) <==> stop_list().contains(w),
{
    if stop_list().contains(w) {
        let i = choose|i: int| 0 <= i < stop_list().len() && stop_list()[i] == w;
        lemma_stop_list_entries(i);
    }
    if is_stop_word_spec(w) {
        if w == "the"@ {
            assert(stop_list()[0] == w);
        } else if w == "is"@ {
            assert(stop_list()[1] == w);
        } else if w == "at"@ {
            assert(stop_list()[2] == w);
        } else if w == "which"@ {
            assert(stop_list()[3] == w);
        } else if w == "on"@ {
            assert(stop_list()[4] == w);
        } else if w == "a"@ {
            assert(stop_list()[5] == w);
        } else if w == "an"@ {
            assert(stop_list()[6] == w);
        } else if w == "as"@ {
            assert(stop_list()[7] == w);
        } else if w == "are"@ {
            assert(stop_list()[8] == w);
        } else if w == "was"@ {
            assert(stop_list()[9] == w);
        } else if w == "were"@ {
            assert(stop_list()[10] == w);
        } else if w == "be"@ {
            assert(stop_list()[11] == w);
        } else if w == "been"@ {
            assert(stop_list()[12] == w);
        } else if w == "being"@ {
            assert(stop_list()[13] == w);
        } else if w == "have"@ {
            assert(stop_list()[14] == w);
        } else if w == "has"@ {
            assert(stop_list()[15] == w);
        } else if w == "had"@ {
            assert(stop_list()[16] == w);
        } else if w == "do"@ {
            assert(stop_list()[17] == w);
        } else if w == "does"@ {
            assert(stop_list()[18] == w);
        } else if w == "did"@ {
            assert(stop_list()[19] == w);
        } else if w == "will"@ {
            assert(stop_list()[20] == w);
        } else if w == "would"@ {
            assert(stop_list()[21] == w);
        } else if w == "should"@ {
            assert(stop_list()[22] == w);
        } else if w == "could"@ {
            assert(stop_list()[23] == w);
        } else if w == "may"@ {
            assert(stop_list()[24] == w);
        } else if w == "might"@ {
            assert(stop_list()[25] == w);
        } else if w == "must"@ {
            assert(stop_list()[26] == w);
        } else if w == "can"@ {
            assert(stop_list()[27] == w);
        } else if w == "shall"@ {
            assert(stop_list()[28] == w);
        } else if w == "of"@ {
            assert(stop_list()[29] == w);
        } else if w == "to"@ {
            assert(stop_list()[30] == w);
        } else if w == "for"@ {
            assert(stop_list()[31] == w);
        } else if w == "with"@ {
            assert(stop_list()[32] == w);
        } else if w == "in"@ {
            assert(stop_list()[33] == w);
        } else if w == "and"@ {
            assert(stop_list()[34] == w);
        } else if w == "or"@ {
            assert(stop_list()[35] == w);
        } else if w == "but"@ {
            assert(stop_list()[36] == w);
        } else if w == "not"@ {
            assert(stop_list()[37] == w);
        } else if w == "this"@ {
            assert(stop_list()[38] == w);
        } else if w == "that"@ {
            assert(stop_list()[39] == w);
        } else if w == "these"@ {
            assert(stop_list()[40] == w);
        } else if w == "those"@ {
            assert(stop_list()[41] == w);
        } else if w == "it"@ {
            assert(stop_list()[42] == w);
        } else if w == "its"@ {
            assert(stop_list()[43] == w);
        } else if w == "le"@ {
            assert(stop_list()[44] == w);
        } else if w == "la"@ {
            assert(stop_list()[45] == w);
        } else if w == "les"@ {
            assert(stop_list()[46] == w);
        } else if w == "un"@ {
            assert(stop_list()[47] == w);
        } else if w == "une"@ {
            assert(stop_list()[48] == w);
        } else if w == "des"@ {
            assert(stop_list()[49] == w);
        } else if w == "du"@ {
            assert(stop_list()[50] == w);
        } else if w == "de"@ {
            assert(stop_list()[51] == w);
        } else if w == "et"@ {
            assert(stop_list()[52] == w);
        } else if w == "ou"@ {
            assert(stop_list()[53] == w);
        } else if w == "est"@ {
            assert(stop_list()[54] == w);
        } else if w == "en"@ {
            assert(stop_list()[55] == w);
        } else if w == "au"@ {
            assert(stop_list()[56] == w);
        } else if w == "aux"@ {
            assert(stop_list()[57] == w);
        } else if w == "ce"@ {
            assert(stop_list()[58] == w);
        } else if w == "se"@ {
            assert(stop_list()[59] == w);
        } else if w == "qui"@ {
            assert(stop_list()[60] == w);
        } else if w == "que"@ {
            assert(stop_list()[61] == w);
        } else if w == "ne"@ {
            assert(stop_list()[62] == w);
        } else if w == "pas"@ {
            assert(stop_list()[63] == w);
        } else if w == "par"@ {
            assert(stop_list()[64] == w);
        } else if w == "sur"@ {
            assert(stop_list()[65] == w);
        } else if w == "son"@ {
            assert(stop_list()[66] == w);
        } else if w == "sa"@ {
            assert(stop_list()[67] == w);
        } else if w == "ses"@ {
            assert(stop_list()[68] == w);
        } else if w == "dans"@ {
            assert(stop_list()[69] == w);
        } else if w == "pour"@ {
            assert(stop_list()[70] == w);
        } else if w == "avec"@ {
            assert(stop_list()[71] == w);
        } else if w == "il"@ {
            assert(stop_list()[72] == w);
        } else if w == "elle"@ {
            assert(stop_list()[73] == w);
        } else if w == "nous"@ {
            assert(stop_list()[74] == w);
        } else if w == "vous"@ {
            assert(stop_list()[75] == w);
        } else if w == "ils"@ {
            assert(stop_list()[76] == w);
        } else if w == "ont"@ {
            assert(stop_list()[77] == w);
        } else if w == "sont"@ {
            assert(stop_list()[78] == w);
        } else if w == "mais"@ {
            assert(stop_list()[79] == w);
        } else if w == "plus"@ {
            assert(stop_list()[80] == w);
        }
    }
}

/// No token of a text is on the list of stop words.
pub proof fn lemma_tokens_not_stop_words(text: Seq<char>)
    ensures
        forall|i: int|
            0 <= i < tokens_of(text).len() ==> !stop_list().contains(#[trigger] tokens_of(text)[i]),
{
    lemma_tokens_well_formed(words_of(lowercase(text)));
    assert forall|i: int| 0 <= i < tokens_of(text).len() implies !stop_list().contains(
        #[trigger] tokens_of(text)[i],
    ) by {
        lemma_stop_words_listed(tokens_of(text)[i]);
    }
}

} // verus!
