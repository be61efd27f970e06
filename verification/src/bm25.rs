//! Document statistics for BM25 scoring: the tokens of a document, where each
//! term occurs, how many documents hold a term, and where query terms meet as
//! phrases. The floating-point scoring built on them lives with the
//! application.

use vstd::prelude::*;
use crate::text::views;
use crate::tokenize::{tokenize, tokens_of};

verus! {

/// The positions, in increasing order, at which `t` occurs in `tokens`.
pub open spec fn occurrences(tokens: Seq<Seq<char>>, t: Seq<char>) -> Seq<usize>
    decreases tokens.len(),
{
    if tokens.len() == 0 {
        seq![]
    } else {
        let rest = occurrences(tokens.drop_last(), t);
        if tokens.last() == t {
            rest.push((tokens.len() - 1) as usize)
        } else {
            rest
        }
    }
}

/// A term and the positions at which it occurs.
#[derive(Clone)]
pub struct TermPositions {
    pub term: String,
    pub positions: Vec<usize>,
}

/// Cached document statistics for BM25 scoring.
#[derive(Clone)]
pub struct DocStats {
    pub tokens: Vec<String>,
    pub length: usize,
    pub term_positions: Vec<TermPositions>,
}

/// Each distinct token of `tv` has exactly one entry in `tp`, which lists
/// where it occurs.
pub open spec fn indexes_terms(tp: Seq<TermPositions>, tv: Seq<Seq<char>>) -> bool {
    &&& forall|k1: int, k2: int|
        0 <= k1 < tp.len() && 0 <= k2 < tp.len() && k1 != k2 ==> #[trigger] tp[k1].term@
            != #[trigger] tp[k2].term@
    &&& forall|k: int|
        #![trigger tp[k]]
        0 <= k < tp.len() ==> tp[k].positions@ == occurrences(tv, tp[k].term@) && tv.contains(
            tp[k].term@,
        )
    &&& forall|i: int|
        0 <= i < tv.len() ==> exists|k: int|
            0 <= k < tp.len() && #[trigger] tp[k].term@ == #[trigger] tv[i]
}

impl DocStats {
    /// The document's tokens as character sequences.
    pub open spec fn token_views(&self) -> Seq<Seq<char>> {
        views(self.tokens@)
    }

    /// The length is the token count, and each distinct token has exactly one
    /// entry, which lists where it occurs.
    pub open spec fn well_formed(&self) -> bool {
        &&& self.length == self.tokens.len()
        &&& indexes_terms(self.term_positions@, self.token_views())
    }
}

/// The entries are listed in the order in which their terms first occur.
pub open spec fn in_first_occurrence_order(tp: Seq<TermPositions>) -> bool {
    &&& forall|k: int| 0 <= k < tp.len() ==> (#[trigger] tp[k]).positions@.len() > 0
    &&& forall|k1: int, k2: int|
        0 <= k1 < k2 < tp.len() ==> (#[trigger] tp[k1]).positions@[0] < (
        #[trigger] tp[k2]).positions@[0]
}

/// The number of positions recorded over all entries.
pub open spec fn total_positions(tp: Seq<TermPositions>) -> nat
    decreases tp.len(),
{
    if tp.len() == 0 {
        0
    } else {
        total_positions(tp.drop_last()) + tp.last().positions@.len()
    }
}

/// Replacing one entry changes the total by the change of its positions.
proof fn lemma_total_positions_update(tp: Seq<TermPositions>, k: int, x: TermPositions)
    requires
        0 <= k < tp.len(),
    ensures
        total_positions(tp.update(k, x)) + tp[k].positions@.len() == total_positions(tp)
            + x.positions@.len(),
    decreases tp.len(),
{
    let u = tp.update(k, x);
    if k == tp.len() - 1 {
        assert(u.drop_last() == tp.drop_last());
    } else {
        lemma_total_positions_update(tp.drop_last(), k, x);
        assert(u.drop_last() == tp.drop_last().update(k, x));
    }
}

/// The index of the entry for `term`, if there is one.
fn find_term(entries: &Vec<TermPositions>, term: &String) -> (res: Option<usize>)
    ensures
        match res {
            Some(k) => k < entries.len() && entries@[k as int].term@ == term@ && forall|j: int|
                0 <= j < k ==> #[trigger] entries@[j].term@ != term@,
            None => forall|k: int| 0 <= k < entries.len() ==> #[trigger] entries@[k].term@ != term@,
        },
{
    let mut k: usize = 0;
    while k < entries.len()
        invariant
            k <= entries.len(),
            forall|j: int| 0 <= j < k ==> #[trigger] entries@[j].term@ != term@,
        decreases entries.len() - k,
    {
        if entries[k].term == *term {
            return Some(k);
        }
        k = k + 1;
    }
    None
}

/// The number of documents whose tokens hold `t`.
pub open spec fn doc_freq(docs: Seq<DocStats>, t: Seq<char>) -> nat
    decreases docs.len(),
{
    if docs.len() == 0 {
        0
    } else {
        doc_freq(docs.drop_last(), t) + if docs.last().token_views().contains(t) {
            1nat
        } else {
            0nat
        }
    }
}

/// The positions of `first` that are immediately followed by a position of
/// `second`.
pub open spec fn followed_by(first: Seq<usize>, second: Seq<usize>) -> Seq<usize> {
    first.filter(|p: usize| p < usize::MAX && second.contains((p + 1) as usize))
}

/// The positions at which `a` occurs immediately followed by `b`.
pub open spec fn phrase_positions(tokens: Seq<Seq<char>>, a: Seq<char>, b: Seq<char>) -> Seq<usize> {
    followed_by(occurrences(tokens, a), occurrences(tokens, b))
}

/// The positions recorded for `t`: those of the first entry whose term is
/// `t`, if there is one.
pub open spec fn entry_positions(tp: Seq<TermPositions>, t: Seq<char>) -> Option<Seq<usize>>
    decreases tp.len(),
{
    if tp.len() == 0 {
        None
    } else if tp[0].term@ == t {
        Some(tp[0].positions@)
    } else {
        entry_positions(tp.drop_first(), t)
    }
}

/// How many positions are recorded for `t`.
pub open spec fn recorded_count(tp: Seq<TermPositions>, t: Seq<char>) -> nat {
    match entry_positions(tp, t) {
        Some(p) => p.len(),
        None => 0,
    }
}

/// How many recorded positions of `a` are immediately followed by a recorded
/// position of `b` (none where either has no entry).
pub open spec fn recorded_pair_count(tp: Seq<TermPositions>, a: Seq<char>, b: Seq<char>) -> nat {
    match (entry_positions(tp, a), entry_positions(tp, b)) {
        (Some(p1), Some(p2)) => followed_by(p1, p2).len(),
        _ => 0,
    }
}

/// The number of documents with an entry for `t`.
pub open spec fn recorded_doc_freq(docs: Seq<DocStats>, t: Seq<char>) -> nat
    decreases docs.len(),
{
    if docs.len() == 0 {
        0
    } else {
        recorded_doc_freq(docs.drop_last(), t) + if entry_positions(
            docs.last().term_positions@,
            t,
        ) is Some {
            1nat
        } else {
            0nat
        }
    }
}

/// The first entry whose term is `t` gives the recorded positions.
proof fn lemma_entry_positions_at(tp: Seq<TermPositions>, t: Seq<char>, k: int)
    requires
        0 <= k < tp.len(),
        tp[k].term@ == t,
        forall|j: int| 0 <= j < k ==> #[trigger] tp[j].term@ != t,
    ensures
        entry_positions(tp, t) == Some(tp[k].positions@),
    decreases k,
{
    if k > 0 {
        let rest = tp.drop_first();
        assert forall|j: int| 0 <= j < k - 1 implies #[trigger] rest[j].term@ != t by {
            assert(rest[j] == tp[j + 1]);
        }
        assert(tp[0].term@ != t);
        assert(rest[k - 1] == tp[k]);
        lemma_entry_positions_at(rest, t, k - 1);
    }
}

/// With no entry whose term is `t`, nothing is recorded for `t`.
proof fn lemma_entry_positions_none(tp: Seq<TermPositions>, t: Seq<char>)
    requires
        forall|j: int| 0 <= j < tp.len() ==> #[trigger] tp[j].term@ != t,
    ensures
        entry_positions(tp, t) is None,
    decreases tp.len(),
{
    if tp.len() > 0 {
        let rest = tp.drop_first();
        assert forall|j: int| 0 <= j < rest.len() implies #[trigger] rest[j].term@ != t by {
            assert(rest[j] == tp[j + 1]);
        }
        assert(tp[0].term@ != t);
        lemma_entry_positions_none(rest, t);
    }
}

impl DocStats {
    /// The index of the first entry for `term`, if there is one.
    fn entry_of(&self, term: &str) -> (res: Option<usize>)
        ensures
            match res {
                Some(k) => k < self.term_positions.len() && self.term_positions@[k as int].term@
                    == term@ && entry_positions(self.term_positions@, term@) == Some(
                    self.term_positions@[k as int].positions@,
                ),
                None => entry_positions(self.term_positions@, term@) is None,
            },
            self.well_formed() ==> (res is Some <==> self.token_views().contains(term@)),
    {
        let owned = term.to_owned();
        let res = find_term(&self.term_positions, &owned);
        proof {
            match res {
                Some(k) => {
                    lemma_entry_positions_at(self.term_positions@, term@, k as int);
                    if self.well_formed() {
                        assert(self.term_positions@[k as int] == self.term_positions@[k as int]);
                    }
                },
                None => {
                    lemma_entry_positions_none(self.term_positions@, term@);
                    if self.well_formed() && self.token_views().contains(term@) {
                        let tv = self.token_views();
                        let i = choose|i: int| 0 <= i < tv.len() && tv[i] == term@;
                        let k = choose|k: int|
                            0 <= k < self.term_positions@.len()
                                && #[trigger] self.term_positions@[k].term@ == #[trigger] tv[i];
                        assert(self.term_positions@[k].term@ != owned@);
                    }
                },
            }
        }
        res
    }

    /// The positions recorded for `term`, if it has an entry; in well-formed
    /// statistics, where the term occurs, if it does.
    pub fn positions(&self, term: &str) -> (res: Option<&Vec<usize>>)
        ensures
            match res {
                Some(p) => entry_positions(self.term_positions@, term@) == Some(p@),
                None => entry_positions(self.term_positions@, term@) is None,
            },
            self.well_formed() ==> match res {
                Some(p) => self.token_views().contains(term@) && p@ == occurrences(
                    self.token_views(),
                    term@,
                ),
                None => !self.token_views().contains(term@),
            },
    {
        match self.entry_of(term) {
            Some(k) => {
                let e = &self.term_positions[k];
                assert(self.term_positions@[k as int] == *e);
                Some(&e.positions)
            },
            None => None,
        }
    }

    /// Whether `term` has an entry; in well-formed statistics, whether it
    /// occurs in the document.
    pub fn contains_term(&self, term: &str) -> (res: bool)
        ensures
            res == entry_positions(self.term_positions@, term@) is Some,
            self.well_formed() ==> res == self.token_views().contains(term@),
    {
        self.entry_of(term).is_some()
    }

    /// How many positions are recorded for `term`; in well-formed statistics,
    /// how many times it occurs in the document.
    pub fn term_frequency(&self, term: &str) -> (res: usize)
        ensures
            res == recorded_count(self.term_positions@, term@),
            self.well_formed() ==> res == occurrences(self.token_views(), term@).len(),
            self.well_formed() ==> (res > 0 <==> self.token_views().contains(term@)),
    {
        proof {
            if self.well_formed() {
                lemma_occurrences_nonempty(self.token_views(), term@);
                if !self.token_views().contains(term@) {
                    lemma_occurrences_absent(self.token_views(), term@);
                }
            }
        }
        match self.positions(term) {
            Some(p) => p.len(),
            None => 0,
        }
    }

    /// Whether a position below `bound` is recorded for `term`; in
    /// well-formed statistics, whether the term occurs below `bound`.
    pub fn occurs_before(&self, term: &str, bound: usize) -> (res: bool)
        ensures
            res == match entry_positions(self.term_positions@, term@) {
                Some(p) => exists|i: int| 0 <= i < p.len() && #[trigger] p[i] < bound,
                None => false,
            },
            self.well_formed() ==> res == exists|i: int|
                0 <= i < occurrences(self.token_views(), term@).len() && #[trigger] occurrences(
                    self.token_views(),
                    term@,
                )[i] < bound,
    {
        proof {
            if self.well_formed() && !self.token_views().contains(term@) {
                lemma_occurrences_absent(self.token_views(), term@);
            }
        }
        match self.positions(term) {
            Some(p) => {
                let mut i: usize = 0;
                while i < p.len()
                    invariant
                        i <= p.len(),
                        entry_positions(self.term_positions@, term@) == Some(p@),
                        self.well_formed() ==> p@ == occurrences(self.token_views(), term@),
                        forall|j: int| 0 <= j < i ==> #[trigger] p@[j] >= bound,
                    decreases p.len() - i,
                {
                    if p[i] < bound {
                        assert(entry_positions(self.term_positions@, term@)->0[i as int] < bound);
                        return true;
                    }
                    i = i + 1;
                }
                false
            },
            None => false,
        }
    }
}

/// How many documents have an entry for `term`; when every document's
/// statistics are well formed, how many documents hold `term`.
pub fn document_frequency(docs: &[DocStats], term: &str) -> (res: usize)
    ensures
        res == recorded_doc_freq(docs@, term@),
        (forall|i: int| 0 <= i < docs@.len() ==> (#[trigger] docs@[i]).well_formed()) ==> res
            == doc_freq(docs@, term@),
{
    let ghost all_wf = forall|i: int| 0 <= i < docs@.len() ==> (#[trigger] docs@[i]).well_formed();
    let mut count: usize = 0;
    let mut i: usize = 0;
    while i < docs.len()
        invariant
            i <= docs.len(),
            count <= i,
            count == recorded_doc_freq(docs@.take(i as int), term@),
            all_wf ==> count == doc_freq(docs@.take(i as int), term@),
            all_wf == forall|j: int| 0 <= j < docs@.len() ==> (#[trigger] docs@[j]).well_formed(),
        decreases docs.len() - i,
    {
        proof {
            assert(docs@.take(i + 1).drop_last() == docs@.take(i as int));
            assert(docs@.take(i + 1).last() == docs@[i as int]);
        }
        if docs[i].contains_term(term) {
            count = count + 1;
        }
        i = i + 1;
    }
    assert(docs@.take(docs@.len() as int) == docs@);
    count
}

/// For each pair of consecutive query terms, how many recorded positions of
/// the first are immediately followed by a recorded position of the second;
/// in well-formed statistics, how many times the first occurs immediately
/// followed by the second.
pub fn phrase_pair_matches(query_terms: &[String], stats: &DocStats) -> (res: Vec<usize>)
    ensures
        res.len() == if query_terms.len() == 0 { 0 } else { query_terms.len() - 1 },
        forall|i: int|
            0 <= i < res.len() ==> #[trigger] res@[i] == recorded_pair_count(
                stats.term_positions@,
                query_terms@[i]@,
                query_terms@[i + 1]@,
            ),
        stats.well_formed() ==> forall|i: int|
            0 <= i < res.len() ==> #[trigger] res@[i] == phrase_positions(
                stats.token_views(),
                query_terms@[i]@,
                query_terms@[i + 1]@,
            ).len(),
{
    let mut res: Vec<usize> = Vec::new();
    let n = query_terms.len();
    let pairs: usize = if n == 0 { 0 } else { n - 1 };
    let mut i: usize = 0;
    while i < pairs
        invariant
            i <= pairs,
            pairs == if query_terms.len() == 0 { 0 } else { query_terms.len() - 1 },
            res.len() == i,
            forall|j: int|
                0 <= j < i ==> #[trigger] res@[j] == recorded_pair_count(
                    stats.term_positions@,
                    query_terms@[j]@,
                    query_terms@[j + 1]@,
                ),
            stats.well_formed() ==> forall|j: int|
                0 <= j < i ==> #[trigger] res@[j] == phrase_positions(
                    stats.token_views(),
                    query_terms@[j]@,
                    query_terms@[j + 1]@,
                ).len(),
        decreases pairs - i,
    {
        let m = pair_matches(stats, query_terms[i].as_str(), query_terms[i + 1].as_str());
        res.push(m);
        i = i + 1;
    }
    res
}

/// How many recorded positions of `a` are immediately followed by a recorded
/// position of `b`.
fn pair_matches(stats: &DocStats, a: &str, b: &str) -> (res: usize)
    ensures
        res == recorded_pair_count(stats.term_positions@, a@, b@),
        stats.well_formed() ==> res == phrase_positions(stats.token_views(), a@, b@).len(),
{
    let ghost tv = stats.token_views();
    proof {
        if stats.well_formed() {
            if !tv.contains(a@) {
                lemma_occurrences_absent(tv, a@);
                reveal(Seq::filter);
            }
            if !tv.contains(b@) {
                lemma_occurrences_absent(tv, b@);
                let pred = |p: usize| p < usize::MAX && occurrences(tv, b@).contains(
                    (p + 1) as usize,
                );
                assert forall|j: int| 0 <= j < occurrences(tv, a@).len() implies !pred(
                    #[trigger] occurrences(tv, a@)[j],
                ) by {}
                lemma_filter_none(occurrences(tv, a@), pred);
            }
        }
    }
    match (stats.positions(a), stats.positions(b)) {
        (Some(pos1), Some(pos2)) => {
            let ghost pred = |p: usize| p < usize::MAX && pos2@.contains((p + 1) as usize);
            let mut count: usize = 0;
            let mut i: usize = 0;
            while i < pos1.len()
                invariant
                    i <= pos1.len(),
                    pred == (|p: usize| p < usize::MAX && pos2@.contains((p + 1) as usize)),
                    count <= i,
                    count == pos1@.take(i as int).filter(pred).len(),
                decreases pos1.len() - i,
            {
                let p = pos1[i];
                let mut found = false;
                if p < usize::MAX {
                    let mut j: usize = 0;
                    while j < pos2.len()
                        invariant
                            j <= pos2.len(),
                            p < usize::MAX,
                            found == exists|k: int| 0 <= k < j && pos2@[k] == p + 1,
                        decreases pos2.len() - j,
                    {
                        if pos2[j] == p + 1 {
                            found = true;
                        }
                        j = j + 1;
                    }
                }
                proof {
                    reveal(Seq::filter);
                    assert(pos1@.take(i + 1).drop_last() == pos1@.take(i as int));
                    assert(pos1@.take(i + 1).last() == p);
                    if found {
                        let k = choose|k: int| 0 <= k < pos2.len() && pos2@[k] == p + 1;
                        assert(pos2@[k] == (p + 1) as usize);
                    } else if p < usize::MAX && pos2@.contains((p + 1) as usize) {
                        let k = choose|k: int| 0 <= k < pos2@.len() && pos2@[k] == (p + 1) as usize;
                        assert(pos2@[k] == p + 1);
                    }
                    assert(found == pred(p));
                }
                if found {
                    count = count + 1;
                }
                i = i + 1;
            }
            assert(pos1@.take(pos1@.len() as int) == pos1@);
            count
        },
        _ => 0,
    }
}

/// Filtering with a predicate that holds of no element leaves nothing.
proof fn lemma_filter_none(s: Seq<usize>, pred: spec_fn(usize) -> bool)
    requires
        forall|j: int| 0 <= j < s.len() ==> !pred(#[trigger] s[j]),
    ensures
        s.filter(pred) == Seq::<usize>::empty(),
    decreases s.len(),
{
    reveal(Seq::filter);
    if s.len() > 0 {
        let rest = s.drop_last();
        assert forall|j: int| 0 <= j < rest.len() implies !pred(#[trigger] rest[j]) by {
            assert(rest[j] == s[j]);
        }
        lemma_filter_none(rest, pred);
        assert(!pred(s[s.len() - 1]));
    }
}

/// Computes a document's tokens, their number, and where each term occurs.
#[verifier::rlimit(40)]
pub fn compute_doc_stats(content: &str) -> (res: DocStats)
    ensures
        res.well_formed(),
        res.token_views() == tokens_of(content@),
        total_positions(res.term_positions@) == res.length,
        in_first_occurrence_order(res.term_positions@),
{
    let tokens = tokenize(content);
    let ghost tv = views(tokens@);
    let length = tokens.len();
    let mut entries: Vec<TermPositions> = Vec::new();
    let mut pos: usize = 0;
    while pos < tokens.len()
        invariant
            pos <= tokens.len(),
            tv == views(tokens@),
            indexes_terms(entries@, tv.take(pos as int)),
            total_positions(entries@) == pos,
            in_first_occurrence_order(entries@),
            forall|k: int| 0 <= k < entries@.len() ==> (#[trigger] entries@[k]).positions@[0] < pos,
        decreases tokens.len() - pos,
    {
        let ghost before = entries@;
        let ghost pre = tv.take(pos as int);
        let ghost post = tv.take(pos + 1);
        let ghost t = tv[pos as int];
        proof {
            assert(post.drop_last() == pre);
            assert(post.last() == t);
            assert(t == tokens@[pos as int]@);
        }
        match find_term(&entries, &tokens[pos]) {
            Some(k) => {
                let mut e = entries.remove(k);
                e.positions.push(pos);
                entries.insert(k, e);
                proof {
                    assert(entries@ == before.update(k as int, e));
                    lemma_total_positions_update(before, k as int, e);
                    assert(e.positions@[0] == before[k as int].positions@[0]);
                    assert forall|j: int| 0 <= j < entries@.len() implies (#[trigger] entries@[j]).positions@[0] < pos + 1 by {
                        if j != k {
                            assert(entries@[j] == before[j]);
                        }
                    }
                    assert forall|k1: int, k2: int|
                        0 <= k1 < k2 < entries@.len() implies (#[trigger] entries@[k1]).positions@[0] < (
                        #[trigger] entries@[k2]).positions@[0] by {
                        assert(before[k1] == before[k1] && before[k2] == before[k2]);
                    }
                    assert forall|j: int|
                        #![trigger entries@[j]]
                        0 <= j < entries@.len() implies entries@[j].positions@
                        == occurrences(post, entries@[j].term@) && post.contains(entries@[j].term@) by {
                        assert(before[j] == before[j]);
                            assert(pre.contains(before[j].term@));
                        let w = choose|w: int| 0 <= w < pre.len() && pre[w] == before[j].term@;
                        assert(post[w] == pre[w]);
                        if j == k {
                        } else {
                            assert(before[j].term@ != before[k as int].term@);
                        }
                    }
                    assert forall|i: int| 0 <= i < post.len() implies exists|j: int|
                        0 <= j < entries@.len() && #[trigger] entries@[j].term@ == #[trigger] post[i] by {
                        if i < pre.len() {
                            assert(post[i] == pre[i]);
                            let j = choose|j: int| 0 <= j < before.len() && #[trigger] before[j].term@ == pre[i];
                            assert(entries@[j].term@ == before[j].term@);
                        } else {
                            assert(entries@[k as int].term@ == post[i]);
                        }
                    }
                }
            },
            None => {
                let e = TermPositions { term: tokens[pos].clone(), positions: vec![pos] };
                entries.push(e);
                proof {
                    assert(occurrences(pre, t) == Seq::<usize>::empty()) by {
                        lemma_occurrences_absent(pre, t);
                    }
                    assert(e.positions@ == seq![pos]);
                    assert(entries@.drop_last() == before);
                    assert forall|j: int| 0 <= j < entries@.len() implies (#[trigger] entries@[j]).positions@[0] < pos + 1 by {
                        if j < before.len() {
                            assert(entries@[j] == before[j]);
                        }
                    }
                    assert forall|k1: int, k2: int|
                        0 <= k1 < k2 < entries@.len() implies (#[trigger] entries@[k1]).positions@[0] < (
                        #[trigger] entries@[k2]).positions@[0] by {
                        assert(entries@[k1] == before[k1]);
                        if k2 < before.len() {
                            assert(entries@[k2] == before[k2]);
                        }
                    }
                    assert forall|j: int| 0 <= j < entries@.len() implies (#[trigger] entries@[j]).positions@.len() > 0 by {
                        if j < before.len() {
                            assert(entries@[j] == before[j]);
                        }
                    }
                    assert forall|j: int|
                        #![trigger entries@[j]]
                        0 <= j < entries@.len() implies entries@[j].positions@
                        == occurrences(post, entries@[j].term@) && post.contains(entries@[j].term@) by {
                        if j < before.len() {
                            assert(entries@[j] == before[j]);
                            assert(before[j] == before[j]);
                            assert(pre.contains(before[j].term@));
                            let w = choose|w: int| 0 <= w < pre.len() && pre[w] == before[j].term@;
                            assert(post[w] == pre[w]);
                        } else {
                            assert(post[pos as int] == t);
                        }
                    }
                    assert forall|i: int| 0 <= i < post.len() implies exists|j: int|
                        0 <= j < entries@.len() && #[trigger] entries@[j].term@ == #[trigger] post[i] by {
                        if i < pre.len() {
                            assert(post[i] == pre[i]);
                            let j = choose|j: int| 0 <= j < before.len() && #[trigger] before[j].term@ == pre[i];
                            assert(entries@[j] == before[j]);
                        } else {
                            assert(entries@[before.len() as int].term@ == post[i]);
                        }
                    }
                    assert forall|k1: int, k2: int|
                        0 <= k1 < entries@.len() && 0 <= k2 < entries@.len() && k1 != k2 implies #[trigger] entries@[k1].term@
                            != #[trigger] entries@[k2].term@ by {
                        if k1 < before.len() && k2 < before.len() {
                            assert(entries@[k1] == before[k1]);
                            assert(entries@[k2] == before[k2]);
                        } else if k1 < before.len() {
                            assert(entries@[k1] == before[k1]);
                        } else {
                            assert(entries@[k2] == before[k2]);
                        }
                    }
                }
            },
        }
        pos = pos + 1;
    }
    assert(tv.take(tokens.len() as int) == tv);
    DocStats { tokens, length, term_positions: entries }
}

/// Every recorded position is a position of the token list.
proof fn lemma_occurrences_bounded(tokens: Seq<Seq<char>>, t: Seq<char>)
    requires
        tokens.len() <= usize::MAX,
    ensures
        forall|i: int|
            0 <= i < occurrences(tokens, t).len() ==> #[trigger] occurrences(tokens, t)[i]
                < tokens.len() && tokens[occurrences(tokens, t)[i] as int] == t,
    decreases tokens.len(),
{
    if tokens.len() > 0 {
        let rest = tokens.drop_last();
        lemma_occurrences_bounded(rest, t);
        let o = occurrences(tokens, t);
        let r = occurrences(rest, t);
        assert(o == if tokens.last() == t {
            r.push((tokens.len() - 1) as usize)
        } else {
            r
        });
        assert forall|i: int| 0 <= i < o.len() implies #[trigger] o[i] < tokens.len() && tokens[o[i] as int] == t by {
            if i < r.len() {
                assert(o[i] == r[i]);
                assert(tokens[r[i] as int] == rest[r[i] as int]);
            } else {
                assert(tokens.last() == t);
                assert(o[i] == (tokens.len() - 1) as usize);
            }
        }
    }
}

/// A term occurs somewhere exactly when it has a recorded position.
proof fn lemma_occurrences_nonempty(tokens: Seq<Seq<char>>, t: Seq<char>)
    requires
        tokens.len() <= usize::MAX,
    ensures
        occurrences(tokens, t).len() > 0 <==> tokens.contains(t),
{
    lemma_occurrences_bounded(tokens, t);
    if !tokens.contains(t) {
        lemma_occurrences_absent(tokens, t);
    } else {
        let w = choose|w: int| 0 <= w < tokens.len() && tokens[w] == t;
        lemma_occurrences_at(tokens, t, w);
    }
}

/// A position where the term occurs is recorded.
proof fn lemma_occurrences_at(tokens: Seq<Seq<char>>, t: Seq<char>, w: int)
    requires
        tokens.len() <= usize::MAX,
        0 <= w < tokens.len(),
        tokens[w] == t,
    ensures
        occurrences(tokens, t).contains(w as usize),
    decreases tokens.len(),
{
    let o = occurrences(tokens, t);
    if w == tokens.len() - 1 {
        assert(o[o.len() - 1] == w as usize);
    } else {
        let rest = tokens.drop_last();
        assert(rest[w] == t);
        lemma_occurrences_at(rest, t, w);
        let r = occurrences(rest, t);
        let j = choose|j: int| 0 <= j < r.len() && r[j] == w as usize;
        assert(o[j] == r[j]);
    }
}

/// A term that does not occur has no positions.
proof fn lemma_occurrences_absent(tokens: Seq<Seq<char>>, t: Seq<char>)
    requires
        !tokens.contains(t),
    ensures
        occurrences(tokens, t) == Seq::<usize>::empty(),
    decreases tokens.len(),
{
    if tokens.len() > 0 {
        let rest = tokens.drop_last();
        assert forall|i: int| 0 <= i < rest.len() implies rest[i] != t by {
            assert(rest[i] == tokens[i]);
        }
        lemma_occurrences_absent(rest, t);
        assert(tokens[tokens.len() - 1] != t);
    }
}

} // verus!
