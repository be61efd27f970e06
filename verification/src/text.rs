//! Character-level text helpers shared by the tokenizer, the chunker and the
//! snippet extractor: the character classes that std decides, trimming,
//! joining, decimal numerals and UTF-8 byte lengths.

use vstd::prelude::*;
use vstd::utf8::encode_utf8;

verus! {

/// The Unicode `White_Space` property, which `char::is_whitespace` tests:
/// U+0009..U+000D, space, U+0085, U+00A0, U+1680, U+2000..U+200A, U+2028,
/// U+2029, U+202F, U+205F and U+3000.
pub open spec fn char_is_whitespace(c: char) -> bool {
    let u = c as u32;
    ||| 0x09 <= u <= 0x0d
    ||| u == 0x20
    ||| u == 0x85
    ||| u == 0xa0
    ||| u == 0x1680
    ||| 0x2000 <= u <= 0x200a
    ||| u == 0x2028
    ||| u == 0x2029
    ||| u == 0x202f
    ||| u == 0x205f
    ||| u == 0x3000
}

/// What `char::is_alphanumeric` answers for a character (alphabetic or numeric).
pub uninterp spec fn char_is_alphanumeric(c: char) -> bool;

/// The Unicode general category `Cc`, which `char::is_control` tests:
/// U+0000..U+001F and U+007F..U+009F.
pub open spec fn char_is_control(c: char) -> bool {
    let u = c as u32;
    u <= 0x1f || (0x7f <= u <= 0x9f)
}

/// What `str::to_lowercase` returns for a string that is not all ASCII (the
/// Unicode lowercase mapping).
pub uninterp spec fn lowercase_beyond_ascii(s: Seq<char>) -> Seq<char>;

/// `char::is_whitespace`: whether the character has the `White_Space`
/// property, listed in `char_is_whitespace`.
pub assume_specification[ char::is_whitespace ](c: char) -> (res: bool)
    ensures
        res == char_is_whitespace(c),
;

/// `char::is_alphanumeric`: its answer is named; on ASCII characters it holds
/// exactly of letters and digits.
pub assume_specification[ char::is_alphanumeric ](c: char) -> (res: bool)
    ensures
        res == char_is_alphanumeric(c),
        (c as u32) < 0x80 ==> (res <==> (('a' <= c && c <= 'z') || ('A' <= c && c <= 'Z') || (
        '0' <= c && c <= '9'))),
;

/// `char::is_control`: whether the character is in the general category
/// `Cc`, listed in `char_is_control`.
pub assume_specification[ char::is_control ](c: char) -> (res: bool)
    ensures
        res == char_is_control(c),
;

/// Every character is ASCII.
pub open spec fn all_ascii(s: Seq<char>) -> bool {
    forall|i: int| 0 <= i < s.len() ==> (#[trigger] s[i] as u32) < 0x80
}

/// The ASCII lowercase of a character: 'A'..'Z' become 'a'..'z', every other
/// character stays.
pub open spec fn ascii_lower(c: char) -> char {
    if 'A' <= c <= 'Z' {
        ((c as u32) + 32) as char
    } else {
        c
    }
}

/// The lowercase of a string: on an ASCII string each character mapped by
/// `ascii_lower`, on any other string the Unicode lowercase mapping.
pub open spec fn lowercase(s: Seq<char>) -> Seq<char> {
    if all_ascii(s) {
        s.map_values(|c: char| ascii_lower(c))
    } else {
        lowercase_beyond_ascii(s)
    }
}

/// `str::to_lowercase`: on an ASCII string each character is mapped by
/// itself, 'A'..'Z' to 'a'..'z' and every other character to itself; on any
/// other string the result is named and depends on the string alone.
pub assume_specification[ str::to_lowercase ](s: &str) -> (res: String)
    ensures
        all_ascii(s@) ==> res@ == s@.map_values(|c: char| ascii_lower(c)),
        !all_ascii(s@) ==> res@ == lowercase_beyond_ascii(s@),
;

/// `String::push`: appends one character to the string.
pub assume_specification[ String::push ](s: &mut String, ch: char)
    ensures
        final(s)@ == old(s)@.push(ch),
;

/// The characters of a string slice, in order.
pub fn chars_of(s: &str) -> (res: Vec<char>)
    ensures
        res@ == s@,
{
    let mut res: Vec<char> = Vec::new();
    for c in it: s.chars()
        invariant
            res@ == it.seq().take(it.index() as int),
    {
        res.push(c);
    }
    res
}

/// Builds a string from a run of characters, `cs[from..to]`.
pub fn string_of_range(cs: &Vec<char>, from: usize, to: usize) -> (res: String)
    requires
        from <= to <= cs.len(),
    ensures
        res@ == cs@.subrange(from as int, to as int),
{
    let mut res = String::new();
    let mut i: usize = from;
    while i < to
        invariant
            from <= i <= to <= cs.len(),
            res@ == cs@.subrange(from as int, i as int),
        decreases to - i,
    {
        res.push(cs[i]);
        i = i + 1;
        assert(cs@.subrange(from as int, i as int) == cs@.subrange(from as int, i - 1).push(
            cs@[i - 1],
        ));
    }
    res
}

/// Builds a string from a sequence of characters.
pub fn string_of(cs: &Vec<char>) -> (res: String)
    ensures
        res@ == cs@,
{
    let res = string_of_range(cs, 0, cs.len());
    assert(cs@.subrange(0, cs@.len() as int) == cs@);
    res
}

/// Appends the characters of `s` to `out`.
pub fn push_str(out: &mut String, s: &str)
    ensures
        final(out)@ == old(out)@ + s@,
{
    let ghost start = out@;
    for c in it: s.chars()
        invariant
            out@ == start + it.seq().take(it.index() as int),
    {
        out.push(c);
    }
    assert(s@.take(s@.len() as int) == s@);
}

/// `s` with its leading whitespace removed.
pub open spec fn trim_start(s: Seq<char>) -> Seq<char>
    decreases s.len(),
{
    if s.len() > 0 && char_is_whitespace(s[0]) {
        trim_start(s.drop_first())
    } else {
        s
    }
}

/// `s` with its trailing whitespace removed.
pub open spec fn trim_end(s: Seq<char>) -> Seq<char>
    decreases s.len(),
{
    if s.len() > 0 && char_is_whitespace(s.last()) {
        trim_end(s.drop_last())
    } else {
        s
    }
}

/// `s` with leading and trailing whitespace removed (what `str::trim` returns).
pub open spec fn trim(s: Seq<char>) -> Seq<char> {
    trim_end(trim_start(s))
}

/// Every character of `s` is whitespace.
pub open spec fn all_whitespace(s: Seq<char>) -> bool {
    forall|i: int| 0 <= i < s.len() ==> #[trigger] char_is_whitespace(s[i])
}

/// Dropping a whitespace prefix `s[..a]` that ends at a non-whitespace
/// character (or at the end) is what `trim_start` does.
proof fn lemma_trim_start_at(s: Seq<char>, a: int)
    requires
        0 <= a <= s.len(),
        forall|k: int| 0 <= k < a ==> #[trigger] char_is_whitespace(s[k]),
        a < s.len() ==> !char_is_whitespace(s[a]),
    ensures
        trim_start(s) == s.subrange(a, s.len() as int),
    decreases a,
{
    if a == 0 {
        assert(s.subrange(0, s.len() as int) == s);
    } else {
        let t = s.drop_first();
        assert forall|k: int| 0 <= k < a - 1 implies #[trigger] char_is_whitespace(t[k]) by {
            assert(t[k] == s[k + 1]);
        }
        lemma_trim_start_at(t, a - 1);
        assert(t.subrange(a - 1, t.len() as int) == s.subrange(a, s.len() as int));
    }
}

/// Dropping a whitespace suffix `s[b..]` that starts after a non-whitespace
/// character (or at the start) is what `trim_end` does.
proof fn lemma_trim_end_at(s: Seq<char>, b: int)
    requires
        0 <= b <= s.len(),
        forall|k: int| b <= k < s.len() ==> #[trigger] char_is_whitespace(s[k]),
        b > 0 ==> !char_is_whitespace(s[b - 1]),
    ensures
        trim_end(s) == s.subrange(0, b),
    decreases s.len() - b,
{
    if b == s.len() {
        assert(s.subrange(0, b) == s);
    } else {
        let t = s.drop_last();
        assert forall|k: int| b <= k < t.len() implies #[trigger] char_is_whitespace(t[k]) by {
            assert(t[k] == s[k]);
        }
        lemma_trim_end_at(t, b);
        assert(t.subrange(0, b) == s.subrange(0, b));
    }
}

/// The bounds `(a, b)` of the trimmed part `cs[a..b]` of the run `cs[from..to]`.
pub fn trim_bounds(cs: &Vec<char>, from: usize, to: usize) -> (res: (usize, usize))
    requires
        from <= to <= cs.len(),
    ensures
        from <= res.0 <= res.1 <= to,
        cs@.subrange(res.0 as int, res.1 as int) == trim(cs@.subrange(from as int, to as int)),
{
    let ghost s = cs@.subrange(from as int, to as int);
    let mut a: usize = from;
    while a < to && cs[a].is_whitespace()
        invariant
            from <= a <= to <= cs.len(),
            forall|k: int| from <= k < a ==> #[trigger] char_is_whitespace(cs@[k]),
        decreases to - a,
    {
        a = a + 1;
    }
    proof {
        assert forall|k: int| 0 <= k < a - from implies #[trigger] char_is_whitespace(s[k]) by {
            assert(s[k] == cs@[k + from]);
        }
        if a < to {
            assert(s[a - from] == cs@[a as int]);
        }
        lemma_trim_start_at(s, a - from);
        assert(s.subrange(a - from, s.len() as int) == cs@.subrange(a as int, to as int));
    }
    let mut b: usize = to;
    while b > a && cs[b - 1].is_whitespace()
        invariant
            from <= a <= b <= to <= cs.len(),
            forall|k: int| b <= k < to ==> #[trigger] char_is_whitespace(cs@[k]),
        decreases b,
    {
        b = b - 1;
    }
    proof {
        let t = cs@.subrange(a as int, to as int);
        let bb = b - a;
        assert forall|k: int| bb <= k < t.len() implies #[trigger] char_is_whitespace(t[k]) by {
            assert(t[k] == cs@[k + a]);
        }
        if bb > 0 {
            assert(t[bb - 1] == cs@[b - 1]);
        }
        lemma_trim_end_at(t, bb);
        assert(t.subrange(0, bb) == cs@.subrange(a as int, b as int));
    }
    (a, b)
}

/// `s` with leading and trailing whitespace removed.
pub fn trimmed(s: &str) -> (res: String)
    ensures
        res@ == trim(s@),
{
    let cs = chars_of(s);
    let (a, b) = trim_bounds(&cs, 0, cs.len());
    assert(cs@.subrange(0, cs@.len() as int) == cs@);
    string_of_range(&cs, a, b)
}

/// Whether a text holds nothing but whitespace.
pub fn is_blank(text: &str) -> (res: bool)
    ensures
        res == all_whitespace(text@),
{
    proof {
        lemma_trim_empty_iff(text@);
    }
    let t = trimmed(text);
    t.as_str().is_empty()
}

/// `trim` leaves nothing exactly when every character is whitespace.
pub proof fn lemma_trim_empty_iff(s: Seq<char>)
    ensures
        trim(s).len() == 0 <==> all_whitespace(s),
    decreases s.len(),
{
    if s.len() > 0 && char_is_whitespace(s[0]) {
        lemma_trim_empty_iff(s.drop_first());
        if all_whitespace(s.drop_first()) {
            assert forall|i: int| 0 <= i < s.len() implies #[trigger] char_is_whitespace(s[i]) by {
                if i > 0 {
                    assert(s[i] == s.drop_first()[i - 1]);
                }
            }
        }
        if all_whitespace(s) {
            assert forall|i: int| 0 <= i < s.len() - 1 implies #[trigger] char_is_whitespace(
                s.drop_first()[i],
            ) by {
                assert(s.drop_first()[i] == s[i + 1]);
            }
        }
    } else if s.len() > 0 {
        lemma_trim_end_keeps_first(s);
    }
}

/// When `s` starts with a non-whitespace character, trimming its end keeps it.
proof fn lemma_trim_end_keeps_first(s: Seq<char>)
    requires
        s.len() > 0,
        !char_is_whitespace(s[0]),
    ensures
        trim_end(s).len() > 0,
    decreases s.len(),
{
    if char_is_whitespace(s.last()) {
        assert(s.len() > 1);
        assert(s.drop_last()[0] == s[0]);
        lemma_trim_end_keeps_first(s.drop_last());
    }
}

/// `trim_start` leaves either nothing or a run that starts with a
/// non-whitespace character.
proof fn lemma_trim_start_first(s: Seq<char>)
    ensures
        trim_start(s).len() > 0 ==> !char_is_whitespace(trim_start(s)[0]),
        trim_start(s).len() <= s.len(),
    decreases s.len(),
{
    if s.len() > 0 && char_is_whitespace(s[0]) {
        lemma_trim_start_first(s.drop_first());
    }
}

/// `trim_end` leaves either nothing or a run that ends with a
/// non-whitespace character, and keeps a non-whitespace first character.
proof fn lemma_trim_end_last(s: Seq<char>)
    ensures
        trim_end(s).len() > 0 ==> !char_is_whitespace(trim_end(s).last()),
        s.len() > 0 && !char_is_whitespace(s[0]) ==> trim_end(s).len() > 0 && trim_end(s)[0]
            == s[0],
    decreases s.len(),
{
    if s.len() > 0 && char_is_whitespace(s.last()) {
        let t = s.drop_last();
        lemma_trim_end_last(t);
        if !char_is_whitespace(s[0]) {
            assert(s.len() > 1);
            assert(t[0] == s[0]);
        }
    }
}

/// A trimmed text is either empty or starts and ends with non-whitespace.
pub proof fn lemma_trim_shape(s: Seq<char>)
    ensures
        trim(s).len() > 0 ==> !char_is_whitespace(trim(s)[0]) && !char_is_whitespace(
            trim(s).last(),
        ),
{
    lemma_trim_start_first(s);
    lemma_trim_end_last(trim_start(s));
}

/// Trimming a trimmed text changes nothing.
pub proof fn lemma_trim_idempotent(s: Seq<char>)
    ensures
        trim(trim(s)) == trim(s),
{
    let t = trim(s);
    lemma_trim_shape(s);
    if t.len() > 0 {
        assert(trim_start(t) == t);
        assert(trim_end(t) == t);
    } else {
        assert(trim_start(t) == t);
    }
}

/// A non-empty text that trimming leaves unchanged is not blank.
pub proof fn lemma_trimmed_not_blank(s: Seq<char>)
    requires
        s.len() > 0,
        trim(s) == s,
    ensures
        !all_whitespace(s),
{
    lemma_trim_shape(s);
}

/// Text that holds a non-blank part is not blank.
pub proof fn lemma_not_blank_concat(a: Seq<char>, b: Seq<char>, c: Seq<char>)
    requires
        !all_whitespace(b),
    ensures
        !all_whitespace(a + b + c),
{
    let k = choose|k: int| 0 <= k < b.len() && !char_is_whitespace(b[k]);
    assert((a + b + c)[a.len() + k] == b[k]);
}

/// Leading whitespace does not change what `trim_start` leaves.
proof fn lemma_trim_start_ws_prefix(l: Seq<char>, x: Seq<char>)
    requires
        all_whitespace(l),
    ensures
        trim_start(l + x) == trim_start(x),
    decreases l.len(),
{
    if l.len() == 0 {
        assert(l + x == x);
    } else {
        assert((l + x)[0] == l[0]);
        assert((l + x).drop_first() == l.drop_first() + x);
        assert forall|i: int| 0 <= i < l.drop_first().len() implies #[trigger] char_is_whitespace(
            l.drop_first()[i],
        ) by {
            assert(l.drop_first()[i] == l[i + 1]);
        }
        lemma_trim_start_ws_prefix(l.drop_first(), x);
    }
}

/// Trailing whitespace does not change what `trim_end` leaves.
proof fn lemma_trim_end_ws_suffix(y: Seq<char>, r: Seq<char>)
    requires
        all_whitespace(r),
    ensures
        trim_end(y + r) == trim_end(y),
    decreases r.len(),
{
    if r.len() == 0 {
        assert(y + r == y);
    } else {
        assert((y + r).last() == r.last());
        assert((y + r).drop_last() == y + r.drop_last());
        assert forall|i: int| 0 <= i < r.drop_last().len() implies #[trigger] char_is_whitespace(
            r.drop_last()[i],
        ) by {
            assert(r.drop_last()[i] == r[i]);
        }
        lemma_trim_end_ws_suffix(y, r.drop_last());
    }
}

/// `trim_start` of a text with more after it: a blank text is skipped
/// entirely, otherwise what follows is kept.
proof fn lemma_trim_start_concat(x: Seq<char>, r: Seq<char>)
    ensures
        trim_start(x + r) == if all_whitespace(x) {
            trim_start(r)
        } else {
            trim_start(x) + r
        },
    decreases x.len(),
{
    if x.len() == 0 {
        assert(x + r == r);
    } else if char_is_whitespace(x[0]) {
        let t = x.drop_first();
        assert((x + r)[0] == x[0]);
        assert((x + r).drop_first() == t + r);
        lemma_trim_start_concat(t, r);
        if all_whitespace(t) {
            assert forall|i: int| 0 <= i < x.len() implies #[trigger] char_is_whitespace(x[i]) by {
                if i > 0 {
                    assert(x[i] == t[i - 1]);
                }
            }
        } else {
            let k = choose|k: int| 0 <= k < t.len() && !char_is_whitespace(t[k]);
            assert(x[k + 1] == t[k]);
        }
    } else {
        assert((x + r)[0] == x[0]);
    }
}

/// Whitespace around a text does not change its trim.
pub proof fn lemma_trim_ws_around(l: Seq<char>, x: Seq<char>, r: Seq<char>)
    requires
        all_whitespace(l),
        all_whitespace(r),
    ensures
        trim(l + x) == trim(x),
        trim(x + r) == trim(x),
{
    lemma_trim_start_ws_prefix(l, x);
    lemma_trim_start_concat(x, r);
    let e = Seq::<char>::empty();
    if all_whitespace(x) {
        lemma_trim_start_ws_prefix(r, e);
        lemma_trim_start_ws_prefix(x, e);
        assert(r + e == r);
        assert(x + e == x);
    } else {
        lemma_trim_end_ws_suffix(trim_start(x), r);
    }
}

/// A text is its leading whitespace, its trim and its trailing whitespace;
/// returns where the trim starts and ends.
pub proof fn lemma_trim_split(s: Seq<char>) -> (ab: (int, int))
    ensures
        0 <= ab.0 <= ab.1 <= s.len(),
        trim(s) == s.subrange(ab.0, ab.1),
        all_whitespace(s.take(ab.0)),
        all_whitespace(s.subrange(ab.1, s.len() as int)),
{
    let a = lemma_trim_start_split(s);
    let t = trim_start(s);
    let b = lemma_trim_end_split(t);
    let ts = s.subrange(a, s.len() as int);
    assert(s.subrange(a + b, s.len() as int) == t.subrange(b, t.len() as int));
    assert(s.subrange(a, a + b) == t.take(b));
    (a, a + b)
}

/// Where `trim_start` starts: after a whitespace prefix.
proof fn lemma_trim_start_split(s: Seq<char>) -> (a: int)
    ensures
        0 <= a <= s.len(),
        trim_start(s) == s.subrange(a, s.len() as int),
        all_whitespace(s.take(a)),
    decreases s.len(),
{
    if s.len() > 0 && char_is_whitespace(s[0]) {
        let t = s.drop_first();
        let a1 = lemma_trim_start_split(t);
        assert(s.subrange(a1 + 1, s.len() as int) == t.subrange(a1, t.len() as int));
        assert forall|i: int| 0 <= i < a1 + 1 implies #[trigger] char_is_whitespace(
            s.take(a1 + 1)[i],
        ) by {
            if i > 0 {
                assert(s.take(a1 + 1)[i] == t.take(a1)[i - 1]);
            }
        }
        a1 + 1
    } else {
        assert(s.subrange(0, s.len() as int) == s);
        0
    }
}

/// Where `trim_end` ends: before a whitespace suffix.
proof fn lemma_trim_end_split(s: Seq<char>) -> (b: int)
    ensures
        0 <= b <= s.len(),
        trim_end(s) == s.take(b),
        all_whitespace(s.subrange(b, s.len() as int)),
    decreases s.len(),
{
    if s.len() > 0 && char_is_whitespace(s.last()) {
        let t = s.drop_last();
        let b1 = lemma_trim_end_split(t);
        assert(s.take(b1) == t.take(b1));
        assert forall|i: int| 0 <= i < s.len() - b1 implies #[trigger] char_is_whitespace(
            s.subrange(b1, s.len() as int)[i],
        ) by {
            if b1 + i < t.len() {
                assert(s.subrange(b1, s.len() as int)[i] == t.subrange(b1, t.len() as int)[i]);
            }
        }
        b1
    } else {
        assert(s.take(s.len() as int) == s);
        s.len() as int
    }
}

/// A text that starts with a prefix beginning and ending with non-whitespace
/// still starts with it once trimmed.
pub proof fn lemma_trim_keeps_prefix(o: Seq<char>, x: Seq<char>)
    requires
        o.len() > 0,
        !char_is_whitespace(o[0]),
        !char_is_whitespace(o.last()),
        o.is_prefix_of(x),
    ensures
        o.is_prefix_of(trim(x)),
{
    assert(x[0] == o[0]);
    assert(trim_start(x) == x);
    let b = lemma_trim_end_split(x);
    assert(x[o.len() - 1] == o.last());
    if b < o.len() {
        assert(x.subrange(b, x.len() as int)[o.len() - 1 - b] == x[o.len() - 1]);
    }
    assert(trim(x).subrange(0, o.len() as int) == x.subrange(0, o.len() as int));
}

/// The parts joined with `sep` between consecutive parts.
pub open spec fn join(parts: Seq<Seq<char>>, sep: Seq<char>) -> Seq<char>
    decreases parts.len(),
{
    if parts.len() == 0 {
        seq![]
    } else if parts.len() == 1 {
        parts[0]
    } else {
        join(parts.drop_last(), sep) + sep + parts.last()
    }
}

/// Joining non-empty parts with a space begins with the first character of
/// the first part and ends with the last character of the last part.
pub proof fn lemma_join_ends(parts: Seq<Seq<char>>)
    requires
        parts.len() > 0,
        forall|i: int| 0 <= i < parts.len() ==> (#[trigger] parts[i]).len() > 0,
    ensures
        join(parts, seq![' ']).len() > 0,
        join(parts, seq![' '])[0] == parts[0][0],
        join(parts, seq![' ']).last() == parts.last().last(),
    decreases parts.len(),
{
    if parts.len() > 1 {
        let rest = parts.drop_last();
        assert forall|i: int| 0 <= i < rest.len() implies (#[trigger] rest[i]).len() > 0 by {
            assert(rest[i] == parts[i]);
        }
        lemma_join_ends(rest);
        assert(rest[0] == parts[0]);
        let j = join(rest, seq![' ']) + seq![' '] + parts.last();
        assert(j[0] == join(rest, seq![' '])[0]);
        assert(j.last() == parts.last().last());
    }
}

/// The views of a run of strings.
pub open spec fn views(v: Seq<String>) -> Seq<Seq<char>> {
    v.map_values(|s: String| s@)
}

/// `parts[from..to]` joined with `sep` between consecutive parts.
pub fn join_range(parts: &Vec<String>, from: usize, to: usize, sep: &Vec<char>) -> (res: String)
    requires
        from <= to <= parts.len(),
    ensures
        res@ == join(views(parts@.subrange(from as int, to as int)), sep@),
{
    let mut res = String::new();
    let mut i: usize = from;
    while i < to
        invariant
            from <= i <= to <= parts.len(),
            res@ == join(views(parts@.subrange(from as int, i as int)), sep@),
        decreases to - i,
    {
        let ghost before = views(parts@.subrange(from as int, i as int));
        if i > from {
            let mut k: usize = 0;
            let ghost start = res@;
            while k < sep.len()
                invariant
                    k <= sep.len(),
                    res@ == start + sep@.take(k as int),
                decreases sep.len() - k,
            {
                res.push(sep[k]);
                k = k + 1;
                assert(sep@.take(k as int) == sep@.take(k - 1).push(sep@[k - 1]));
            }
            assert(sep@.take(sep.len() as int) == sep@);
        }
        push_str(&mut res, parts[i].as_str());
        i = i + 1;
        proof {
            let after = views(parts@.subrange(from as int, i as int));
            assert(after.drop_last() == before);
            assert(after.last() == parts@[i - 1]@);
            if i - 1 == from {
                assert(after.len() == 1);
            }
        }
    }
    res
}

/// The decimal numeral of a digit value below ten.
pub open spec fn digit_char(d: nat) -> char {
    if d == 0 {
        '0'
    } else if d == 1 {
        '1'
    } else if d == 2 {
        '2'
    } else if d == 3 {
        '3'
    } else if d == 4 {
        '4'
    } else if d == 5 {
        '5'
    } else if d == 6 {
        '6'
    } else if d == 7 {
        '7'
    } else if d == 8 {
        '8'
    } else {
        '9'
    }
}

/// The decimal numeral of `n`, without leading zeros.
pub open spec fn decimal(n: nat) -> Seq<char>
    decreases n,
{
    if n < 10 {
        seq![digit_char(n)]
    } else {
        decimal(n / 10).push(digit_char(n % 10))
    }
}

/// A numeral has at least one digit.
pub proof fn lemma_decimal_nonempty(n: nat)
    ensures
        decimal(n).len() >= 1,
        n >= 10 ==> decimal(n).len() >= 2,
    decreases n,
{
    if n >= 10 {
        lemma_decimal_nonempty(n / 10);
    }
}

/// Different digit values have different numerals.
proof fn lemma_digit_injective(a: nat, b: nat)
    requires
        a < 10,
        b < 10,
        digit_char(a) == digit_char(b),
    ensures
        a == b,
{
}

/// Different numbers have different numerals.
pub proof fn lemma_decimal_injective(n: nat, m: nat)
    requires
        decimal(n) == decimal(m),
    ensures
        n == m,
    decreases n,
{
    lemma_decimal_nonempty(n);
    lemma_decimal_nonempty(m);
    if n >= 10 && m >= 10 {
        assert(decimal(n).last() == digit_char(n % 10));
        assert(decimal(m).last() == digit_char(m % 10));
        assert(decimal(n).drop_last() == decimal(n / 10));
        assert(decimal(m).drop_last() == decimal(m / 10));
        lemma_digit_injective(n % 10, m % 10);
        lemma_decimal_injective(n / 10, m / 10);
    } else if n < 10 && m < 10 {
        assert(decimal(n)[0] == digit_char(n));
        assert(decimal(m)[0] == digit_char(m));
        lemma_digit_injective(n, m);
    }
}

fn digit(d: usize) -> (c: char)
    requires
        d < 10,
    ensures
        c == digit_char(d as nat),
{
    if d == 0 {
        '0'
    } else if d == 1 {
        '1'
    } else if d == 2 {
        '2'
    } else if d == 3 {
        '3'
    } else if d == 4 {
        '4'
    } else if d == 5 {
        '5'
    } else if d == 6 {
        '6'
    } else if d == 7 {
        '7'
    } else if d == 8 {
        '8'
    } else {
        '9'
    }
}

/// Appends the decimal numeral of `n` to `out`.
pub fn push_decimal(out: &mut String, n: usize)
    ensures
        final(out)@ == old(out)@ + decimal(n as nat),
    decreases n,
{
    if n >= 10 {
        push_decimal(out, n / 10);
    }
    out.push(digit(n % 10));
}

/// The number of bytes of the UTF-8 encoding of a character.
pub open spec fn char_width(c: char) -> nat {
    vstd::utf8::encode_scalar(c as u32).len()
}

/// The number of bytes of the UTF-8 encoding of a text (what `str::len`
/// measures).
pub open spec fn utf8_len(s: Seq<char>) -> nat {
    encode_utf8(s).len()
}

/// The UTF-8 width of a character.
pub fn utf8_width(c: char) -> (w: usize)
    ensures
        w == char_width(c),
        1 <= w <= 4,
{
    let v = c as u32;
    if v <= 0x7F {
        1
    } else if v <= 0x7FF {
        2
    } else if v <= 0xFFFF {
        3
    } else {
        4
    }
}

/// Encoding a concatenation encodes each part.
pub proof fn lemma_utf8_concat(a: Seq<char>, b: Seq<char>)
    ensures
        encode_utf8(a + b) == encode_utf8(a) + encode_utf8(b),
    decreases a.len(),
{
    if a.len() == 0 {
        assert(a + b == b);
    } else {
        lemma_utf8_concat(a.drop_first(), b);
        assert((a + b).drop_first() == a.drop_first() + b);
        assert((a + b)[0] == a[0]);
    }
}

/// The encoding of one character is its width.
pub proof fn lemma_utf8_single(c: char)
    ensures
        utf8_len(seq![c]) == char_width(c),
{
    assert(seq![c].drop_first() == Seq::<char>::empty());
    assert(encode_utf8(seq![c]) == vstd::utf8::encode_scalar(c as u32) + encode_utf8(
        Seq::<char>::empty(),
    ));
    assert(encode_utf8(Seq::<char>::empty()) == Seq::<u8>::empty());
    assert(vstd::utf8::encode_scalar(c as u32) + Seq::<u8>::empty() == vstd::utf8::encode_scalar(
        c as u32,
    ));
}

/// Growing a prefix by one character adds that character's width.
pub proof fn lemma_utf8_take_succ(t: Seq<char>, i: int)
    requires
        0 <= i < t.len(),
    ensures
        utf8_len(t.take(i + 1)) == utf8_len(t.take(i)) + char_width(t[i]),
{
    assert(t.take(i + 1) == t.take(i) + seq![t[i]]);
    lemma_utf8_concat(t.take(i), seq![t[i]]);
    lemma_utf8_single(t[i]);
}

/// A prefix is no longer than the whole, in bytes.
pub proof fn lemma_utf8_prefix_le(t: Seq<char>, i: int)
    requires
        0 <= i <= t.len(),
    ensures
        utf8_len(t.take(i)) <= utf8_len(t),
{
    assert(t == t.take(i) + t.skip(i));
    lemma_utf8_concat(t.take(i), t.skip(i));
}

/// The UTF-8 encoding of `s` has at least one byte per character.
pub proof fn lemma_utf8_len_at_least_chars(s: Seq<char>)
    ensures
        encode_utf8(s).len() >= s.len(),
    decreases s.len(),
{
    if s.len() > 0 {
        lemma_utf8_len_at_least_chars(s.drop_first());
    }
}

/// Whether the UTF-8 encoding of `cs` (what `String::len` measures) has at
/// least two bytes.
pub fn utf8_len_at_least_two(cs: &Vec<char>) -> (res: bool)
    ensures
        res == (encode_utf8(cs@).len() >= 2),
{
    proof {
        lemma_utf8_len_at_least_chars(cs@);
    }
    if cs.len() >= 2 {
        true
    } else if cs.len() == 1 {
        proof {
            assert(cs@.drop_first().len() == 0);
            assert(encode_utf8(cs@.drop_first()) =~= Seq::<u8>::empty());
            assert(encode_utf8(cs@) =~= vstd::utf8::encode_scalar(cs@[0] as u32));
        }
        (cs[0] as u32) >= 0x80
    } else {
        false
    }
}

} // verus!
