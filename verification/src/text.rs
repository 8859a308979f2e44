//! Plain text: words, trimming, cutting, searching.

use vstd::prelude::*;
use vstd::utf8::{encode_utf8, encode_utf8_decode_utf8};

verus! {

// ---------------------------------------------------------------------------------------------
// What the operations mean
// ---------------------------------------------------------------------------------------------

/// White space: the characters with Unicode's `White_Space` property.
pub open spec fn is_white(c: char) -> bool {
    let u = c as u32;
    ||| 0x9 <= u <= 0xd
    ||| u == 0x20
    ||| u == 0x85
    ||| u == 0xa0
    ||| u == 0x1680
    ||| 0x2000 <= u <= 0x200a
    ||| u == 0x2028
    ||| u == 0x2029
    ||| u == 0x202f
    ||| u == 0x205f
    ||| u == 0x3000
}

/// The words of a text: its longest runs of characters that are not white space. A character that
/// follows one of its own word belongs to that word; any other opens a new one.
pub open spec fn words(s: Seq<char>) -> Seq<Seq<char>>
    decreases s.len(),
{
    if s.len() == 0 {
        Seq::empty()
    } else {
        let before = words(s.drop_last());
        if is_white(s.last()) {
            before
        } else if s.len() >= 2 && !is_white(s[s.len() - 2]) {
            before.drop_last().push(before.last().push(s.last()))
        } else {
            before.push(seq![s.last()])
        }
    }
}

/// The parts one after another, with `sep` between each two.
pub open spec fn join(parts: Seq<Seq<char>>, sep: Seq<char>) -> Seq<char>
    decreases parts.len(),
{
    if parts.len() == 0 {
        Seq::empty()
    } else if parts.len() == 1 {
        parts[0]
    } else {
        join(parts.drop_last(), sep) + sep + parts.last()
    }
}

/// The words of a text with a single space between each two.
pub open spec fn normal(s: Seq<char>) -> Seq<char> {
    join(words(s), seq![' '])
}

/// The first `n` characters, or all of them where there are no more.
pub open spec fn head(s: Seq<char>, n: int) -> Seq<char> {
    if s.len() <= n {
        s
    } else {
        s.take(n)
    }
}

/// The text without its leading white space.
pub open spec fn trim_start(s: Seq<char>) -> Seq<char>
    decreases s.len(),
{
    if s.len() > 0 && is_white(s[0]) {
        trim_start(s.drop_first())
    } else {
        s
    }
}

/// The text without its trailing white space.
pub open spec fn trim_end(s: Seq<char>) -> Seq<char>
    decreases s.len(),
{
    if s.len() > 0 && is_white(s.last()) {
        trim_end(s.drop_last())
    } else {
        s
    }
}

/// The text without leading and trailing white space.
pub open spec fn trim(s: Seq<char>) -> Seq<char> {
    trim_end(trim_start(s))
}

/// Whether a text is nothing but white space.
pub open spec fn blank(s: Seq<char>) -> bool {
    forall|i: int| 0 <= i < s.len() ==> is_white(#[trigger] s[i])
}

/// Whether `needle` stands in `hay` at place `i`.
pub open spec fn stands_at(hay: Seq<char>, needle: Seq<char>, i: int) -> bool {
    &&& 0 <= i
    &&& i + needle.len() <= hay.len()
    &&& hay.subrange(i, i + needle.len()) == needle
}

/// Whether `needle` stands somewhere in `hay`.
pub open spec fn contains(hay: Seq<char>, needle: Seq<char>) -> bool {
    exists|i: int| stands_at(hay, needle, i)
}

/// Whether `hay` starts with `needle`.
pub open spec fn starts_with(hay: Seq<char>, needle: Seq<char>) -> bool {
    stands_at(hay, needle, 0)
}

/// How often `c` occurs in a text.
pub open spec fn occurrences(s: Seq<char>, c: char) -> nat
    decreases s.len(),
{
    if s.len() == 0 {
        0
    } else {
        occurrences(s.drop_last(), c) + if s.last() == c {
            1nat
        } else {
            0nat
        }
    }
}

/// `n`, or the largest `i64` for a number beyond it.
pub open spec fn clamp64(n: int) -> i64 {
    if n <= i64::MAX {
        n as i64
    } else {
        i64::MAX
    }
}

/// The number of lines of a text: one more than it has line breaks.
pub open spec fn line_count(s: Seq<char>) -> i64 {
    clamp64(occurrences(s, '\n') + 1int)
}

/// The number of bytes of a text in UTF-8.
pub open spec fn byte_count(s: Seq<char>) -> i64 {
    (encode_utf8(s).len() as usize) as i64
}

/// One line that stands for a text: its words with single spaces, at most `max` characters.
pub open spec fn preview(s: Seq<char>, max: int) -> Seq<char> {
    head(normal(s), max)
}

/// The text with each `from` replaced by `to`.
pub open spec fn replaced(s: Seq<char>, from: char, to: char) -> Seq<char> {
    s.map_values(|c: char| if c == from { to } else { c })
}

/// The pieces of a text between occurrences of `sep`: one more than there are occurrences.
pub open spec fn pieces(s: Seq<char>, sep: char) -> Seq<Seq<char>>
    decreases s.len(),
{
    if s.len() == 0 {
        seq![Seq::empty()]
    } else {
        let before = pieces(s.drop_last(), sep);
        if s.last() == sep {
            before.push(Seq::empty())
        } else {
            before.drop_last().push(before.last().push(s.last()))
        }
    }
}

/// Dictionary order: at the first place where they differ `a` ends or has the smaller character.
pub open spec fn precedes(a: Seq<char>, b: Seq<char>) -> bool {
    exists|k: int| #[trigger] parts_at(a, b, k) && (k == a.len() || a[k] < b[k])
}

/// `a` and `b` agree before place `k`, and `b` goes on there.
pub open spec fn parts_at(a: Seq<char>, b: Seq<char>, k: int) -> bool {
    &&& 0 <= k <= a.len()
    &&& k < b.len()
    &&& a.take(k) == b.take(k)
}

/// The character sequences of a list of texts.
pub open spec fn texts(list: Seq<String>) -> Seq<Seq<char>> {
    list.map_values(|s: String| s@)
}

/// The characters of a text that may be missing.
pub open spec fn maybe(text: Option<String>) -> Option<Seq<char>> {
    match text {
        Some(s) => Some(s@),
        None => None,
    }
}

// ---------------------------------------------------------------------------------------------
// Laws
// ---------------------------------------------------------------------------------------------

/// Each word has a character, and none that is white space.
pub proof fn lemma_words_solid(s: Seq<char>)
    ensures
        forall|k: int|
            #![trigger words(s)[k]]
            0 <= k < words(s).len() ==> words(s)[k].len() > 0 && (forall|i: int|
                0 <= i < words(s)[k].len() ==> !is_white(#[trigger] words(s)[k][i])),
        s.len() > 0 && !is_white(s.last()) ==> words(s).len() > 0,
    decreases s.len(),
{
    if s.len() > 0 {
        lemma_words_solid(s.drop_last());
        let before = words(s.drop_last());
        assert(s.len() >= 2 ==> s.drop_last().last() == s[s.len() - 2]);
        assert forall|k: int| 0 <= k < words(s).len() implies #[trigger] words(s)[k].len() > 0 && (
        forall|i: int| 0 <= i < words(s)[k].len() ==> !is_white(#[trigger] words(s)[k][i])) by {
            if k < before.len() {
                assert(before[k].len() > 0);
                assert(forall|i: int|
                    0 <= i < before[k].len() ==> !is_white(#[trigger] before[k][i]));
                if words(s)[k] != before[k] {
                    assert(words(s)[k] == before[k].push(s.last()));
                }
            }
        }
    }
}

/// Appending white space to a text adds no word.
proof fn lemma_words_after_space(s: Seq<char>, c: char)
    requires
        is_white(c),
    ensures
        words(s.push(c)) == words(s),
{
    assert(s.push(c).drop_last() =~= s);
}

/// Appending a word to a text that is empty or ends in white space adds that word.
proof fn lemma_words_after_word(s: Seq<char>, w: Seq<char>)
    requires
        s.len() == 0 || is_white(s.last()),
        w.len() > 0,
        forall|i: int| 0 <= i < w.len() ==> !is_white(#[trigger] w[i]),
    ensures
        words(s + w) == words(s).push(w),
    decreases w.len(),
{
    let t = s + w;
    assert(t.last() == w.last());
    assert(!is_white(t.last()));
    if w.len() == 1 {
        assert(t.drop_last() =~= s);
        assert(w =~= seq![w.last()]);
        if t.len() >= 2 {
            assert(t[t.len() - 2] == s.last());
        }
    } else {
        let v = w.drop_last();
        lemma_words_after_word(s, v);
        assert(t.drop_last() =~= s + v);
        assert(t[t.len() - 2] == w[w.len() - 2]);
        assert(words(s).push(v).drop_last() =~= words(s));
        assert(v.push(w.last()) =~= w);
    }
}

/// The words of joined words are those words.
proof fn lemma_words_of_join(parts: Seq<Seq<char>>)
    requires
        forall|k: int|
            #![trigger parts[k]]
            0 <= k < parts.len() ==> parts[k].len() > 0 && (forall|i: int|
                0 <= i < parts[k].len() ==> !is_white(#[trigger] parts[k][i])),
    ensures
        words(join(parts, seq![' '])) == parts,
    decreases parts.len(),
{
    let sp = seq![' '];
    if parts.len() == 0 {
        assert(join(parts, sp) =~= Seq::empty());
        assert(words(join(parts, sp)) =~= parts);
    } else if parts.len() == 1 {
        lemma_words_after_word(Seq::empty(), parts[0]);
        assert(Seq::empty() + parts[0] =~= parts[0]);
        assert(words(Seq::<char>::empty()) =~= Seq::empty());
        assert(parts =~= Seq::empty().push(parts[0]));
    } else {
        let front = parts.drop_last();
        assert forall|k: int| #![trigger front[k]] 0 <= k < front.len() implies front[k].len() > 0
            && (forall|i: int| 0 <= i < front[k].len() ==> !is_white(#[trigger] front[k][i])) by {
            assert(front[k] == parts[k]);
        }
        lemma_words_of_join(front);
        let f = join(front, sp);
        assert(f + sp =~= f.push(' '));
        lemma_words_after_space(f, ' ');
        lemma_words_after_word(f + sp, parts.last());
        assert(front.push(parts.last()) =~= parts);
    }
}

/// Normalizing a text twice is normalizing it once.
pub proof fn normal_is_idempotent(s: Seq<char>)
    ensures
        normal(normal(s)) == normal(s),
        words(normal(s)) == words(s),
{
    lemma_words_solid(s);
    lemma_words_of_join(words(s));
}

/// Joined parts of which none is empty are empty exactly where there is no part.
pub proof fn lemma_join_empty(parts: Seq<Seq<char>>, sep: Seq<char>)
    requires
        forall|k: int| 0 <= k < parts.len() ==> (#[trigger] parts[k]).len() > 0,
    ensures
        join(parts, sep).len() == 0 <==> parts.len() == 0,
{
    if parts.len() > 0 {
        assert(parts[parts.len() - 1].len() > 0);
    }
}

/// A text is normalized to nothing exactly where it is nothing but white space.
pub proof fn normal_is_empty_only_for_blank(s: Seq<char>)
    ensures
        normal(s).len() == 0 <==> blank(s),
{
    lemma_words_solid(s);
    lemma_join_empty(words(s), seq![' ']);
    lemma_no_words_means_blank(s);
}

/// A text has no word exactly where it is nothing but white space.
proof fn lemma_no_words_means_blank(s: Seq<char>)
    ensures
        words(s).len() == 0 <==> blank(s),
    decreases s.len(),
{
    if s.len() > 0 {
        let t = s.drop_last();
        lemma_no_words_means_blank(t);
        lemma_words_solid(t);
        if blank(s) {
            assert(is_white(s[s.len() - 1]));
            assert forall|i: int| 0 <= i < t.len() implies is_white(#[trigger] t[i]) by {
                assert(t[i] == s[i]);
            }
        } else if is_white(s.last()) {
            if blank(t) {
                assert forall|i: int| 0 <= i < s.len() implies is_white(#[trigger] s[i]) by {
                    if i < t.len() {
                        assert(t[i] == s[i]);
                    }
                }
            }
        } else if s.len() >= 2 && !is_white(s[s.len() - 2]) {
            assert(t.last() == s[s.len() - 2]);
        }
    }
}

/// Trimming leaves nothing exactly of the texts that are nothing but white space.
pub proof fn trim_is_empty_only_for_blank(s: Seq<char>)
    ensures
        trim(s).len() == 0 <==> blank(s),
{
    lemma_trim_start(s);
    lemma_trim_end(trim_start(s));
}

/// What `trim_start` leaves is empty or starts with a character that is no white space.
proof fn lemma_trim_start(s: Seq<char>)
    ensures
        blank(s) <==> trim_start(s).len() == 0,
        trim_start(s).len() > 0 ==> !is_white(trim_start(s)[0]),
    decreases s.len(),
{
    if s.len() > 0 && is_white(s[0]) {
        let t = s.drop_first();
        lemma_trim_start(t);
        if blank(t) {
            assert forall|i: int| 0 <= i < s.len() implies is_white(#[trigger] s[i]) by {
                if i > 0 {
                    assert(t[i - 1] == s[i]);
                }
            }
        }
        if blank(s) {
            assert forall|i: int| 0 <= i < t.len() implies is_white(#[trigger] t[i]) by {
                assert(t[i] == s[i + 1]);
            }
        }
    }
}

/// Trimming the end of a text with a leading solid character keeps that character.
proof fn lemma_trim_end(s: Seq<char>)
    ensures
        s.len() == 0 ==> trim_end(s).len() == 0,
        s.len() > 0 && !is_white(s[0]) ==> trim_end(s).len() > 0,
    decreases s.len(),
{
    if s.len() > 0 && is_white(s.last()) {
        lemma_trim_end(s.drop_last());
    }
}

/// What follows a text that neither starts nor ends with white space does not reach into it where the
/// whole is trimmed.
pub(crate) proof fn lemma_trim_keeps(s: Seq<char>, rest: Seq<char>)
    requires
        s.len() > 0,
        !is_white(s[0]),
        !is_white(s.last()),
    ensures
        s.is_prefix_of(trim(s + rest)),
{
    assert((s + rest)[0] == s[0]);
    lemma_trim_end_keeps(s, rest);
}

/// What follows a text that does not end with white space does not reach into it where white space is
/// taken off the end.
proof fn lemma_trim_end_keeps(s: Seq<char>, rest: Seq<char>)
    requires
        s.len() > 0,
        !is_white(s.last()),
    ensures
        s.is_prefix_of(trim_end(s + rest)),
    decreases rest.len(),
{
    let whole = s + rest;
    if rest.len() == 0 {
        assert(whole =~= s);
    } else if is_white(whole.last()) {
        assert(whole.drop_last() =~= s + rest.drop_last());
        lemma_trim_end_keeps(s, rest.drop_last());
    } else {
        assert(s =~= whole.subrange(0, s.len() as int));
    }
}

/// Dictionary order is strict, and of two different texts one precedes the other.
pub proof fn precedes_is_total(a: Seq<char>, b: Seq<char>)
    ensures
        !precedes(a, a),
        precedes(a, b) ==> !precedes(b, a),
        a != b ==> precedes(a, b) || precedes(b, a),
{
    lemma_precedes_asymmetric(a, a);
    lemma_precedes_asymmetric(a, b);
    if a != b {
        assert(a.take(0) =~= b.take(0));
        let k = lemma_first_difference(a, b, 0);
        assert(parts_at(a, b, k) || parts_at(b, a, k));
        assert(k < a.len() && k < b.len() ==> parts_at(a, b, k) && parts_at(b, a, k));
    }
}

/// If a precedes b then b does not precede a.
proof fn lemma_precedes_asymmetric(a: Seq<char>, b: Seq<char>)
    ensures
        !(precedes(a, b) && precedes(b, a)),
{
    if precedes(a, b) && precedes(b, a) {
        let k = choose|k: int| #[trigger] parts_at(a, b, k) && (k == a.len() || a[k] < b[k]);
        let m = choose|m: int| #[trigger] parts_at(b, a, m) && (m == b.len() || b[m] < a[m]);
        if k < m {
            assert(b.take(m)[k] == a.take(m)[k]);
        } else if m < k {
            assert(a.take(k)[m] == b.take(k)[m]);
        }
    }
}

/// The first place from `from` on where two texts differ.
proof fn lemma_first_difference(a: Seq<char>, b: Seq<char>, from: int) -> (k: int)
    requires
        a != b,
        0 <= from <= a.len(),
        from <= b.len(),
        a.take(from) == b.take(from),
    ensures
        from <= k <= a.len(),
        k <= b.len(),
        a.take(k) == b.take(k),
        k < a.len() || k < b.len(),
        k < a.len() && k < b.len() ==> a[k] != b[k],
    decreases a.len() - from,
{
    if from == a.len() || from == b.len() {
        if from == a.len() && from == b.len() {
            assert(a.take(from) =~= a);
            assert(b.take(from) =~= b);
        }
        from
    } else if a[from] != b[from] {
        from
    } else {
        assert(a.take(from + 1) =~= a.take(from).push(a[from]));
        assert(b.take(from + 1) =~= b.take(from).push(b[from]));
        lemma_first_difference(a, b, from + 1)
    }
}

/// Dictionary order is transitive.
pub proof fn precedes_is_transitive(a: Seq<char>, b: Seq<char>, c: Seq<char>)
    requires
        precedes(a, b),
        precedes(b, c),
    ensures
        precedes(a, c),
{
    let k = choose|k: int| #[trigger] parts_at(a, b, k) && (k == a.len() || a[k] < b[k]);
    let m = choose|m: int| #[trigger] parts_at(b, c, m) && (m == b.len() || b[m] < c[m]);
    let n = if k <= m {
        k
    } else {
        m
    };
    assert(a.take(n) =~= a.take(k).take(n));
    assert(b.take(n) =~= b.take(k).take(n));
    assert(b.take(n) =~= b.take(m).take(n));
    assert(c.take(n) =~= c.take(m).take(n));
    if k < m {
        assert(b.take(m)[k] == c.take(m)[k]);
    } else if m < k {
        assert(a.take(k)[m] == b.take(k)[m]);
    }
    assert(parts_at(a, c, n));
}

/// Where two texts start with parts of one length, the first parts decide, then the rest.
pub(crate) proof fn lemma_precedes_concat(x: Seq<char>, y: Seq<char>, u: Seq<char>, v: Seq<char>)
    requires
        x.len() == u.len(),
    ensures
        precedes(x + y, u + v) <==> precedes(x, u) || (x == u && precedes(y, v)),
{
    let a = x + y;
    let b = u + v;
    precedes_is_total(x, u);
    if precedes(x, u) {
        lemma_precedes_longer(x, y, u, v);
    } else if precedes(u, x) {
        lemma_precedes_longer(u, v, x, y);
        precedes_is_total(a, b);
    } else {
        assert(x == u);
        if precedes(y, v) {
            let k = choose|k: int|
                #[trigger] parts_at(y, v, k) && (k == y.len() || y[k] < v[k]);
            assert(a.take(x.len() + k) =~= x + y.take(k));
            assert(b.take(x.len() + k) =~= u + v.take(k));
            assert(parts_at(a, b, x.len() + k));
        }
        if precedes(a, b) {
            let k = choose|k: int|
                #[trigger] parts_at(a, b, k) && (k == a.len() || a[k] < b[k]);
            if k < x.len() {
                assert(a[k] == b[k]);
            }
            let m = k - x.len();
            assert(y.take(m) =~= a.take(k).skip(x.len() as int));
            assert(v.take(m) =~= b.take(k).skip(x.len() as int));
            assert(parts_at(y, v, m));
        }
    }
}

/// What decides between texts of one length decides between longer ones.
proof fn lemma_precedes_longer(x: Seq<char>, y: Seq<char>, u: Seq<char>, v: Seq<char>)
    requires
        x.len() == u.len(),
        precedes(x, u),
    ensures
        precedes(x + y, u + v),
{
    let k = choose|k: int|
        #[trigger] parts_at(x, u, k) && (k == x.len() || x[k] < u[k]);
    assert((x + y).take(k) =~= x.take(k));
    assert((u + v).take(k) =~= u.take(k));
    assert(parts_at(x + y, u + v, k));
}

// ---------------------------------------------------------------------------------------------
// Operations
// ---------------------------------------------------------------------------------------------

/// `String::push`: appends one character.
pub assume_specification[ String::push ](s: &mut String, c: char)
    ensures
        final(s)@ == old(s)@.push(c),
;

/// Whether `c` is white space.
pub fn is_whitespace(c: char) -> (r: bool)
    ensures
        r == is_white(c),
{
    let u: u32 = c as u32;
    (0x9 <= u && u <= 0xd) || u == 0x20 || u == 0x85 || u == 0xa0 || u == 0x1680 || (0x2000 <= u
        && u <= 0x200a) || u == 0x2028 || u == 0x2029 || u == 0x202f || u == 0x205f || u == 0x3000
}

/// The characters of a text, in order.
pub fn chars_of(s: &str) -> (r: Vec<char>)
    ensures
        r@ == s@,
{
    let mut r: Vec<char> = Vec::new();
    for c in it: s.chars()
        invariant
            it.seq() == s@,
            r@ == s@.take(it.index()),
    {
        proof {
            assert(s@.take(it.index() + 1) =~= s@.take(it.index()).push(c));
        }
        r.push(c);
    }
    proof {
        assert(s@.take(s@.len() as int) =~= s@);
    }
    r
}

/// The text that the characters from `from` up to `to` make.
pub fn string_of(chars: &Vec<char>, from: usize, to: usize) -> (r: String)
    requires
        from <= to <= chars@.len(),
    ensures
        r@ == chars@.subrange(from as int, to as int),
{
    let mut r = String::new();
    let mut i: usize = from;
    while i < to
        invariant
            from <= i <= to <= chars@.len(),
            r@ == chars@.subrange(from as int, i as int),
        decreases to - i,
    {
        proof {
            assert(chars@.subrange(from as int, i + 1) =~= chars@.subrange(
                from as int,
                i as int,
            ).push(chars@[i as int]));
        }
        r.push(chars[i]);
        i = i + 1;
    }
    r
}

/// A text of its own with the same characters.
pub fn own(s: &str) -> (r: String)
    ensures
        r@ == s@,
{
    s.to_owned()
}

/// A text of its own with the same characters, where there is one.
pub fn own_maybe(s: Option<&str>) -> (r: Option<String>)
    ensures
        r is Some == s is Some,
        s matches Some(t) ==> maybe(r) == Some(t@),
{
    match s {
        Some(t) => Some(own(t)),
        None => None,
    }
}

/// Whether two texts hold the same characters.
pub fn text_eq(a: &str, b: &str) -> (r: bool)
    ensures
        r == (a@ == b@),
{
    let x = a.as_bytes();
    let y = b.as_bytes();
    if x.len() != y.len() {
        return false;
    }
    let mut i: usize = 0;
    while i < x.len()
        invariant
            x@ == encode_utf8(a@),
            y@ == encode_utf8(b@),
            x@.len() == y@.len(),
            i <= x@.len(),
            forall|k: int| 0 <= k < i ==> x@[k] == y@[k],
        decreases x@.len() - i,
    {
        if x[i] != y[i] {
            return false;
        }
        i = i + 1;
    }
    proof {
        assert(x@ =~= y@);
        encode_utf8_decode_utf8(a@);
        encode_utf8_decode_utf8(b@);
    }
    true
}

/// Whether there is a text and it is `b`.
pub fn is_text(a: &Option<String>, b: &str) -> (r: bool)
    ensures
        r == (maybe(*a) == Some(b@)),
{
    match a {
        Some(s) => text_eq(s.as_str(), b),
        None => false,
    }
}

/// The number of lines of a text: one more than it has line breaks.
pub fn count_lines(s: &str) -> (r: i64)
    ensures
        r == line_count(s@),
{
    let mut n: i64 = 1;
    for c in it: s.chars()
        invariant
            it.seq() == s@,
            n == clamp64(occurrences(s@.take(it.index()), '\n') + 1int),
    {
        proof {
            assert(s@.take(it.index() + 1).drop_last() =~= s@.take(it.index()));
        }
        if c == '\n' && n < i64::MAX {
            n = n + 1;
        }
    }
    proof {
        assert(s@.take(s@.len() as int) =~= s@);
    }
    n
}

/// The characters of a text's words with a single space between each two words.
fn normal_chars(s: &str) -> (r: Vec<char>)
    ensures
        r@ == normal(s@),
{
    let mut out: Vec<char> = Vec::new();
    let mut inside = false;
    for c in it: s.chars()
        invariant
            it.seq() == s@,
            out@ == normal(s@.take(it.index())),
            inside == (it.index() > 0 && !is_white(s@[it.index() - 1])),
    {
        let ghost done = s@.take(it.index());
        let ghost next = s@.take(it.index() + 1);
        proof {
            assert(next.drop_last() =~= done);
            assert(next.last() == c);
            lemma_words_solid(done);
            lemma_join_empty(words(done), seq![' ']);
            if done.len() > 0 {
                assert(next[next.len() - 2] == done.last());
            }
        }
        if is_whitespace(c) {
            inside = false;
        } else {
            if inside {
                proof {
                    let ws = words(done);
                    assert(ws.len() > 0);
                    let grown = ws.drop_last().push(ws.last().push(c));
                    assert(words(next) == grown);
                    assert(grown.drop_last() =~= ws.drop_last());
                    assert(join(grown, seq![' ']) =~= join(ws, seq![' ']).push(c));
                }
            } else {
                proof {
                    let ws = words(done);
                    let grown = ws.push(seq![c]);
                    assert(words(next) == grown);
                    assert(grown.drop_last() =~= ws);
                    if ws.len() > 0 {
                        assert(join(grown, seq![' ']) =~= join(ws, seq![' ']).push(' ').push(c));
                    } else {
                        assert(join(grown, seq![' ']) =~= join(ws, seq![' ']).push(c));
                    }
                }
                if out.len() > 0 {
                    out.push(' ');
                }
                inside = true;
            }
            out.push(c);
        }
    }
    proof {
        assert(s@.take(s@.len() as int) =~= s@);
    }
    out
}

/// The words of a text with a single space between each two: the form in which texts are
/// compared.
pub fn norm(s: &str) -> (r: String)
    ensures
        r@ == normal(s@),
{
    let out = normal_chars(s);
    proof {
        assert(out@.subrange(0, out@.len() as int) =~= out@);
    }
    string_of(&out, 0, out.len())
}

/// One line that stands for a text: its words with single spaces, at most `max` characters.
pub fn preview_of(s: &str, max: usize) -> (r: String)
    ensures
        r@ == preview(s@, max as int),
{
    let out = normal_chars(s);
    let n: usize = if out.len() <= max {
        out.len()
    } else {
        max
    };
    proof {
        assert(out@.subrange(0, n as int) =~= head(out@, max as int));
    }
    string_of(&out, 0, n)
}

/// The first `n` characters, or all of them where there are no more.
pub fn head_of(s: &str, n: usize) -> (r: String)
    ensures
        r@ == head(s@, n as int),
{
    let chars = chars_of(s);
    let m: usize = if chars.len() <= n {
        chars.len()
    } else {
        n
    };
    proof {
        assert(chars@.subrange(0, m as int) =~= head(chars@, n as int));
    }
    string_of(&chars, 0, m)
}

/// How many leading characters from `from` on are white space.
fn skip_white(chars: &Vec<char>) -> (from: usize)
    ensures
        from <= chars@.len(),
        chars@.skip(from as int) == trim_start(chars@),
{
    let mut i: usize = 0;
    proof {
        assert(chars@.skip(0) =~= chars@);
    }
    while i < chars.len() && is_whitespace(chars[i])
        invariant
            i <= chars@.len(),
            trim_start(chars@.skip(i as int)) == trim_start(chars@),
        decreases chars@.len() - i,
    {
        proof {
            assert(chars@.skip(i as int).drop_first() =~= chars@.skip(i + 1));
        }
        i = i + 1;
    }
    i
}

/// The text without its leading white space.
pub fn without_leading_space(s: &str) -> (r: String)
    ensures
        r@ == trim_start(s@),
{
    let chars = chars_of(s);
    let from = skip_white(&chars);
    string_of(&chars, from, chars.len())
}

/// The text without leading and trailing white space.
pub fn trimmed(s: &str) -> (r: String)
    ensures
        r@ == trim(s@),
{
    let chars = chars_of(s);
    let from = skip_white(&chars);
    let mut to: usize = chars.len();
    while to > from && is_whitespace(chars[to - 1])
        invariant
            from <= to <= chars@.len(),
            trim_end(chars@.subrange(from as int, to as int)) == trim(s@),
        decreases to,
    {
        proof {
            assert(chars@.subrange(from as int, to as int).drop_last() =~= chars@.subrange(
                from as int,
                to - 1,
            ));
        }
        to = to - 1;
    }
    string_of(&chars, from, to)
}

/// Whether a text is nothing but white space.
pub fn is_blank(s: &str) -> (r: bool)
    ensures
        r == blank(s@),
{
    let chars = chars_of(s);
    let mut i: usize = 0;
    while i < chars.len()
        invariant
            chars@ == s@,
            i <= chars@.len(),
            forall|k: int| 0 <= k < i ==> is_white(#[trigger] s@[k]),
        decreases chars@.len() - i,
    {
        if !is_whitespace(chars[i]) {
            proof {
                assert(!is_white(s@[i as int]));
            }
            return false;
        }
        i = i + 1;
    }
    true
}

/// Whether `needle` stands in `hay` at place `at`.
fn matches_at(hay: &Vec<char>, needle: &Vec<char>, at: usize) -> (r: bool)
    ensures
        r == stands_at(hay@, needle@, at as int),
{
    let total: usize = hay.len();
    if total < needle.len() || total - needle.len() < at {
        return false;
    }
    let mut i: usize = 0;
    while i < needle.len()
        invariant
            total == hay@.len(),
            at + needle@.len() <= hay@.len(),
            i <= needle@.len(),
            forall|k: int| 0 <= k < i ==> hay@[at + k] == needle@[k],
        decreases needle@.len() - i,
    {
        if hay[at + i] != needle[i] {
            proof {
                assert(hay@.subrange(at as int, at + needle@.len())[i as int] == hay@[at + i]);
            }
            return false;
        }
        i = i + 1;
    }
    proof {
        assert(hay@.subrange(at as int, at + needle@.len()) =~= needle@);
    }
    true
}

/// Whether `needle` stands somewhere in `hay`.
pub fn has_text(hay: &str, needle: &str) -> (r: bool)
    ensures
        r == contains(hay@, needle@),
{
    let h = chars_of(hay);
    let n = chars_of(needle);
    if h.len() < n.len() {
        return false;
    }
    let last: usize = h.len() - n.len();
    let mut i: usize = 0;
    loop
        invariant
            h@ == hay@,
            n@ == needle@,
            last == h@.len() - n@.len(),
            i <= last,
            forall|k: int| 0 <= k < i ==> !stands_at(hay@, needle@, k),
        decreases last - i,
    {
        if matches_at(&h, &n, i) {
            return true;
        }
        if i == last {
            return false;
        }
        i = i + 1;
    }
}

/// Whether `hay` starts with `needle`.
pub fn begins_with(hay: &str, needle: &str) -> (r: bool)
    ensures
        r == starts_with(hay@, needle@),
{
    let h = chars_of(hay);
    let n = chars_of(needle);
    matches_at(&h, &n, 0)
}

/// The parts one after another, with `sep` between each two.
pub fn joined(parts: &Vec<String>, sep: &str) -> (r: String)
    ensures
        r@ == join(texts(parts@), sep@),
{
    let mut out = String::new();
    let mut i: usize = 0;
    while i < parts.len()
        invariant
            i <= parts@.len(),
            out@ == join(texts(parts@).take(i as int), sep@),
        decreases parts@.len() - i,
    {
        proof {
            let all = texts(parts@);
            assert(all.take(i + 1).drop_last() =~= all.take(i as int));
            assert(all.take(i + 1).last() == parts@[i as int]@);
            if i == 0 {
                assert(all.take(1)[0] == parts@[0]@);
                assert(out@ + parts@[0]@ =~= parts@[0]@);
            }
        }
        if i > 0 {
            out.append(sep);
        }
        out.append(parts[i].as_str());
        i = i + 1;
    }
    proof {
        assert(texts(parts@).take(parts@.len() as int) =~= texts(parts@));
    }
    out
}

/// The text with each `from` replaced by `to`.
pub fn replace_char(s: &str, from: char, to: char) -> (r: String)
    ensures
        r@ == replaced(s@, from, to),
{
    let mut out = String::new();
    for c in it: s.chars()
        invariant
            it.seq() == s@,
            out@ == replaced(s@.take(it.index()), from, to),
    {
        let d = if c == from {
            to
        } else {
            c
        };
        proof {
            assert(replaced(s@.take(it.index() + 1), from, to) =~= replaced(
                s@.take(it.index()),
                from,
                to,
            ).push(d));
        }
        out.push(d);
    }
    proof {
        assert(s@.take(s@.len() as int) =~= s@);
    }
    out
}

/// The pieces of a text between occurrences of `sep`.
pub fn split_at_char(s: &str, sep: char) -> (r: Vec<String>)
    ensures
        texts(r@) == pieces(s@, sep),
{
    let mut out: Vec<String> = Vec::new();
    let mut piece = String::new();
    for c in it: s.chars()
        invariant
            it.seq() == s@,
            texts(out@).push(piece@) == pieces(s@.take(it.index()), sep),
    {
        proof {
            assert(s@.take(it.index() + 1).drop_last() =~= s@.take(it.index()));
            assert(s@.take(it.index() + 1).last() == c);
        }
        if c == sep {
            let ghost before = texts(out@);
            let ghost done = piece@;
            out.push(piece);
            piece = String::new();
            proof {
                assert(texts(out@) =~= before.push(done));
            }
        } else {
            let ghost before = texts(out@);
            proof {
                assert(before.push(piece@).drop_last() =~= before);
            }
            piece.push(c);
        }
    }
    let ghost before = texts(out@);
    let ghost done = piece@;
    out.push(piece);
    proof {
        assert(texts(out@) =~= before.push(done));
        assert(s@.take(s@.len() as int) =~= s@);
    }
    out
}

/// Whether `a` precedes `b` in dictionary order.
pub fn comes_before(a: &str, b: &str) -> (r: bool)
    ensures
        r == precedes(a@, b@),
{
    let x = chars_of(a);
    let y = chars_of(b);
    let mut i: usize = 0;
    while i < x.len() && i < y.len() && x[i] == y[i]
        invariant
            x@ == a@,
            y@ == b@,
            i <= x@.len(),
            i <= y@.len(),
            a@.take(i as int) == b@.take(i as int),
        decreases x@.len() - i,
    {
        proof {
            assert(a@.take(i + 1) =~= a@.take(i as int).push(a@[i as int]));
            assert(b@.take(i + 1) =~= b@.take(i as int).push(b@[i as int]));
        }
        i = i + 1;
    }
    let r = i < y.len() && (i == x.len() || x[i] < y[i]);
    proof {
        if i < y@.len() {
            assert(parts_at(a@, b@, i as int));
        }
        if precedes(a@, b@) {
            let k = choose|k: int| #[trigger] parts_at(a@, b@, k) && (k == a@.len() || a@[k] < b@[k]);
            if k < i {
                assert(a@.take(i as int)[k] == b@.take(i as int)[k]);
            } else if i < k {
                assert(a@.take(k)[i as int] == b@.take(k)[i as int]);
            }
        }
    }
    r
}

} // verus!
