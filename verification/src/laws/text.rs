//! Laws of texts.

use vstd::prelude::*;
use vstd::utf8::encode_utf8;

use crate::text::{
    blank, byte_count, contains, head, is_white, join, lemma_join_empty, lemma_words_solid,
    line_count, maybe, normal, occurrences, parts_at, pieces, precedes, precedes_is_total, preview,
    replaced, stands_at, starts_with, texts, trim, trim_end, trim_start, words,
};

verus! {

// ---------------------------------------------------------------------------------------------
// Joining
// ---------------------------------------------------------------------------------------------

/// Joining puts the separator between the parts and nowhere else: nothing joins to nothing, one part
/// to itself, and two lists to what each joins to, with the separator between.
pub proof fn joining_separates(a: Seq<Seq<char>>, b: Seq<Seq<char>>, x: Seq<char>, sep: Seq<char>)
    ensures
        join(Seq::empty(), sep) == Seq::<char>::empty(),
        join(seq![x], sep) == x,
        a.len() > 0 && b.len() > 0 ==> join(a + b, sep) == join(a, sep) + sep + join(b, sep),
    decreases b.len(),
{
    if a.len() > 0 && b.len() > 0 {
        assert((a + b).drop_last() =~= a + b.drop_last());
        assert((a + b).last() == b.last());
        if b.len() == 1 {
            assert(a + b.drop_last() =~= a);
            assert(b[0] == b.last());
        } else {
            joining_separates(a, b.drop_last(), x, sep);
            assert(join(a, sep) + sep + join(b.drop_last(), sep) + sep + b.last() =~= join(a, sep)
                + sep + (join(b.drop_last(), sep) + sep + b.last()));
        }
    }
}

// ---------------------------------------------------------------------------------------------
// Words
// ---------------------------------------------------------------------------------------------

/// White space ends a word.
proof fn lemma_words_split(a: Seq<char>, w: char, b: Seq<char>)
    requires
        is_white(w),
    ensures
        words(a.push(w) + b) == words(a) + words(b),
    decreases b.len(),
{
    let s = a.push(w) + b;
    if b.len() == 0 {
        assert(s =~= a.push(w));
        assert(s.drop_last() =~= a);
        assert(words(a) + words(b) =~= words(a));
    } else {
        let f = b.drop_last();
        lemma_words_split(a, w, f);
        assert(s.drop_last() =~= a.push(w) + f);
        assert(s.last() == b.last());
        lemma_words_solid(f);
        if is_white(b.last()) {
        } else if b.len() == 1 {
            assert(s[s.len() - 2] == w);
            assert(f =~= Seq::empty());
            assert(words(a) + words(f) =~= words(a));
            assert(words(b) =~= seq![seq![b.last()]]);
            assert(words(s) =~= words(a) + words(b));
        } else {
            assert(s[s.len() - 2] == b[b.len() - 2]);
            assert(f.last() == b[b.len() - 2]);
            if !is_white(f.last()) {
                assert(words(f).len() > 0);
                assert((words(a) + words(f)).drop_last() =~= words(a) + words(f).drop_last());
            }
            assert(words(s) =~= words(a) + words(b));
        }
    }
}

/// A text without white space is one word.
proof fn lemma_one_word(s: Seq<char>)
    requires
        s.len() > 0,
        forall|i: int| 0 <= i < s.len() ==> !is_white(#[trigger] s[i]),
    ensures
        words(s) == seq![s],
    decreases s.len(),
{
    assert(!is_white(s[s.len() - 1]));
    if s.len() == 1 {
        assert(words(s.drop_last()) =~= Seq::empty());
        assert(seq![s.last()] =~= s);
        assert(words(s) =~= seq![s]);
    } else {
        let f = s.drop_last();
        assert forall|i: int| 0 <= i < f.len() implies !is_white(#[trigger] f[i]) by {
            assert(f[i] == s[i]);
        }
        assert(!is_white(s[s.len() - 2]));
        lemma_one_word(f);
        assert(f.push(s.last()) =~= s);
        assert(words(s) =~= seq![s]);
    }
}

/// Normalizing keeps words and puts one space for white space between them: a text without white
/// space stays as it is, and where white space parts a text, its two sides are normalized each for
/// itself, with one space between them unless one of them is nothing.
pub proof fn normalizing_keeps_words(a: Seq<char>, w: char, b: Seq<char>, word: Seq<char>)
    requires
        is_white(w),
        forall|i: int| 0 <= i < word.len() ==> !is_white(#[trigger] word[i]),
    ensures
        normal(word) == word,
        normal(a.push(w) + b) == if normal(a).len() == 0 {
            normal(b)
        } else if normal(b).len() == 0 {
            normal(a)
        } else {
            normal(a) + seq![' '] + normal(b)
        },
{
    if word.len() > 0 {
        lemma_one_word(word);
    } else {
        assert(words(word) =~= Seq::empty());
        assert(normal(word) =~= word);
    }
    lemma_words_split(a, w, b);
    lemma_words_solid(a);
    lemma_words_solid(b);
    lemma_join_empty(words(a), seq![' ']);
    lemma_join_empty(words(b), seq![' ']);
    joining_separates(words(a), words(b), a, seq![' ']);
    if words(a).len() == 0 {
        assert(words(a) + words(b) =~= words(b));
    }
    if words(b).len() == 0 {
        assert(words(a) + words(b) =~= words(a));
    }
}

/// A preview is the beginning of the text on one line: all of it where it is short enough, else as
/// many characters as are asked for.
pub proof fn previews_are_beginnings(s: Seq<char>, max: int)
    requires
        0 <= max,
    ensures
        preview(s, max).is_prefix_of(normal(s)),
        normal(s).len() <= max ==> preview(s, max) == normal(s),
        normal(s).len() > max ==> preview(s, max).len() == max,
{
    assert(preview(s, max) =~= normal(s).subrange(0, preview(s, max).len() as int));
}

/// The head of a text is its beginning.
pub proof fn heads_are_beginnings(s: Seq<char>, n: int)
    requires
        0 <= n,
    ensures
        head(s, n).is_prefix_of(s),
        s.len() <= n ==> head(s, n) == s,
        s.len() > n ==> head(s, n).len() == n,
{
    assert(head(s, n) =~= s.subrange(0, head(s, n).len() as int));
}

// ---------------------------------------------------------------------------------------------
// Trimming
// ---------------------------------------------------------------------------------------------

/// What is trimmed off the start.
proof fn lemma_start(s: Seq<char>) -> (lead: Seq<char>)
    ensures
        s == lead + trim_start(s),
        blank(lead),
        trim_start(s).len() > 0 ==> !is_white(trim_start(s)[0]),
    decreases s.len(),
{
    if s.len() > 0 && is_white(s[0]) {
        let rest = lemma_start(s.drop_first());
        let lead = seq![s[0]] + rest;
        assert(trim_start(s) == trim_start(s.drop_first()));
        assert(s =~= seq![s[0]] + s.drop_first());
        assert(s =~= lead + trim_start(s));
        assert forall|i: int| 0 <= i < lead.len() implies is_white(#[trigger] lead[i]) by {
            if i > 0 {
                assert(lead[i] == rest[i - 1]);
            }
        }
        lead
    } else {
        assert(s =~= Seq::<char>::empty() + s);
        Seq::empty()
    }
}

/// What is trimmed off the end.
proof fn lemma_end(s: Seq<char>) -> (tail: Seq<char>)
    ensures
        s == trim_end(s) + tail,
        blank(tail),
        trim_end(s).len() > 0 ==> !is_white(trim_end(s).last()),
    decreases s.len(),
{
    if s.len() > 0 && is_white(s.last()) {
        let rest = lemma_end(s.drop_last());
        let tail = rest.push(s.last());
        assert(trim_end(s) == trim_end(s.drop_last()));
        assert(s =~= s.drop_last().push(s.last()));
        assert(s =~= trim_end(s) + tail);
        tail
    } else {
        assert(s =~= s + Seq::<char>::empty());
        Seq::empty()
    }
}

/// Trimming takes white space off both ends, all of it and nothing else.
pub proof fn trimming_takes_white_space(s: Seq<char>)
    ensures
        exists|lead: Seq<char>, tail: Seq<char>|
            s == #[trigger] (lead + trim(s) + tail) && blank(lead) && blank(tail),
        trim(s).len() > 0 ==> !is_white(trim(s)[0]) && !is_white(trim(s).last()),
        exists|lead: Seq<char>| s == #[trigger] (lead + trim_start(s)) && blank(lead),
        trim_start(s).len() > 0 ==> !is_white(trim_start(s)[0]),
{
    let lead = lemma_start(s);
    let t = trim_start(s);
    let tail = lemma_end(t);
    assert(s == lead + trim_start(s));
    assert(s =~= lead + trim(s) + tail);
    if trim(s).len() > 0 {
        assert(t[0] == trim(s)[0]);
    }
}

// ---------------------------------------------------------------------------------------------
// Searching
// ---------------------------------------------------------------------------------------------

/// A text holds another exactly where it is something, the other, and something; it starts with it
/// exactly where it is the other and something.
pub proof fn holding_is_having_as_a_part(hay: Seq<char>, needle: Seq<char>)
    ensures
        contains(hay, needle) <==> exists|a: Seq<char>, b: Seq<char>|
            hay == #[trigger] (a + needle + b),
        starts_with(hay, needle) <==> exists|b: Seq<char>| hay == #[trigger] (needle + b),
{
    if contains(hay, needle) {
        let i = choose|i: int| stands_at(hay, needle, i);
        let a = hay.take(i);
        let b = hay.skip(i + needle.len());
        assert(hay =~= a + needle + b);
    }
    if exists|a: Seq<char>, b: Seq<char>| hay == #[trigger] (a + needle + b) {
        let (a, b) = choose|a: Seq<char>, b: Seq<char>| hay == #[trigger] (a + needle + b);
        assert(hay.subrange(a.len() as int, (a.len() + needle.len()) as int) =~= needle);
        assert(stands_at(hay, needle, a.len() as int));
    }
    if starts_with(hay, needle) {
        let b = hay.skip(needle.len() as int);
        assert(hay =~= needle + b);
    }
    if exists|b: Seq<char>| hay == #[trigger] (needle + b) {
        let b = choose|b: Seq<char>| hay == #[trigger] (needle + b);
        assert(hay.subrange(0, needle.len() as int) =~= needle);
    }
}

// ---------------------------------------------------------------------------------------------
// Counting and replacing
// ---------------------------------------------------------------------------------------------

/// A text has one line, and one more for each line break, whatever else is in it.
pub proof fn lines_are_counted(s: Seq<char>, c: char)
    requires
        s.len() < i64::MAX - 1,
    ensures
        line_count(Seq::empty()) == 1,
        line_count(s.push(c)) == line_count(s) + if c == '\n' {
            1int
        } else {
            0int
        },
{
    lemma_occurrences(s);
    lemma_occurrences(Seq::empty());
    assert(s.push(c).drop_last() =~= s);
}

/// There are no more line breaks than characters.
proof fn lemma_occurrences(s: Seq<char>)
    ensures
        occurrences(s, '\n') <= s.len(),
    decreases s.len(),
{
    if s.len() > 0 {
        lemma_occurrences(s.drop_last());
    }
}

/// The size of a text is the number of its bytes in UTF-8.
pub proof fn bytes_are_counted(s: Seq<char>)
    requires
        encode_utf8(s).len() <= usize::MAX,
        encode_utf8(s).len() <= i64::MAX,
    ensures
        byte_count(s) == encode_utf8(s).len(),
{
}

/// Replacing changes the one character wherever it stands, and nothing else.
pub proof fn replacing_is_place_by_place(s: Seq<char>, from: char, to: char, i: int)
    requires
        0 <= i < s.len(),
    ensures
        replaced(s, from, to).len() == s.len(),
        s[i] == from ==> replaced(s, from, to)[i] == to,
        s[i] != from ==> replaced(s, from, to)[i] == s[i],
{
}

/// Taking a text apart at a character and putting it together again gives the text, and no piece
/// holds the character.
pub proof fn pieces_make_the_whole(s: Seq<char>, sep: char)
    ensures
        pieces(s, sep).len() > 0,
        join(pieces(s, sep), seq![sep]) == s,
        forall|k: int|
            0 <= k < pieces(s, sep).len() ==> !(#[trigger] pieces(s, sep)[k]).contains(sep),
    decreases s.len(),
{
    if s.len() == 0 {
        assert(pieces(s, sep) =~= seq![Seq::<char>::empty()]);
        assert(join(pieces(s, sep), seq![sep]) =~= s);
    } else {
        let f = s.drop_last();
        let before = pieces(f, sep);
        pieces_make_the_whole(f, sep);
        let now = pieces(s, sep);
        if s.last() == sep {
            assert(now.drop_last() =~= before);
            assert(join(now, seq![sep]) =~= f + seq![sep]);
            assert(s =~= f + seq![sep]);
            assert forall|k: int| 0 <= k < now.len() implies !(#[trigger] now[k]).contains(sep) by {
                if k < before.len() {
                    assert(now[k] == before[k]);
                }
            }
        } else {
            let x = before.last().push(s.last());
            assert(now.drop_last() =~= before.drop_last());
            assert(now.last() == x);
            if before.len() == 1 {
                assert(join(now, seq![sep]) =~= s);
            } else {
                assert(join(before, seq![sep]) == join(before.drop_last(), seq![sep]) + seq![sep]
                    + before.last());
                assert(join(now, seq![sep]) =~= f.push(s.last()));
                assert(f.push(s.last()) =~= s);
            }
            assert forall|k: int| 0 <= k < now.len() implies !(#[trigger] now[k]).contains(sep) by {
                if k < before.len() - 1 {
                    assert(now[k] == before[k]);
                } else {
                    assert(!before[before.len() - 1].contains(sep));
                    if x.contains(sep) {
                        let i = choose|i: int| 0 <= i < x.len() && x[i] == sep;
                        assert(before.last()[i] == sep);
                    }
                }
            }
        }
    }
}

// ---------------------------------------------------------------------------------------------
// Order and white space
// ---------------------------------------------------------------------------------------------

/// Dictionary order goes by the first place at which two texts differ, and a text comes before any
/// that goes on where it ends.
pub proof fn the_first_difference_decides(
    same: Seq<char>,
    c: char,
    d: char,
    x: Seq<char>,
    y: Seq<char>,
)
    ensures
        c < d ==> precedes(same.push(c) + x, same.push(d) + y) && !precedes(
            same.push(d) + y,
            same.push(c) + x,
        ),
        precedes(same, same.push(c) + x),
        !precedes(same.push(c) + x, same),
        !precedes(same, same),
{
    let a = same.push(c) + x;
    let b = same.push(d) + y;
    let k = same.len() as int;
    assert(a.take(k) =~= same);
    assert(b.take(k) =~= same);
    assert(same.take(k) =~= same);
    assert(a[k] == c && b[k] == d);
    assert(parts_at(a, b, k));
    assert(parts_at(same, a, k));
    precedes_is_total(a, b);
    precedes_is_total(same, a);
}

/// White space is the blank, the controls from tab to carriage return, and what Unicode adds to them;
/// no other ASCII character is.
pub proof fn white_space_is_what_unicode_says(c: char)
    ensures
        c == ' ' || c == '\t' || c == '\n' || c == '\r' || c == '\u{b}' || c == '\u{c}' ==> is_white(
            c,
        ),
        c == '\u{85}' || c == '\u{a0}' || c == '\u{1680}' || c == '\u{2028}' || c == '\u{2029}' || c
            == '\u{202f}' || c == '\u{205f}' || c == '\u{3000}' ==> is_white(c),
        '\u{2000}' <= c <= '\u{200a}' ==> is_white(c),
        c < '\u{80}' && is_white(c) ==> c == ' ' || '\t' <= c <= '\r',
        '!' <= c <= '~' ==> !is_white(c),
        is_white(c) && c >= '\u{80}' ==> c == '\u{85}' || c == '\u{a0}' || c == '\u{1680}' || (
        '\u{2000}' <= c <= '\u{200a}') || c == '\u{2028}' || c == '\u{2029}' || c == '\u{202f}' || c
            == '\u{205f}' || c == '\u{3000}',
{
}

/// A text that may be missing is missing, or says what it holds.
pub proof fn a_text_says_what_it_holds(text: Option<String>, list: Seq<String>, i: int)
    ensures
        text is None <==> maybe(text) is None,
        text is Some ==> maybe(text) == Some((text->0)@),
        texts(list).len() == list.len(),
        0 <= i < list.len() ==> texts(list)[i] == list[i]@,
{
}

} // verus!
