//! Laws of files: lines, names, and what is read where.

use vstd::prelude::*;
use vstd::utf8::{decode_utf8, valid_utf8};

use crate::archive::{
    byte_pieces, chopped, decoded, gunzipped, is_read_as, lines_in,
    lines_of_a_beginning_come_first, raw_lines,
};
use crate::place::{archived_name, folder_name, transcript_name};

verus! {

// ---------------------------------------------------------------------------------------------
// Lines
// ---------------------------------------------------------------------------------------------

/// The pieces of a line feed and what follows it.
proof fn lemma_first_piece(line: Seq<u8>, rest: Seq<u8>)
    requires
        !line.contains(10),
    ensures
        byte_pieces(line) == seq![line],
        byte_pieces(line.push(10) + rest) == seq![line] + byte_pieces(rest),
        byte_pieces(rest).len() > 0,
    decreases rest.len(), line.len(),
{
    if rest.len() == 0 {
        if line.len() > 0 {
            let front = line.drop_last();
            if front.contains(10) {
                let i = choose|i: int| 0 <= i < front.len() && front[i] == 10;
                assert(line[i] == 10);
            }
            lemma_first_piece(front, rest);
            assert(line[line.len() - 1] != 10);
            assert(front.push(line.last()) =~= line);
            assert(byte_pieces(front) == seq![front]);
            assert(seq![front].drop_last().push(line) =~= seq![line]);
            assert(byte_pieces(line) == seq![line]);
        } else {
            assert(line =~= Seq::<u8>::empty());
            assert(byte_pieces(line) =~= seq![line]);
        }
        let ended = line.push(10);
        assert(ended + rest =~= ended);
        assert(ended.drop_last() =~= line);
        assert(byte_pieces(ended) =~= seq![line].push(Seq::empty()));
        assert(byte_pieces(ended) =~= seq![line] + byte_pieces(rest));
    } else {
        let front = rest.drop_last();
        let all = line.push(10) + rest;
        lemma_first_piece(line, front);
        assert(all.drop_last() =~= line.push(10) + front);
        assert(all.last() == rest.last());
        assert(byte_pieces(all) =~= seq![line] + byte_pieces(rest));
    }
}

/// The texts of lines side by side.
proof fn lemma_decoded_add(a: Seq<Seq<u8>>, b: Seq<Seq<u8>>)
    ensures
        decoded(a + b) == decoded(a) + decoded(b),
    decreases b.len(),
{
    if b.len() == 0 {
        assert(a + b =~= a);
        assert(decoded(a) + decoded(b) =~= decoded(a));
    } else {
        assert((a + b).drop_last() =~= a + b.drop_last());
        lemma_decoded_add(a, b.drop_last());
        assert(decoded(a + b) =~= decoded(a) + decoded(b));
    }
}

/// The text of one line: none where it is no UTF-8.
pub open spec fn line_text(line: Seq<u8>) -> Seq<Seq<char>> {
    if valid_utf8(line) {
        seq![decode_utf8(line)]
    } else {
        Seq::empty()
    }
}

/// The text of one line.
proof fn lemma_decoded_one(line: Seq<u8>)
    ensures
        decoded(seq![line]) == line_text(line),
{
    assert(seq![line].drop_last() =~= Seq::<Seq<u8>>::empty());
    assert(decoded(seq![line].drop_last()) =~= Seq::<Seq<char>>::empty());
    assert(decoded(seq![line]) =~= line_text(line));
}

/// Each line ends with a line feed, and its text is what stands before it; a carriage return before the
/// line feed is no part of the text. Then come the lines of the rest.
pub proof fn lines_end_with_line_feeds(line: Seq<u8>, rest: Seq<u8>, whole: bool)
    requires
        !line.contains(10),
    ensures
        line.len() == 0 || line.last() != 13 ==> lines_in(line.push(10) + rest, whole) == line_text(
            line,
        ) + lines_in(rest, whole),
        lines_in(line.push(13).push(10) + rest, whole) == line_text(line) + lines_in(rest, whole),
{
    if line.len() == 0 || line.last() != 13 {
        lemma_one_line(line, line, rest, whole);
    }
    let longer = line.push(13);
    if longer.contains(10) {
        let i = choose|i: int| 0 <= i < longer.len() && longer[i] == 10;
        assert(line[i] == 10);
    }
    assert(longer.drop_last() =~= line);
    lemma_one_line(longer, line, rest, whole);
}

/// The lines of a file that starts with the given line.
proof fn lemma_one_line(line: Seq<u8>, text: Seq<u8>, rest: Seq<u8>, whole: bool)
    requires
        !line.contains(10),
        text == chopped(line),
    ensures
        lines_in(line.push(10) + rest, whole) == line_text(text) + lines_in(rest, whole),
{
    let all = line.push(10) + rest;
    lemma_first_piece(line, rest);
    let p = byte_pieces(all);
    let q = byte_pieces(rest);
    assert(p.drop_last() =~= seq![line] + q.drop_last());
    assert(p.last() == q.last());
    let chop = |x: Seq<u8>| chopped(x);
    assert(p.drop_last().map_values(chop) =~= seq![text] + q.drop_last().map_values(chop));
    assert(raw_lines(all, whole) =~= seq![text] + raw_lines(rest, whole));
    lemma_decoded_add(seq![text], raw_lines(rest, whole));
    lemma_decoded_one(text);
}

/// What follows the last line feed is a line where the file was read to its end and there is anything,
/// and else none. An empty file has no line.
pub proof fn the_last_line_needs_the_end(line: Seq<u8>)
    requires
        !line.contains(10),
    ensures
        lines_in(line, false) == Seq::<Seq<char>>::empty(),
        line.len() == 0 ==> lines_in(line, true) == Seq::<Seq<char>>::empty(),
        line.len() > 0 ==> lines_in(line, true) == line_text(line),
{
    lemma_first_piece(line, Seq::empty());
    let p = byte_pieces(line);
    assert(p.drop_last() =~= Seq::<Seq<u8>>::empty());
    assert(raw_lines(line, false) =~= Seq::<Seq<u8>>::empty());
    if line.len() > 0 {
        assert(raw_lines(line, true) =~= seq![line]);
        lemma_decoded_one(line);
    } else {
        assert(raw_lines(line, true) =~= Seq::<Seq<u8>>::empty());
    }
}

// ---------------------------------------------------------------------------------------------
// The file and the archive
// ---------------------------------------------------------------------------------------------

/// A transcript is read from its file where that is there, whatever the archive holds; from the archived
/// copy where the file is gone, and of a damaged copy only lines that the sound one begins with; and not
/// at all where both are gone.
pub proof fn the_file_comes_before_the_archive(
    original: Option<Seq<u8>>,
    archived: Option<Seq<u8>>,
    lines: Option<Seq<Seq<char>>>,
)
    requires
        is_read_as(original, archived, lines),
    ensures
        original is Some ==> lines == Some(lines_in(original->0, true)),
        original is None && archived is Some && gunzipped(archived->0).1 ==> lines == Some(
            lines_in(gunzipped(archived->0).0, true),
        ),
        original is None && archived is Some ==> lines is Some && (lines->0).is_prefix_of(
            lines_in(gunzipped(archived->0).0, true),
        ),
        lines is None <==> original is None && archived is None,
{
    if original is None && archived is Some {
        let bytes = gunzipped(archived->0).0;
        if gunzipped(archived->0).1 {
            let all = lines_in(bytes, true);
            assert(all =~= all.subrange(0, all.len() as int));
        } else {
            let part = choose|part: Seq<u8>|
                part.is_prefix_of(bytes) && lines->0 == #[trigger] lines_in(part, false);
            lines_of_a_beginning_come_first(part, bytes, true);
        }
    }
}

// ---------------------------------------------------------------------------------------------
// Names
// ---------------------------------------------------------------------------------------------

/// The folder of a working directory is its path with a dash for each slash, and nothing else changed; a
/// transcript is named by its session, and an archived copy by its transcript.
pub proof fn places_are_named_after_what_they_hold(cwd: Seq<char>, name: Seq<char>, i: int)
    ensures
        folder_name(cwd).len() == cwd.len(),
        0 <= i < cwd.len() && cwd[i] == '/' ==> folder_name(cwd)[i] == '-',
        0 <= i < cwd.len() && cwd[i] != '/' ==> folder_name(cwd)[i] == cwd[i],
        transcript_name(name) == name + seq!['.', 'j', 's', 'o', 'n', 'l'],
        archived_name(name) == name + seq!['.', 'g', 'z'],
{
    reveal_strlit(".jsonl");
    reveal_strlit(".gz");
    assert(".jsonl"@ =~= seq!['.', 'j', 's', 'o', 'n', 'l']);
    assert(".gz"@ =~= seq!['.', 'g', 'z']);
}

} // verus!
