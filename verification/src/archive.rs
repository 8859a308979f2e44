//! Reading a transcript: the lines of its file, or of the archived copy where the file is gone.

use vstd::prelude::*;
use vstd::utf8::{decode_utf8, valid_utf8};

use crate::text::texts;

verus! {

// ---------------------------------------------------------------------------------------------
// Lines
// ---------------------------------------------------------------------------------------------

/// The pieces of a file between line feeds: one more than there are line feeds.
pub open spec fn byte_pieces(bytes: Seq<u8>) -> Seq<Seq<u8>>
    decreases bytes.len(),
{
    if bytes.len() == 0 {
        seq![Seq::empty()]
    } else {
        let before = byte_pieces(bytes.drop_last());
        if bytes.last() == 10 {
            before.push(Seq::empty())
        } else {
            before.drop_last().push(before.last().push(bytes.last()))
        }
    }
}

/// A line without a carriage return at its end.
pub open spec fn chopped(line: Seq<u8>) -> Seq<u8> {
    if line.len() > 0 && line.last() == 13 {
        line.drop_last()
    } else {
        line
    }
}

/// The lines of a file, as bytes: each ends with a line feed, with a carriage return before it or
/// not. What follows the last line feed is a line too, where there is anything and the file was read
/// to its end.
pub open spec fn raw_lines(bytes: Seq<u8>, whole: bool) -> Seq<Seq<u8>> {
    let pieces = byte_pieces(bytes);
    let ended = pieces.drop_last().map_values(|p: Seq<u8>| chopped(p));
    if whole && pieces.last().len() > 0 {
        ended.push(pieces.last())
    } else {
        ended
    }
}

/// The texts of those lines that are texts.
pub open spec fn decoded(lines: Seq<Seq<u8>>) -> Seq<Seq<char>>
    decreases lines.len(),
{
    if lines.len() == 0 {
        Seq::empty()
    } else {
        let before = decoded(lines.drop_last());
        if valid_utf8(lines.last()) {
            before.push(decode_utf8(lines.last()))
        } else {
            before
        }
    }
}

/// The lines of a file.
pub open spec fn lines_in(bytes: Seq<u8>, whole: bool) -> Seq<Seq<char>> {
    decoded(raw_lines(bytes, whole))
}

/// `String::from_utf8`: the text that bytes write in UTF-8, or nothing where they are no UTF-8.
#[verifier::external_body]
fn text_in(bytes: Vec<u8>) -> (r: Option<String>)
    ensures
        match r {
            Some(s) => valid_utf8(bytes@) && s@ == decode_utf8(bytes@),
            None => !valid_utf8(bytes@),
        },
{
    String::from_utf8(bytes).ok()
}

/// Adds a line where it is a text.
fn add_line(out: &mut Vec<String>, line: Vec<u8>, Ghost(lines): Ghost<Seq<Seq<u8>>>)
    requires
        texts(old(out)@) == decoded(lines),
    ensures
        texts(final(out)@) == decoded(lines.push(line@)),
{
    let ghost before = texts(out@);
    proof {
        assert(lines.push(line@).drop_last() =~= lines);
    }
    match text_in(line) {
        Some(s) => {
            let ghost text = s@;
            out.push(s);
            proof {
                assert(texts(out@) =~= before.push(text));
            }
        },
        None => {},
    }
}

/// There is always a piece that no line feed has ended yet.
proof fn lemma_pieces(bytes: Seq<u8>)
    ensures
        byte_pieces(bytes).len() > 0,
    decreases bytes.len(),
{
    if bytes.len() > 0 {
        lemma_pieces(bytes.drop_last());
    }
}

/// The lines of what was read of a file; `whole` tells whether it was read to its end.
pub fn read_lines(bytes: &Vec<u8>, whole: bool) -> (r: Vec<String>)
    ensures
        texts(r@) == lines_in(bytes@, whole),
{
    let ghost chop = |p: Seq<u8>| chopped(p);
    let mut out: Vec<String> = Vec::new();
    let mut line: Vec<u8> = Vec::new();
    let mut i: usize = 0;
    proof {
        let pieces = byte_pieces(bytes@.take(0));
        assert(pieces.drop_last().map_values(chop) =~= Seq::empty());
        assert(texts(out@) =~= Seq::empty());
    }
    while i < bytes.len()
        invariant
            i <= bytes@.len(),
            chop == (|p: Seq<u8>| chopped(p)),
            line@ == byte_pieces(bytes@.take(i as int)).last(),
            texts(out@) == decoded(
                byte_pieces(bytes@.take(i as int)).drop_last().map_values(chop),
            ),
        decreases bytes@.len() - i,
    {
        let ghost pieces = byte_pieces(bytes@.take(i as int));
        let ghost ended = pieces.drop_last().map_values(chop);
        let ghost raw = line@;
        proof {
            assert(bytes@.take(i + 1).drop_last() =~= bytes@.take(i as int));
            lemma_pieces(bytes@.take(i as int));
        }
        if bytes[i] == 10 {
            if line.len() > 0 && line[line.len() - 1] == 13 {
                let _ = line.pop();
            }
            proof {
                assert(line@ =~= chopped(raw));
            }
            add_line(&mut out, line, Ghost(ended));
            line = Vec::new();
            proof {
                assert(pieces.push(Seq::empty()).drop_last() =~= pieces);
                assert(pieces.map_values(chop) =~= ended.push(chopped(raw)));
            }
        } else {
            line.push(bytes[i]);
            proof {
                let grown = pieces.drop_last().push(raw.push(bytes@[i as int]));
                assert(grown.drop_last() =~= pieces.drop_last());
            }
        }
        i = i + 1;
    }
    proof {
        assert(bytes@.take(bytes@.len() as int) =~= bytes@);
    }
    if whole && line.len() > 0 {
        let ghost ended = byte_pieces(bytes@).drop_last().map_values(chop);
        add_line(&mut out, line, Ghost(ended));
    }
    out
}

// ---------------------------------------------------------------------------------------------
// The archive
// ---------------------------------------------------------------------------------------------

/// What `flate2::read::GzDecoder` makes of the bytes of a gzip file: all that can be unpacked, up to
/// the end of its first member or to the damage, and whether the file is sound.
pub uninterp spec fn gunzipped(bytes: Seq<u8>) -> (Seq<u8>, bool);

/// `flate2::read::GzDecoder`, read to its end or to the first error: the bytes that came out, and
/// whether there was no error. The claim is that whether a file is sound depends on its bytes alone,
/// that of a sound file everything comes out, and that of a damaged one a beginning of what can be
/// unpacked comes out. How long a beginning is not said: what is unpacked in the same read as the
/// damage is met is lost, so it depends on how much is read at a time.
#[verifier::external_body]
fn gunzip(bytes: &Vec<u8>) -> (r: (Vec<u8>, bool))
    ensures
        r.1 == gunzipped(bytes@).1,
        r.0@.is_prefix_of(gunzipped(bytes@).0),
        r.1 ==> r.0@ == gunzipped(bytes@).0,
{
    let mut out = Vec::new();
    let mut decoder = flate2::read::GzDecoder::new(bytes.as_slice());
    let read = std::io::Read::read_to_end(&mut decoder, &mut out);
    (out, read.is_ok())
}

/// Whether lines are the whole lines of a beginning of what a file holds.
pub open spec fn are_lines_of_a_beginning(lines: Seq<Seq<char>>, bytes: Seq<u8>) -> bool {
    exists|part: Seq<u8>| part.is_prefix_of(bytes) && lines == #[trigger] lines_in(part, false)
}

/// Whether a transcript is read as the given lines, given its file and its archived copy.
pub open spec fn is_read_as(
    original: Option<Seq<u8>>,
    archived: Option<Seq<u8>>,
    lines: Option<Seq<Seq<char>>>,
) -> bool {
    match (original, archived) {
        (Some(bytes), _) => lines == Some(lines_in(bytes, true)),
        (None, Some(packed)) => lines is Some && if gunzipped(packed).1 {
            lines->0 == lines_in(gunzipped(packed).0, true)
        } else {
            are_lines_of_a_beginning(lines->0, gunzipped(packed).0)
        },
        (None, None) => lines is None,
    }
}

/// The bytes of a file that may be missing.
pub open spec fn bytes_of(file: Option<&Vec<u8>>) -> Option<Seq<u8>> {
    match file {
        Some(bytes) => Some(bytes@),
        None => None,
    }
}

/// The lines that were read, where a transcript is there.
pub open spec fn lines_read(r: Option<Vec<String>>) -> Option<Seq<Seq<char>>> {
    match r {
        Some(lines) => Some(texts(lines@)),
        None => None,
    }
}

/// The lines of a transcript, given its file, or where that is gone its archived copy, or nothing
/// where that is gone too. Of a damaged copy the whole lines of what came out before the damage
/// count; how much comes out depends on how much is read at a time.
pub fn open_transcript(original: Option<&Vec<u8>>, archived: Option<&Vec<u8>>) -> (r: Option<
    Vec<String>,
>)
    ensures
        match (original, archived) {
            (Some(bytes), _) => r matches Some(lines) && texts(lines@) == lines_in(bytes@, true),
            (None, Some(packed)) => r matches Some(lines) && if gunzipped(packed@).1 {
                texts(lines@) == lines_in(gunzipped(packed@).0, true)
            } else {
                are_lines_of_a_beginning(texts(lines@), gunzipped(packed@).0)
            },
            (None, None) => r is None,
        },
        is_read_as(bytes_of(original), bytes_of(archived), lines_read(r)),
{
    match original {
        Some(bytes) => Some(read_lines(bytes, true)),
        None => match archived {
            Some(packed) => {
                let (bytes, sound) = gunzip(packed);
                let lines = read_lines(&bytes, sound);
                proof {
                    if !sound {
                        assert(texts(lines@) == lines_in(bytes@, false));
                    }
                }
                Some(lines)
            },
            None => None,
        },
    }
}

/// The pieces of a beginning are pieces of the whole, but for the last, which goes on.
proof fn lemma_pieces_of_a_beginning(part: Seq<u8>, bytes: Seq<u8>)
    requires
        part.is_prefix_of(bytes),
    ensures
        byte_pieces(part).len() <= byte_pieces(bytes).len(),
        byte_pieces(part).drop_last().is_prefix_of(byte_pieces(bytes).drop_last()),
    decreases bytes.len(),
{
    lemma_pieces(part);
    lemma_pieces(bytes);
    if part.len() == bytes.len() {
        assert(part =~= bytes);
    } else {
        let front = bytes.drop_last();
        assert(part.is_prefix_of(front));
        lemma_pieces(front);
        lemma_pieces_of_a_beginning(part, front);
        let ended = byte_pieces(front);
        if bytes.last() == 10 {
            assert(byte_pieces(bytes).drop_last() =~= ended);
        } else {
            assert(byte_pieces(bytes).drop_last() =~= ended.drop_last());
        }
    }
}

/// The texts of the first lines are the first texts.
proof fn lemma_decoded_beginning(a: Seq<Seq<u8>>, b: Seq<Seq<u8>>)
    requires
        a.is_prefix_of(b),
    ensures
        decoded(a).is_prefix_of(decoded(b)),
    decreases b.len(),
{
    if a.len() == b.len() {
        assert(a =~= b);
    } else {
        assert(a.is_prefix_of(b.drop_last()));
        lemma_decoded_beginning(a, b.drop_last());
    }
}

/// Damage makes up nothing: the whole lines of a beginning of a file are the first lines of the file.
pub proof fn lines_of_a_beginning_come_first(part: Seq<u8>, bytes: Seq<u8>, whole: bool)
    requires
        part.is_prefix_of(bytes),
    ensures
        lines_in(part, false).is_prefix_of(lines_in(bytes, whole)),
{
    lemma_pieces_of_a_beginning(part, bytes);
    lemma_pieces(part);
    lemma_pieces(bytes);
    let a = raw_lines(part, false);
    let b = raw_lines(bytes, whole);
    let x = byte_pieces(part).drop_last();
    let y = byte_pieces(bytes).drop_last();
    assert forall|i: int| 0 <= i < a.len() implies a[i] == #[trigger] b[i] by {
        assert(x[i] == y.subrange(0, x.len() as int)[i]);
    }
    assert(a =~= b.subrange(0, a.len() as int));
    lemma_decoded_beginning(a, b);
}

} // verus!
