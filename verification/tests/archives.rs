//! Transcript files and their archived copies.

use recall::archive::{open_transcript, read_lines};
use std::io::Write;

fn gzip(bytes: &[u8]) -> Vec<u8> {
    let mut encoder = flate2::write::GzEncoder::new(Vec::new(), flate2::Compression::default());
    encoder.write_all(bytes).unwrap();
    encoder.finish().unwrap()
}

#[test]
fn lines_are_what_the_standard_library_reads() {
    let files: [&[u8]; 9] = [
        b"",
        b"a",
        b"a\n",
        b"a\nb",
        b"\n\n",
        b"a\r\nb\r",
        b"\r\n\r\n",
        "글\n둘\n".as_bytes(),
        b"good\n\xff\xfe\nagain\n\xe2\x82",
    ];
    for bytes in files {
        let want: Vec<String> =
            std::io::BufRead::lines(std::io::BufReader::new(bytes)).flatten().collect();
        assert_eq!(read_lines(&bytes.to_vec(), true), want, "{bytes:?}");
    }
}

#[test]
fn an_unfinished_line_counts_only_at_the_end_of_the_file() {
    assert_eq!(read_lines(&b"a\nb".to_vec(), true), vec!["a", "b"]);
    assert_eq!(read_lines(&b"a\nb".to_vec(), false), vec!["a"]);
}

#[test]
fn the_file_comes_before_the_archive() {
    let original = b"from the file\n".to_vec();
    let archived = gzip(b"from the archive\nsecond");
    assert_eq!(
        open_transcript(Some(&original), Some(&archived)),
        Some(vec!["from the file".to_string()])
    );
    assert_eq!(
        open_transcript(None, Some(&archived)),
        Some(vec!["from the archive".to_string(), "second".to_string()])
    );
    assert_eq!(open_transcript(None, None), None);
}

#[test]
fn a_damaged_archive_gives_what_can_be_read() {
    assert_eq!(open_transcript(None, Some(&b"no gzip at all".to_vec())), Some(vec![]));
    let mut archived = gzip(b"one\ntwo\nthree");
    // The checksum is wrong: the whole lines are still there.
    let at = archived.len() - 8;
    archived[at] ^= 0xff;
    assert_eq!(
        open_transcript(None, Some(&archived)),
        Some(vec!["one".to_string(), "two".to_string()])
    );
}

#[test]
fn a_truncated_archive_makes_up_nothing() {
    let text: String = (0..2000).map(|n| format!("line {n}\n")).collect();
    let archived = gzip(text.as_bytes());
    let all = read_lines(&text.into_bytes(), true);
    for cut in [0, 5, 20, archived.len() / 2, archived.len() - 4] {
        let lines = open_transcript(None, Some(&archived[..cut].to_vec())).unwrap();
        assert!(lines.len() <= all.len());
        assert_eq!(lines[..], all[..lines.len()]);
    }
}
