//! Where transcripts lie.

use vstd::prelude::*;

use crate::text::{own, replace_char, replaced};

verus! {

/// The folder of a working directory's transcripts.
pub open spec fn folder_name(cwd: Seq<char>) -> Seq<char> {
    replaced(cwd, '/', '-')
}

/// The path of the archived copy of a transcript.
pub open spec fn archived_name(relative: Seq<char>) -> Seq<char> {
    relative + ".gz"@
}

/// The folder of a working directory's transcripts: its path with dashes for slashes.
pub fn encode_cwd_to_folder(cwd: &str) -> (r: String)
    ensures
        r@ == replaced(cwd@, '/', '-'),
        r@ == folder_name(cwd@),
{
    replace_char(cwd, '/', '-')
}

/// The file name of a session's transcript.
pub open spec fn transcript_name(session_id: Seq<char>) -> Seq<char> {
    session_id + ".jsonl"@
}

/// The path of a transcript below the folder of all transcripts, in parts.
pub fn jsonl_path(cwd: &str, session_id: &str) -> (r: (String, String))
    ensures
        r.0@ == replaced(cwd@, '/', '-'),
        r.0@ == folder_name(cwd@),
        r.1@ == transcript_name(session_id@),
{
    let mut name = own(session_id);
    name.append(".jsonl");
    (encode_cwd_to_folder(cwd), name)
}

/// The path of the archived copy of a transcript, below the folder of the archive, given the
/// transcript's own path below the folder of all transcripts.
pub fn archived_path(relative: &str) -> (r: String)
    ensures
        r@ == relative@ + ".gz"@,
        r@ == archived_name(relative@),
{
    let mut path = own(relative);
    path.append(".gz");
    path
}

} // verus!
