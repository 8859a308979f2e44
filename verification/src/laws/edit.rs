//! Laws of what people type and are shown.

use vstd::prelude::*;

use crate::answer::{is_step_for, transcript_key, uuid_to_keep, LoggedPrompt, ResponseStep};
use crate::backup::{journal_step, switched, JournalStep};
use crate::batch::{counted_as, is_tally, BatchFetchResult, Lookup, RefetchView};
use crate::edit::{is_shown_at_once, name_typed, NO_TAG_NAME};
use crate::query::{is_listed_as, Prompt, PromptRow};
use crate::removal::{says_deleted, DeleteResult};
use crate::text::{blank, is_white, trim};
use crate::laws::backup::lower;
use crate::laws::purge::outcomes_are_counted;
use crate::laws::text::trimming_takes_white_space;

verus! {

/// Names and aliases count without the white space around them, and there is none exactly where nothing
/// but white space was typed.
pub proof fn names_count_without_white_space(text: Seq<char>)
    ensures
        name_typed(text) is None <==> blank(text),
        name_typed(text) is Some ==> {
            let name = name_typed(text)->0;
            &&& name.len() > 0
            &&& !is_white(name[0])
            &&& !is_white(name.last())
            &&& exists|lead: Seq<char>, tail: Seq<char>|
                text == #[trigger] (lead + name + tail) && blank(lead) && blank(tail)
        },
        NO_TAG_NAME@ == "태그 이름이 비어있습니다"@,
{
    trimming_takes_white_space(text);
    let name = trim(text);
    let (lead, tail) = choose|lead: Seq<char>, tail: Seq<char>|
        text == #[trigger] (lead + name + tail) && blank(lead) && blank(tail);
    if name.len() == 0 {
        assert forall|i: int| 0 <= i < text.len() implies is_white(#[trigger] text[i]) by {
            if i < lead.len() {
                assert(is_white(lead[i]));
            } else {
                assert(is_white(tail[i - lead.len()]));
            }
        }
    } else {
        assert(text[lead.len() as int] == name[0]);
        assert(!is_white(text[lead.len() as int]));
    }
}

/// Prose of up to 24,000 bytes and 400 lines is shown at once; longer prose, and anything that is not
/// prose, only when it is opened.
pub proof fn short_prose_is_shown_at_once(kind: Seq<char>, nbytes: i64, nlines: i64)
    ensures
        kind == "text"@ && nbytes <= 24000 && nlines <= 400 ==> is_shown_at_once(
            kind,
            nbytes,
            nlines,
        ),
        nbytes > 24000 || nlines > 400 || kind != "text"@ ==> !is_shown_at_once(
            kind,
            nbytes,
            nlines,
        ),
{
}

/// What is known is never overwritten by what is found: a uuid is kept only where none, or an empty one,
/// was known.
pub proof fn what_is_known_is_kept(known: Option<Seq<char>>, found: Option<Seq<char>>)
    ensures
        known is None ==> uuid_to_keep(known, found) == found,
        known is Some && (known->0).len() == 0 ==> uuid_to_keep(known, found) == found,
        known is Some && (known->0).len() > 0 ==> uuid_to_keep(known, found) is None,
{
    if known is Some && (known->0).len() == 0 {
        assert(known->0 =~= Seq::<char>::empty());
    }
}

/// A response that is stored is shown as it is, an empty one too, unless it is asked for anew; the older
/// cache is looked at only where none is stored; and a response is looked for only where neither holds one
/// or it is asked for anew.
pub proof fn what_is_stored_is_shown(
    refresh: Option<bool>,
    saved: Option<(Option<String>, String)>,
    cached: Option<String>,
    r: ResponseStep,
)
    requires
        is_step_for(refresh, saved, cached, r),
    ensures
        ({
            let stored = saved is Some && (saved->0).0 is Some;
            &&& r is Recover <==> refresh == Some(true) || (!stored && cached is None)
            &&& r is Show <==> refresh != Some(true) && stored
            &&& r is Adopt <==> refresh != Some(true) && !stored && cached is Some
            &&& r matches ResponseStep::Show(p) ==> p.response == (saved->0).0->0 && p.fetched_at
                == (saved->0).1 && p.source@ == "saved"@
            &&& r matches ResponseStep::Adopt(s) ==> s == cached->0
        }),
{
}

/// A transcript is looked for by the session and the working directory of its prompt, and cannot be
/// looked for without either.
pub proof fn a_transcript_is_looked_for_by_session_and_directory(row: LoggedPrompt)
    ensures
        transcript_key(row) is Ok <==> row.session_id is Some && row.cwd is Some,
        transcript_key(row) is Ok ==> transcript_key(row)->Ok_0 == (
            (row.session_id->0)@,
            (row.cwd->0)@,
        ),
        row.session_id is None ==> transcript_key(row)
            == Err::<(Seq<char>, Seq<char>), Seq<char>>("session_id가 없어 JSONL을 찾을 수 없음"@),
        row.session_id is Some && row.cwd is None ==> transcript_key(row)
            == Err::<(Seq<char>, Seq<char>), Seq<char>>("cwd가 없어 JSONL을 찾을 수 없음"@),
{
}

/// The journal mode is switched, after a snapshot, unless it reads `wal`; a switch succeeded only where the
/// mode reads `wal` after it, and else the error names the mode that it reads.
pub proof fn the_mode_is_switched_unless_right(mode: Seq<char>)
    ensures
        ({
            let right = mode.map_values(|c: char| lower(c)) == "wal"@;
            &&& journal_step(mode) == JournalStep::Keep <==> right
            &&& journal_step(mode) == JournalStep::BackupThenSwitch <==> !right
            &&& right ==> switched(mode) == Ok::<Seq<char>, Seq<char>>(mode)
            &&& !right ==> switched(mode) == Err::<Seq<char>, Seq<char>>(
                "WAL 전환이 적용되지 않음 (현재 모드: "@ + mode + ")"@,
            )
        }),
{
    crate::laws::backup::the_mode_is_told_by_its_letters(mode);
}

/// Each outcome is counted once: a response as fetched, a missing response or turn as not found, and a
/// missing transcript as failed.
pub proof fn each_outcome_is_tallied_once(
    before: BatchFetchResult,
    after: BatchFetchResult,
    lookups: Seq<Lookup>,
    l: Lookup,
)
    requires
        is_tally(before, lookups),
        is_tally(after, lookups.push(l)),
    ensures
        after.total == before.total + 1,
        after.fetched == before.fetched + if l == Lookup::Recovered {
            1int
        } else {
            0int
        },
        after.not_found == before.not_found + if l == Lookup::Absent || l == Lookup::Unmatched {
            1int
        } else {
            0int
        },
        after.failed == before.failed + if l == Lookup::Unknown {
            1int
        } else {
            0int
        },
{
    outcomes_are_counted(lookups, l, Lookup::Recovered);
    outcomes_are_counted(lookups, l, Lookup::Absent);
    outcomes_are_counted(lookups, l, Lookup::Unmatched);
    outcomes_are_counted(lookups, l, Lookup::Unknown);
}

/// Nothing is counted where nothing was looked for.
pub proof fn nothing_is_tallied_at_first(r: BatchFetchResult)
    requires
        is_tally(r, Seq::empty()),
    ensures
        r.total == 0,
        r.fetched == 0,
        r.not_found == 0,
        r.failed == 0,
{
}

/// What fetching again is counted as.
pub proof fn fetching_again_is_counted(r: RefetchView)
    ensures
        counted_as(r) == Lookup::Recovered <==> r is Update,
        counted_as(r) == Lookup::Absent <==> r is Nothing,
        counted_as(r) == Lookup::Unmatched <==> r is NoTurn,
        counted_as(r) == Lookup::Unknown <==> r is NoTranscript,
{
}

/// A deletion says how many prompts it took, and where the snapshot lies where there is one.
pub proof fn a_deletion_says_what_it_took(r: DeleteResult, ids: Seq<i64>, path: Seq<char>)
    requires
        says_deleted(r, ids, path),
    ensures
        r.deleted == ids.len(),
        ids.len() > 0 ==> r.backup_path@ == path,
        ids.len() == 0 ==> r.backup_path@.len() == 0,
{
}

/// A prompt is listed with what its row holds: it is bookmarked where the row names a bookmark, and has a
/// response where the row says so.
pub proof fn a_prompt_is_listed_as_it_is(row: PromptRow, r: Prompt)
    requires
        is_listed_as(row, r),
    ensures
        r.id == row.id,
        r.session_id == row.session_id,
        r.cwd == row.cwd,
        r.prompt == row.prompt,
        r.created_at == row.created_at,
        r.kind == row.kind,
        r.bookmarked <==> row.bookmark is Some,
        row.has_response == 0 ==> !r.has_response,
        row.has_response == 1 ==> r.has_response,
{
}

} // verus!
