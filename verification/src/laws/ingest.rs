//! Laws of collecting: what is written down about a session, and what is counted.

use vstd::prelude::*;

use crate::clock::{epoch_of, iso_time};
use crate::ingest::{
    classifications, counts_after, grown, has_grown, response_writes, responses, segment_writes,
    session_writes, sweep_writes, writes_view, IngestStats, RecentSession, Write, WriteView,
};
use crate::owner::{session_by, OwnerView, RowView};
use crate::segment::{narrative, SegmentView};
use crate::transcript::EvView;
use crate::turn::{humans, told, turns};

verus! {

// ---------------------------------------------------------------------------------------------
// What is written down
// ---------------------------------------------------------------------------------------------

/// What stands in one of two lists stands in both together.
proof fn lemma_in_either(a: Seq<WriteView>, b: Seq<WriteView>, w: WriteView)
    ensures
        (a + b).contains(w) <==> a.contains(w) || b.contains(w),
{
    if a.contains(w) {
        let i = choose|i: int| 0 <= i < a.len() && a[i] == w;
        assert((a + b)[i] == w);
    }
    if b.contains(w) {
        let i = choose|i: int| 0 <= i < b.len() && b[i] == w;
        assert((a + b)[a.len() + i] == w);
    }
    if (a + b).contains(w) {
        let i = choose|i: int| 0 <= i < (a + b).len() && (a + b)[i] == w;
        if i < a.len() {
            assert(a[i] == w);
        } else {
            assert(b[i - a.len()] == w);
        }
    }
}

/// Whether a write says of a turn one of its segments with its place, or how it reads.
pub open spec fn is_of_turn(w: WriteView, row_id: i64, segs: Seq<SegmentView>) -> bool {
    match w {
        WriteView::PutSegment { row_id: id, seq, segment } => id == row_id && 0 <= seq < segs.len()
            && segment == segs[seq as int],
        WriteView::PutNarrative { row_id: id, narrative: text, version } => id == row_id && text
            == narrative(segs) && version == 1,
        _ => false,
    }
}

/// What is written down about one turn.
proof fn lemma_turn_writes(row_id: i64, segs: Seq<SegmentView>, w: WriteView)
    requires
        segs.len() <= i64::MAX,
    ensures
        response_writes(row_id, segs).contains(w) <==> is_of_turn(w, row_id, segs),
{
    let some = segment_writes(row_id, segs);
    let all = response_writes(row_id, segs);
    if all.contains(w) {
        let i = choose|i: int| 0 <= i < all.len() && all[i] == w;
        if i < some.len() {
            assert(all[i] == some[i]);
        }
    }
    if is_of_turn(w, row_id, segs) {
        match w {
            WriteView::PutSegment { row_id: id, seq, segment } => {
                assert(some[seq as int] == w);
                assert(all[seq as int] == w);
            },
            _ => {
                assert(all[some.len() as int] == w);
            },
        }
    }
}

/// What is written down about the first turns.
proof fn lemma_turns_writes(all: Seq<(i64, Seq<SegmentView>)>, n: int, w: WriteView)
    requires
        0 <= n <= all.len(),
        forall|k: int| 0 <= k < all.len() ==> (#[trigger] all[k]).1.len() <= i64::MAX,
    ensures
        responses(all, n).contains(w) <==> exists|k: int|
            0 <= k < n && is_of_turn(w, (#[trigger] all[k]).0, all[k].1),
    decreases n,
{
    if n > 0 {
        lemma_turns_writes(all, n - 1, w);
        assert(all[n - 1].1.len() <= i64::MAX);
        lemma_turn_writes(all[n - 1].0, all[n - 1].1, w);
        lemma_in_either(responses(all, n - 1), response_writes(all[n - 1].0, all[n - 1].1), w);
    }
}

/// Whether a write says what kind of prompt an owner is, and how it was found.
pub open spec fn is_of_owner(w: WriteView, o: OwnerView) -> bool {
    match w {
        WriteView::Classify { row_id, kind, match_kind } => {
            &&& row_id == o.row_id
            &&& o.is_system ==> kind == "system"@
            &&& !o.is_system ==> kind == "human"@
            &&& match_kind == o.match_kind
        },
        _ => false,
    }
}

/// What is written down about a session: for every prompt that was found its kind and how it was found,
/// and for every turn each of its segments under its place, and how it reads. Nothing else is written.
pub proof fn a_session_is_written_down_whole(
    evs: Seq<EvView>,
    owners: Seq<OwnerView>,
    w: WriteView,
)
    requires
        forall|k: int|
            0 <= k < turns(evs, owners).len() ==> (#[trigger] turns(evs, owners)[k]).1.len()
                <= i64::MAX,
    ensures
        session_writes(evs, owners).contains(w) <==> (exists|a: int|
            0 <= a < owners.len() && is_of_owner(w, #[trigger] owners[a])) || (exists|k: int|
            0 <= k < turns(evs, owners).len() && is_of_turn(
                w,
                (#[trigger] turns(evs, owners)[k]).0,
                turns(evs, owners)[k].1,
            )),
{
    let all = turns(evs, owners);
    let kinds = classifications(owners);
    lemma_in_either(kinds, responses(all, all.len() as int), w);
    lemma_turns_writes(all, all.len() as int, w);
    if kinds.contains(w) {
        let a = choose|a: int| 0 <= a < kinds.len() && kinds[a] == w;
        assert(is_of_owner(w, owners[a]));
    }
    if exists|a: int| 0 <= a < owners.len() && is_of_owner(w, #[trigger] owners[a]) {
        let a = choose|a: int| 0 <= a < owners.len() && is_of_owner(w, #[trigger] owners[a]);
        assert(kinds[a] == w);
    }
}

/// The segments of a turn are written in their order, and after them how the turn reads.
pub proof fn a_turn_is_written_in_order(row_id: i64, segs: Seq<SegmentView>, k: int)
    requires
        segs.len() <= i64::MAX,
        0 <= k < segs.len(),
    ensures
        response_writes(row_id, segs).len() == segs.len() + 1,
        response_writes(row_id, segs)[k] == (WriteView::PutSegment {
            row_id,
            seq: k as i64,
            segment: segs[k],
        }),
        response_writes(row_id, segs).last() == (WriteView::PutNarrative {
            row_id,
            narrative: narrative(segs),
            version: 1,
        }),
{
}

/// A write says what its fields hold.
pub proof fn a_write_says_its_fields(w: Write, ws: Seq<Write>, i: int)
    ensures
        w matches Write::Classify { row_id, kind, match_kind } ==> w@ == (WriteView::Classify {
            row_id,
            kind: kind@,
            match_kind: match_kind@,
        }),
        w matches Write::PutSegment { row_id, seq, segment } ==> w@ == (WriteView::PutSegment {
            row_id,
            seq,
            segment: segment@,
        }),
        w matches Write::PutNarrative { row_id, narrative: text, version } ==> w@ == (
        WriteView::PutNarrative { row_id, narrative: text@, version }),
        w matches Write::PutState { session_id, mtime } ==> w@ == (WriteView::PutState {
            session_id: session_id@,
            mtime,
        }),
        writes_view(ws).len() == ws.len(),
        0 <= i < ws.len() ==> writes_view(ws)[i] == ws[i]@,
{
}

/// That a transcript was read is noted last, with the time at which it was last changed, and only where
/// there is a transcript. Before it stands what was collected, which is nothing where there are no events
/// or no prompts.
pub proof fn reading_is_noted_last(
    session_id: Seq<char>,
    mtime: i64,
    evs: Seq<EvView>,
    rows: Seq<RowView>,
    offset: i64,
)
    ensures
        ({
            let ws = sweep_writes(session_id, mtime, evs, rows, offset);
            let bare = sweep_writes(session_id, 0, evs, rows, offset);
            &&& mtime > 0 ==> ws == bare.push(WriteView::PutState { session_id, mtime })
            &&& mtime <= 0 ==> ws == bare
            &&& evs.len() == 0 || rows.len() == 0 ==> bare.len() == 0
            &&& evs.len() > 0 && rows.len() > 0 ==> bare == session_writes(
                evs,
                session_by(evs, rows, offset, iso_time()).resolution(),
            )
        }),
{
}

/// A session has the times that its events and rows write down.
pub proof fn a_session_has_the_times_written_in_it(
    evs: Seq<EvView>,
    rows: Seq<RowView>,
    offset: i64,
    i: int,
)
    ensures
        ({
            let s = session_by(evs, rows, offset, iso_time());
            &&& s.evs == evs
            &&& s.rows == rows
            &&& s.offset == offset
            &&& s.ev_times.len() == evs.len()
            &&& s.row_times.len() == rows.len()
            &&& 0 <= i < evs.len() && evs[i].ts is None ==> s.ev_times[i] is None
            &&& 0 <= i < evs.len() && evs[i].ts is Some ==> (s.ev_times[i] is Some <==> epoch_of(
                evs[i].ts->0,
            ) is Some)
            &&& 0 <= i < evs.len() && s.ev_times[i] is Some ==> s.ev_times[i]->0 == epoch_of(
                evs[i].ts->0,
            )->0
            &&& 0 <= i < rows.len() ==> (s.row_times[i] is Some <==> epoch_of(
                rows[i].created_at,
            ) is Some)
            &&& 0 <= i < rows.len() && s.row_times[i] is Some ==> s.row_times[i]->0 == epoch_of(
                rows[i].created_at,
            )->0
        }),
{
    if 0 <= i < evs.len() && evs[i].ts is Some {
        crate::clock::epochs_are_bounded(evs[i].ts->0);
    }
    if 0 <= i < rows.len() {
        crate::clock::epochs_are_bounded(rows[i].created_at);
    }
}

// ---------------------------------------------------------------------------------------------
// What is counted
// ---------------------------------------------------------------------------------------------

/// How many of the writes put a segment.
pub open spec fn puts(ws: Seq<WriteView>) -> nat
    decreases ws.len(),
{
    if ws.len() == 0 {
        0
    } else {
        puts(ws.drop_last()) + if ws.last() is PutSegment {
            1nat
        } else {
            0nat
        }
    }
}

/// How many of the writes say that a prompt is the system's.
pub open spec fn systems(ws: Seq<WriteView>) -> nat
    decreases ws.len(),
{
    if ws.len() == 0 {
        0
    } else {
        systems(ws.drop_last()) + match ws.last() {
            WriteView::Classify { row_id, kind, match_kind } => if kind == "system"@ {
                1nat
            } else {
                0nat
            },
            _ => 0nat,
        }
    }
}

/// How many of the writes say of what kind a prompt is.
pub open spec fn kinds(ws: Seq<WriteView>) -> nat
    decreases ws.len(),
{
    if ws.len() == 0 {
        0
    } else {
        kinds(ws.drop_last()) + if ws.last() is Classify {
            1nat
        } else {
            0nat
        }
    }
}

/// The counts of two lists together.
proof fn lemma_counts_add(a: Seq<WriteView>, b: Seq<WriteView>)
    ensures
        puts(a + b) == puts(a) + puts(b),
        systems(a + b) == systems(a) + systems(b),
        kinds(a + b) == kinds(a) + kinds(b),
    decreases b.len(),
{
    if b.len() == 0 {
        assert(a + b =~= a);
    } else {
        assert((a + b).drop_last() =~= a + b.drop_last());
        lemma_counts_add(a, b.drop_last());
    }
}

/// The counts of what is written about owners.
proof fn lemma_counts_of_owners(owners: Seq<OwnerView>)
    ensures
        puts(classifications(owners)) == 0,
        kinds(classifications(owners)) == owners.len(),
        systems(classifications(owners)) + humans(owners).len() == owners.len(),
    decreases owners.len(),
{
    reveal_strlit("system");
    reveal_strlit("human");
    assert("system"@.len() == 6);
    assert("human"@.len() == 5);
    if owners.len() > 0 {
        lemma_counts_of_owners(owners.drop_last());
        assert(classifications(owners).drop_last() =~= classifications(owners.drop_last()));
    }
}

/// The counts of the segments of a turn.
proof fn lemma_counts_of_segments(row_id: i64, segs: Seq<SegmentView>)
    ensures
        puts(segment_writes(row_id, segs)) == segs.len(),
        kinds(segment_writes(row_id, segs)) == 0,
        systems(segment_writes(row_id, segs)) == 0,
    decreases segs.len(),
{
    if segs.len() > 0 {
        lemma_counts_of_segments(row_id, segs.drop_last());
        assert(segment_writes(row_id, segs).drop_last() =~= segment_writes(
            row_id,
            segs.drop_last(),
        ));
    }
}

/// The counts of the first turns.
proof fn lemma_counts_of_turns(all: Seq<(i64, Seq<SegmentView>)>, n: int)
    requires
        0 <= n <= all.len(),
    ensures
        puts(responses(all, n)) == told(all, n).len(),
        kinds(responses(all, n)) == 0,
        systems(responses(all, n)) == 0,
    decreases n,
{
    if n > 0 {
        let (row_id, segs) = all[n - 1];
        lemma_counts_of_turns(all, n - 1);
        lemma_counts_of_segments(row_id, segs);
        assert(response_writes(row_id, segs).drop_last() =~= segment_writes(row_id, segs));
        lemma_counts_add(responses(all, n - 1), response_writes(row_id, segs));
    }
}

/// What is counted is what is written down: the prompts that were found, those of them that are the
/// system's, and the segments. The prompts that were not found are the rest.
pub proof fn what_is_counted_is_written_down(
    before: IngestStats,
    after: IngestStats,
    evs: Seq<EvView>,
    rows: Seq<RowView>,
    owners: Seq<OwnerView>,
)
    requires
        counts_after(before, after, evs, rows, owners),
        evs.len() > 0,
        rows.len() > 0,
    ensures
        after.sessions == before.sessions + 1,
        after.sessions_missing == before.sessions_missing,
        after.prompts_matched == before.prompts_matched + kinds(session_writes(evs, owners)),
        after.prompts_unresolved == before.prompts_unresolved + rows.len() - kinds(
            session_writes(evs, owners),
        ),
        after.segments == before.segments + puts(session_writes(evs, owners)),
        after.folded == before.folded + systems(session_writes(evs, owners)),
{
    let all = turns(evs, owners);
    lemma_counts_add(classifications(owners), responses(all, all.len() as int));
    lemma_counts_of_owners(owners);
    lemma_counts_of_turns(all, all.len() as int);
}

/// A session without a transcript is counted as missing, and one without prompts not at all.
pub proof fn missing_sessions_are_counted(
    before: IngestStats,
    after: IngestStats,
    evs: Seq<EvView>,
    rows: Seq<RowView>,
    owners: Seq<OwnerView>,
)
    requires
        counts_after(before, after, evs, rows, owners),
        before.sessions_missing < i64::MAX,
    ensures
        evs.len() == 0 ==> after.sessions_missing == before.sessions_missing + 1 && after.sessions
            == before.sessions && after.prompts_matched == before.prompts_matched
            && after.prompts_unresolved == before.prompts_unresolved && after.segments
            == before.segments && after.folded == before.folded,
        evs.len() > 0 && rows.len() == 0 ==> after == before,
{
}

// ---------------------------------------------------------------------------------------------
// Which sessions are collected
// ---------------------------------------------------------------------------------------------

/// A session is collected where its transcript is there and was changed after the change that was seen;
/// one that was never read is collected. Sessions are judged each on its own and keep their order.
pub proof fn sessions_are_collected_where_they_grew(
    sessions: Seq<RecentSession>,
    s: RecentSession,
)
    ensures
        grown(Seq::empty()) == Seq::<(Seq<char>, Seq<char>)>::empty(),
        ({
            let is_new = s.seen is None && s.mtime is Some && s.mtime->0 > 0;
            let is_later = s.seen is Some && s.mtime is Some && s.mtime->0 != 0 && s.seen->0
                < s.mtime->0;
            &&& is_new || is_later ==> grown(sessions.push(s)) == grown(sessions).push(
                (s.session_id@, s.cwd@),
            )
            &&& !is_new && !is_later ==> grown(sessions.push(s)) == grown(sessions)
        }),
{
    assert(sessions.push(s).drop_last() =~= sessions);
}

/// Once what was seen is noted, the session waits until its transcript is changed again.
pub proof fn a_session_that_was_seen_waits(mtime: i64, later: i64)
    requires
        mtime > 0,
    ensures
        has_grown(Some(mtime), None),
        !has_grown(Some(mtime), Some(mtime)),
        later > mtime ==> has_grown(Some(later), Some(mtime)),
        later <= mtime ==> !has_grown(Some(later), Some(mtime)),
        !has_grown(None, None),
        !has_grown(None, Some(mtime)),
        !has_grown(Some(0), None),
{
}

} // verus!
