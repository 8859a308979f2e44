//! Collecting responses: from the events of a session and its logged prompts to what is written
//! down about them.
//!
//! What is written down is a list of [`Write`]s. None of them takes anything away, and none of
//! them touches what a person wrote.

use vstd::prelude::*;

use crate::clock::{epochs_are_bounded, iso_time, parse_iso_to_epoch, OFFSET_LIMIT};
use crate::json::{lemma_list_view, Json, JsonView};
use crate::owner::{
    by_event, follows, owners_view, resolution_is_unique, resolve_owners, rows_view, session_by,
    Owner, OwnerView, Row, RowView,
};
use crate::segment::{
    block_segments, narrative, narrative_of, segments, segs_view, Segment, SegmentView,
};
use crate::text::own;
use crate::transcript::{evs_view, Ev, EvView};
use crate::turn::{
    block_total, build_turns, humans, humans_are_the_typed_owners, story, told, turn_end, turns,
    turns_fit, turns_tell_the_whole_story, turns_view,
};

verus! {

/// The version of the collector that a prompt was collected with.
pub const INGEST_VER: i64 = 1;

/// What collecting came to.
#[derive(Debug)]
pub struct IngestStats {
    pub sessions: i64,
    pub sessions_missing: i64,
    pub prompts_matched: i64,
    pub prompts_unresolved: i64,
    pub segments: i64,
    pub folded: i64,
}

impl Default for IngestStats {
    fn default() -> (r: Self)
        ensures
            r.sessions == 0,
            r.sessions_missing == 0,
            r.prompts_matched == 0,
            r.prompts_unresolved == 0,
            r.segments == 0,
            r.folded == 0,
    {
        IngestStats {
            sessions: 0,
            sessions_missing: 0,
            prompts_matched: 0,
            prompts_unresolved: 0,
            segments: 0,
            folded: 0,
        }
    }
}

/// Something that is written down about a session.
#[derive(Debug)]
pub enum Write {
    /// The prompt of the row is of this kind, `human` or `system`, and was found this way.
    Classify { row_id: i64, kind: &'static str, match_kind: &'static str },
    /// The response to the row has this segment in place `seq`. A segment with the same row, event
    /// and block takes its place.
    PutSegment { row_id: i64, seq: i64, segment: Segment },
    /// The response to the row reads like this.
    PutNarrative { row_id: i64, narrative: String, version: i64 },
    /// The transcript of the session was read when it was last changed at this time.
    PutState { session_id: String, mtime: i64 },
}

/// What a write says.
pub enum WriteView {
    Classify { row_id: i64, kind: Seq<char>, match_kind: Seq<char> },
    PutSegment { row_id: i64, seq: i64, segment: SegmentView },
    PutNarrative { row_id: i64, narrative: Seq<char>, version: i64 },
    PutState { session_id: Seq<char>, mtime: i64 },
}

impl View for Write {
    type V = WriteView;

    open spec fn view(&self) -> WriteView {
        match *self {
            Write::Classify { row_id, kind, match_kind } => WriteView::Classify {
                row_id,
                kind: kind@,
                match_kind: match_kind@,
            },
            Write::PutSegment { row_id, seq, segment } => WriteView::PutSegment {
                row_id,
                seq,
                segment: segment@,
            },
            Write::PutNarrative { row_id, narrative, version } => WriteView::PutNarrative {
                row_id,
                narrative: narrative@,
                version,
            },
            Write::PutState { session_id, mtime } => WriteView::PutState {
                session_id: session_id@,
                mtime,
            },
        }
    }
}

/// What the writes of a list say.
pub open spec fn writes_view(writes: Seq<Write>) -> Seq<WriteView> {
    writes.map_values(|w: Write| w@)
}

// ---------------------------------------------------------------------------------------------
// What is written down
// ---------------------------------------------------------------------------------------------

/// Each owner is a typed or an injected prompt that was found in some way.
pub open spec fn classifications(owners: Seq<OwnerView>) -> Seq<WriteView> {
    owners.map_values(
        |o: OwnerView|
            WriteView::Classify {
                row_id: o.row_id,
                kind: if o.is_system {
                    "system"@
                } else {
                    "human"@
                },
                match_kind: o.match_kind,
            },
    )
}

/// The segments of a response in their order.
pub open spec fn segment_writes(row_id: i64, segs: Seq<SegmentView>) -> Seq<WriteView> {
    Seq::new(
        segs.len(),
        |n: int| WriteView::PutSegment { row_id, seq: n as i64, segment: segs[n] },
    )
}

/// A response: its segments, and then how it reads.
pub open spec fn response_writes(row_id: i64, segs: Seq<SegmentView>) -> Seq<WriteView> {
    segment_writes(row_id, segs).push(
        WriteView::PutNarrative { row_id, narrative: narrative(segs), version: INGEST_VER },
    )
}

/// The responses of the first `n` turns.
pub open spec fn responses(all: Seq<(i64, Seq<SegmentView>)>, n: int) -> Seq<WriteView>
    decreases n,
{
    if n <= 0 {
        Seq::empty()
    } else {
        responses(all, n - 1) + response_writes(all[n - 1].0, all[n - 1].1)
    }
}

/// What is written down about a session: what kind of prompt each row is, and the response to each
/// typed one.
pub open spec fn session_writes(evs: Seq<EvView>, owners: Seq<OwnerView>) -> Seq<WriteView> {
    let all = turns(evs, owners);
    classifications(owners) + responses(all, all.len() as int)
}

/// How many segments the turns have together.
pub open spec fn segment_total(evs: Seq<EvView>, owners: Seq<OwnerView>) -> nat {
    let all = turns(evs, owners);
    told(all, all.len() as int).len()
}

/// How many blocks the events have together.
pub open spec fn blocks_in(evs: Seq<EvView>) -> int
    decreases evs.len(),
{
    if evs.len() == 0 {
        0
    } else {
        blocks_in(evs.drop_last()) + block_total(evs.last())
    }
}

/// What a session adds to the counts.
pub open spec fn counts_after(
    before: IngestStats,
    after: IngestStats,
    evs: Seq<EvView>,
    rows: Seq<RowView>,
    owners: Seq<OwnerView>,
) -> bool {
    if evs.len() == 0 {
        after == (IngestStats {
            sessions_missing: (before.sessions_missing + 1) as i64,
            ..before
        })
    } else if rows.len() == 0 {
        after == before
    } else {
        &&& after.sessions == before.sessions + 1
        &&& after.sessions_missing == before.sessions_missing
        &&& after.prompts_matched == before.prompts_matched + owners.len()
        &&& after.prompts_unresolved == before.prompts_unresolved + rows.len() - owners.len()
        &&& after.segments == before.segments + segment_total(evs, owners)
        &&& after.folded == before.folded + owners.len() - humans(owners).len()
    }
}

/// Whether a session with so many rows and blocks can be added to the counts without overflow.
pub open spec fn counts_fit(before: IngestStats, rows: int, blocks: int) -> bool {
    &&& rows <= i64::MAX
    &&& blocks <= i64::MAX
    &&& before.sessions < i64::MAX
    &&& before.sessions_missing < i64::MAX
    &&& before.prompts_matched + rows <= i64::MAX
    &&& before.prompts_unresolved + rows <= i64::MAX
    &&& before.folded + rows <= i64::MAX
    &&& before.segments + blocks <= i64::MAX
}

/// Every prompt of a session that is collected is counted once, as matched or as unresolved.
pub proof fn every_prompt_is_counted_once(
    before: IngestStats,
    after: IngestStats,
    evs: Seq<EvView>,
    rows: Seq<RowView>,
    owners: Seq<OwnerView>,
)
    requires
        counts_after(before, after, evs, rows, owners),
        evs.len() > 0,
    ensures
        after.prompts_matched + after.prompts_unresolved == before.prompts_matched
            + before.prompts_unresolved + rows.len(),
{
}

// ---------------------------------------------------------------------------------------------
// How many segments there can be
// ---------------------------------------------------------------------------------------------

/// A block has at most one segment.
proof fn lemma_block_segments_len(ev: EvView, blocks: Seq<JsonView>, is_owner: bool)
    ensures
        block_segments(ev, blocks, is_owner).len() <= blocks.len(),
    decreases blocks.len(),
{
    if blocks.len() > 0 {
        lemma_block_segments_len(ev, blocks.drop_last(), is_owner);
    }
}

/// An event has at most as many segments as blocks.
proof fn lemma_segments_len(ev: EvView, is_owner: bool)
    ensures
        segments(ev, is_owner).len() <= block_total(ev),
{
    match ev.content {
        JsonView::List(blocks) => {
            lemma_block_segments_len(ev, blocks, is_owner);
        },
        _ => {},
    }
}

/// The story up to an event has at most as many segments as the events before it have blocks.
proof fn lemma_story_len(evs: Seq<EvView>, typed: Seq<OwnerView>, from: int, to: int)
    requires
        0 <= from,
        to <= evs.len(),
        0 <= to,
    ensures
        story(evs, typed, from, to).len() <= blocks_in(evs.take(to)),
        0 <= blocks_in(evs.take(to)),
    decreases to,
{
    if to > 0 {
        lemma_story_len(evs, typed, from, to - 1);
        assert(evs.take(to).drop_last() =~= evs.take(to - 1));
        assert(evs.take(to).last() == evs[to - 1]);
        crate::ingest::lemma_segments_len(
            evs[to - 1],
            crate::turn::is_typed_event(typed, to - 1),
        );
    }
}

/// The turns have at most as many segments as the events have blocks.
proof fn lemma_segment_total(evs: Seq<EvView>, owners: Seq<OwnerView>)
    requires
        by_event(owners),
        forall|a: int| 0 <= a < owners.len() ==> 0 <= (#[trigger] owners[a]).ev_idx < evs.len(),
    ensures
        segment_total(evs, owners) <= blocks_in(evs),
{
    let typed = humans(owners);
    humans_are_the_typed_owners(owners);
    assert(evs.take(evs.len() as int) =~= evs);
    lemma_story_len(evs, typed, 0, evs.len() as int);
    if typed.len() > 0 {
        turns_tell_the_whole_story(evs, owners);
        assert(owners.contains(typed[0]));
        let a = choose|a: int| 0 <= a < owners.len() && owners[a] == typed[0];
        assert(0 <= owners[a].ev_idx < evs.len());
        lemma_story_len(evs, typed, typed[0].ev_idx, evs.len() as int);
    }
}

/// The counts of the first turns are at most those of all turns.
proof fn lemma_told_grows(all: Seq<(i64, Seq<SegmentView>)>, a: int, b: int)
    requires
        a <= b,
    ensures
        told(all, a).len() <= told(all, b).len(),
    decreases b - a,
{
    if a < b {
        lemma_told_grows(all, a, b - 1);
        if b <= 0 {
            assert(told(all, b) =~= Seq::empty());
        }
    }
}

// ---------------------------------------------------------------------------------------------
// Collecting a session
// ---------------------------------------------------------------------------------------------

/// Writes down a response: its segments, and then how it reads.
fn put_response(out: &mut Vec<Write>, row_id: i64, segs: Vec<Segment>)
    ensures
        writes_view(final(out)@) == writes_view(old(out)@) + response_writes(
            row_id,
            segs_view(segs@),
        ),
{
    let prose = narrative_of(segs.as_slice());
    let ghost before = writes_view(out@);
    let ghost view = segs_view(segs@);
    let ghost all = segs@;
    let total: usize = segs.len();
    let mut n: usize = 0;
    for s in it: segs
        invariant
            total == all.len(),
            it.seq() == all,
            view == segs_view(all),
            n == it.index(),
            all.len() == view.len(),
            writes_view(out@) == before + segment_writes(row_id, view).take(n as int),
    {
        let ghost done = writes_view(out@);
        let w = Write::PutSegment { row_id, seq: n as i64, segment: s };
        let ghost added = w@;
        out.push(w);
        proof {
            assert(writes_view(out@) =~= done.push(added));
            assert(view[n as int] == s@);
            assert(segment_writes(row_id, view).take(n + 1) =~= segment_writes(row_id, view).take(
                n as int,
            ).push(added));
        }
        n = n + 1;
    }
    let ghost done = writes_view(out@);
    let w = Write::PutNarrative { row_id, narrative: prose, version: INGEST_VER };
    let ghost added = w@;
    out.push(w);
    proof {
        assert(segment_writes(row_id, view).take(view.len() as int) =~= segment_writes(
            row_id,
            view,
        ));
        assert(writes_view(out@) =~= done.push(added));
        assert(writes_view(out@) =~= before + response_writes(row_id, view));
    }
}

/// What kind of prompt each owner is.
fn classify(owners: &Vec<Owner>) -> (r: (Vec<Write>, usize))
    ensures
        writes_view(r.0@) == classifications(owners_view(owners@)),
        r.1 == owners@.len() - humans(owners_view(owners@)).len(),
{
    let ghost all = owners_view(owners@);
    let mut out: Vec<Write> = Vec::new();
    let mut injected: usize = 0;
    let mut i: usize = 0;
    proof {
        assert(writes_view(out@) =~= classifications(all.take(0)));
    }
    while i < owners.len()
        invariant
            i <= owners@.len(),
            all == owners_view(owners@),
            injected <= i,
            injected == i - humans(all.take(i as int)).len(),
            writes_view(out@) == classifications(all.take(i as int)),
        decreases owners@.len() - i,
    {
        proof {
            assert(all.take(i + 1).drop_last() =~= all.take(i as int));
            assert(all.take(i + 1).last() == owners@[i as int]@);
        }
        let o = &owners[i];
        let kind = if o.is_system {
            "system"
        } else {
            "human"
        };
        let ghost before = writes_view(out@);
        let w = Write::Classify { row_id: o.row_id, kind, match_kind: o.match_kind };
        let ghost added = w@;
        out.push(w);
        proof {
            assert(writes_view(out@) =~= before.push(added));
            assert(classifications(all.take(i + 1)) =~= classifications(all.take(i as int)).push(
                added,
            ));
        }
        if o.is_system {
            injected = injected + 1;
        }
        i = i + 1;
    }
    proof {
        assert(all.take(all.len() as int) =~= all);
    }
    (out, injected)
}

/// The responses of the turns, written down behind what is written down already.
fn put_responses(out: &mut Vec<Write>, all: Vec<(i64, Vec<Segment>)>, count: &mut i64)
    requires
        told(turns_view(all@), all@.len() as int).len() <= i64::MAX,
        *old(count) + told(turns_view(all@), all@.len() as int).len() <= i64::MAX,
    ensures
        writes_view(final(out)@) == writes_view(old(out)@) + responses(
            turns_view(all@),
            all@.len() as int,
        ),
        *final(count) == *old(count) + told(turns_view(all@), all@.len() as int).len(),
{
    let ghost view = turns_view(all@);
    let ghost list = all@;
    let ghost before = writes_view(out@);
    let ghost counted = *count;
    let mut n: usize = 0;
    let total: usize = all.len();
    proof {
        assert(before + responses(view, 0) =~= before);
    }
    for t in it: all
        invariant
            it.seq() == list,
            view == turns_view(list),
            total == list.len(),
            n == it.index(),
            told(view, total as int).len() <= i64::MAX,
            counted + told(view, total as int).len() <= i64::MAX,
            *count == counted + told(view, n as int).len(),
            writes_view(out@) == before + responses(view, n as int),
    {
        proof {
            assert(view[n as int] == (t.0, segs_view(t.1@)));
            lemma_told_grows(view, n + 1, total as int);
            assert(told(view, n + 1) == told(view, n as int) + view[n as int].1);
        }
        let (row_id, segs) = t;
        let ghost done = writes_view(out@);
        let ghost sv = segs_view(segs@);
        let added: i64 = segs.len() as i64;
        put_response(out, row_id, segs);
        *count = *count + added;
        proof {
            assert(writes_view(out@) =~= before + responses(view, n + 1));
        }
        n = n + 1;
    }
}

/// Collects a session: what is to be written down about it, and what it adds to the counts.
///
/// `evs` are the events of its transcript, none where there is no transcript: then nothing is
/// written down. `rows` are the prompts that were logged in it, and `parse_epoch` reads the times
/// of both; the local time of the rows is `offset` seconds ahead.
pub fn ingest_session<F: Fn(&str) -> Option<i64>>(
    evs: &[Ev],
    rows: &[Row],
    offset: i64,
    parse_epoch: F,
    stats: &mut IngestStats,
) -> (r: Vec<Write>)
    requires
        exists|time: spec_fn(Seq<char>) -> Option<i64>| #[trigger]
            follows(parse_epoch, time) && session_by(
                evs_view(evs@),
                rows_view(rows@),
                offset,
                time,
            ).times_fit(),
        counts_fit(*old(stats), rows@.len() as int, blocks_in(evs_view(evs@))),
    ensures
        evs@.len() == 0 || rows@.len() == 0 ==> r@.len() == 0,
        forall|time: spec_fn(Seq<char>) -> Option<i64>| #[trigger]
            follows(parse_epoch, time) ==> {
                let owners = session_by(
                    evs_view(evs@),
                    rows_view(rows@),
                    offset,
                    time,
                ).resolution();
                &&& counts_after(
                    *old(stats),
                    *final(stats),
                    evs_view(evs@),
                    rows_view(rows@),
                    owners,
                )
                &&& evs@.len() > 0 && rows@.len() > 0 ==> writes_view(r@) == session_writes(
                    evs_view(evs@),
                    owners,
                )
            },
{
    if evs.len() == 0 {
        stats.sessions_missing = stats.sessions_missing + 1;
        return Vec::new();
    }
    if rows.len() == 0 {
        return Vec::new();
    }
    let ghost eview = evs_view(evs@);
    let ghost rview = rows_view(rows@);
    let owners = resolve_owners(evs, rows, offset, parse_epoch);
    let ghost found = owners_view(owners@);
    proof {
        assert forall|time: spec_fn(Seq<char>) -> Option<i64>| #[trigger]
            follows(parse_epoch, time) implies session_by(
            eview,
            rview,
            offset,
            time,
        ).resolution() == found by {
            let s = session_by(eview, rview, offset, time);
            assert(s.is_resolved(found));
            resolution_is_unique(s, s.resolution(), found);
        }
        let time = choose|time: spec_fn(Seq<char>) -> Option<i64>| #[trigger]
            follows(parse_epoch, time) && session_by(eview, rview, offset, time).times_fit();
        assert(session_by(eview, rview, offset, time).is_resolved(found));
        assert(by_event(found));
        assert forall|a: int| 0 <= a < found.len() implies 0 <= (#[trigger] found[a]).ev_idx
            < eview.len() by {
            assert(owners@[a].ev_idx < evs@.len());
            assert(found[a] == owners@[a]@);
        }
        lemma_segment_total(eview, found);
        lemma_turns_fit(eview, found);
        assert(found.len() == owners@.len());
    }
    let (mut out, injected) = classify(&owners);
    stats.prompts_matched = stats.prompts_matched + owners.len() as i64;
    stats.prompts_unresolved = stats.prompts_unresolved + (rows.len() - owners.len()) as i64;
    stats.folded = stats.folded + injected as i64;
    stats.sessions = stats.sessions + 1;
    let all = build_turns(evs, owners.as_slice());
    let mut count: i64 = stats.segments;
    put_responses(&mut out, all, &mut count);
    stats.segments = count;
    out
}

/// The turns of owners in the order of their events do not reach beyond the transcript.
proof fn lemma_turns_fit(evs: Seq<EvView>, owners: Seq<OwnerView>)
    requires
        by_event(owners),
        forall|a: int| 0 <= a < owners.len() ==> 0 <= (#[trigger] owners[a]).ev_idx < evs.len(),
    ensures
        turns_fit(evs.len() as int, humans(owners)),
{
    let typed = humans(owners);
    humans_are_the_typed_owners(owners);
    assert forall|n: int| 0 <= n < typed.len() && (#[trigger] typed[n]).ev_idx < turn_end(
        evs.len() as int,
        typed,
        n,
    ) implies turn_end(evs.len() as int, typed, n) <= evs.len() by {
        if n + 1 < typed.len() {
            assert(owners.contains(typed[n + 1]));
            let a = choose|a: int| 0 <= a < owners.len() && owners[a] == typed[n + 1];
            assert(owners[a].ev_idx < evs.len());
        }
    }
}

/// Reading times as `parse_iso_to_epoch` does is reading what the texts write down, and the seconds
/// between any two times fit.
pub proof fn iso_times_fit(evs: Seq<EvView>, rows: Seq<RowView>, offset: i64)
    requires
        -OFFSET_LIMIT <= offset <= OFFSET_LIMIT,
    ensures
        follows(parse_iso_to_epoch, iso_time()),
        session_by(evs, rows, offset, iso_time()).times_fit(),
{
    let s = session_by(evs, rows, offset, iso_time());
    assert forall|k: int|
        0 <= k < s.rows.len() && (#[trigger] s.row_times[k]) is Some implies i64::MIN
        <= s.row_times[k]->0 - s.offset <= i64::MAX by {
        epochs_are_bounded(rows[k].created_at);
    }
    assert forall|k: int, i: int|
        #![trigger s.row_times[k], s.ev_times[i]]
        0 <= k < s.rows.len() && s.row_times[k] is Some && 0 <= i < s.evs.len()
            && s.ev_times[i] is Some implies s.distance(k, i) <= i64::MAX by {
        epochs_are_bounded(rows[k].created_at);
        match evs[i].ts {
            Some(ts) => {
                epochs_are_bounded(ts);
            },
            None => {},
        }
    }
}

/// What is written down about a session whose transcript was last changed at `mtime`: what
/// collecting it gives, and then that it was read. A time of 0 means that there is no transcript.
pub open spec fn sweep_writes(
    session_id: Seq<char>,
    mtime: i64,
    evs: Seq<EvView>,
    rows: Seq<RowView>,
    offset: i64,
) -> Seq<WriteView> {
    let collected = if evs.len() > 0 && rows.len() > 0 {
        session_writes(evs, session_by(evs, rows, offset, iso_time()).resolution())
    } else {
        Seq::empty()
    };
    if mtime > 0 {
        collected.push(WriteView::PutState { session_id, mtime })
    } else {
        collected
    }
}

/// Collects a session and notes that its transcript was read. `mtime` is when the transcript was
/// last changed, looked up before it was read: what is added while it is read counts as unread.
pub fn sweep_session(
    session_id: &str,
    mtime: i64,
    evs: &[Ev],
    rows: &[Row],
    offset: i64,
    stats: &mut IngestStats,
) -> (r: Vec<Write>)
    requires
        -OFFSET_LIMIT <= offset <= OFFSET_LIMIT,
        counts_fit(*old(stats), rows@.len() as int, blocks_in(evs_view(evs@))),
    ensures
        writes_view(r@) == sweep_writes(
            session_id@,
            mtime,
            evs_view(evs@),
            rows_view(rows@),
            offset,
        ),
        counts_after(
            *old(stats),
            *final(stats),
            evs_view(evs@),
            rows_view(rows@),
            session_by(evs_view(evs@), rows_view(rows@), offset, iso_time()).resolution(),
        ),
{
    proof {
        iso_times_fit(evs_view(evs@), rows_view(rows@), offset);
    }
    let mut out = ingest_session(evs, rows, offset, parse_iso_to_epoch, stats);
    let ghost collected = writes_view(out@);
    proof {
        if evs@.len() == 0 || rows@.len() == 0 {
            assert(collected =~= Seq::empty());
        }
    }
    if mtime > 0 {
        let w = Write::PutState { session_id: own(session_id), mtime };
        let ghost added = w@;
        out.push(w);
        proof {
            assert(writes_view(out@) =~= collected.push(added));
        }
    }
    out
}

/// How many blocks the events have, where that is a number of 63 bits.
fn count_blocks(evs: &[Ev]) -> (r: Option<i64>)
    ensures
        r is Some <==> blocks_in(evs_view(evs@)) <= i64::MAX,
        r matches Some(n) ==> n == blocks_in(evs_view(evs@)),
{
    let ghost all = evs_view(evs@);
    let mut total: u64 = 0;
    let mut i: usize = 0;
    while i < evs.len()
        invariant
            i <= evs@.len(),
            all == evs_view(evs@),
            total == blocks_in(all.take(i as int)),
            total <= i64::MAX,
        decreases evs@.len() - i,
    {
        proof {
            assert(all.take(i + 1).drop_last() =~= all.take(i as int));
            assert(all.take(i + 1).last() == evs@[i as int]@);
        }
        let n: u64 = match &evs[i].content {
            Json::List(blocks) => blocks.len() as u64,
            _ => 1,
        };
        proof {
            match evs@[i as int].content {
                Json::List(blocks) => lemma_list_view(blocks@),
                _ => {},
            }
            assert(n == block_total(all[i as int]));
            lemma_blocks_grow(all, i + 1, all.len() as int);
            assert(all.take(all.len() as int) =~= all);
        }
        if n > 9_223_372_036_854_775_807u64 - total {
            return None;
        }
        total = total + n;
        i = i + 1;
    }
    proof {
        assert(all.take(all.len() as int) =~= all);
    }
    Some(total as i64)
}

/// The more events, the more blocks.
proof fn lemma_blocks_grow(evs: Seq<EvView>, a: int, b: int)
    requires
        0 <= a <= b <= evs.len(),
    ensures
        blocks_in(evs.take(a)) <= blocks_in(evs.take(b)),
    decreases b - a,
{
    if a < b {
        lemma_blocks_grow(evs, a, b - 1);
        assert(evs.take(b).drop_last() =~= evs.take(b - 1));
    }
}

/// Whether the counts have room for a session with so many prompts and with the given events.
pub fn has_room(stats: &IngestStats, rows: usize, evs: &[Ev]) -> (r: bool)
    ensures
        r == counts_fit(*stats, rows as int, blocks_in(evs_view(evs@))),
{
    if rows as u64 > 9_223_372_036_854_775_807u64 {
        return false;
    }
    let most: i64 = i64::MAX - rows as i64;
    proof {
        lemma_blocks_are_counted(evs_view(evs@));
    }
    match count_blocks(evs) {
        Some(blocks) => stats.sessions < i64::MAX && stats.sessions_missing < i64::MAX
            && stats.prompts_matched <= most && stats.prompts_unresolved <= most && stats.folded
            <= most && stats.segments <= i64::MAX - blocks,
        None => false,
    }
}

/// The number of blocks is no negative number.
proof fn lemma_blocks_are_counted(evs: Seq<EvView>)
    ensures
        0 <= blocks_in(evs),
    decreases evs.len(),
{
    if evs.len() > 0 {
        lemma_blocks_are_counted(evs.drop_last());
    }
}

// ---------------------------------------------------------------------------------------------
// Which sessions to collect
// ---------------------------------------------------------------------------------------------

/// A session with recent prompts.
#[derive(Debug)]
pub struct RecentSession {
    pub session_id: String,
    pub cwd: String,
    /// When its transcript was last changed, where one was found; 0 where that is not known.
    pub mtime: Option<i64>,
    /// When its transcript was last changed before it was last read, where it was read.
    pub seen: Option<i64>,
}

/// Whether a transcript has grown since it was read.
pub open spec fn has_grown(mtime: Option<i64>, seen: Option<i64>) -> bool {
    match mtime {
        Some(m) => m != 0 && m > match seen {
            Some(s) => s,
            None => 0,
        },
        None => false,
    }
}

/// The sessions whose transcripts have grown, each with its working directory.
pub open spec fn grown(sessions: Seq<RecentSession>) -> Seq<(Seq<char>, Seq<char>)>
    decreases sessions.len(),
{
    if sessions.len() == 0 {
        Seq::empty()
    } else {
        let before = grown(sessions.drop_last());
        let s = sessions.last();
        if has_grown(s.mtime, s.seen) {
            before.push((s.session_id@, s.cwd@))
        } else {
            before
        }
    }
}

/// The sessions to collect now: those whose transcripts have grown since they were read.
///
/// Whether a prompt has segments would be the wrong question: an injected prompt owns no turn and
/// never gets any. Whether a session was ever read would be wrong too: the response of a running
/// turn keeps growing.
pub fn ingest_pending(sessions: &Vec<RecentSession>) -> (r: Vec<(String, String)>)
    ensures
        r@.map_values(|p: (String, String)| (p.0@, p.1@)) == grown(sessions@),
{
    let mut out: Vec<(String, String)> = Vec::new();
    let mut i: usize = 0;
    proof {
        assert(out@.map_values(|p: (String, String)| (p.0@, p.1@)) =~= grown(sessions@.take(0)));
    }
    while i < sessions.len()
        invariant
            i <= sessions@.len(),
            out@.map_values(|p: (String, String)| (p.0@, p.1@)) == grown(sessions@.take(i as int)),
        decreases sessions@.len() - i,
    {
        proof {
            assert(sessions@.take(i + 1).drop_last() =~= sessions@.take(i as int));
        }
        let s = &sessions[i];
        let m: i64 = match s.mtime {
            Some(m) => m,
            None => 0,
        };
        let seen: i64 = match s.seen {
            Some(t) => t,
            None => 0,
        };
        if m != 0 && m > seen {
            let ghost before = out@.map_values(|p: (String, String)| (p.0@, p.1@));
            out.push((s.session_id.clone(), s.cwd.clone()));
            proof {
                assert(out@.map_values(|p: (String, String)| (p.0@, p.1@)) =~= before.push(
                    (s.session_id@, s.cwd@),
                ));
            }
        }
        i = i + 1;
    }
    proof {
        assert(sessions@.take(sessions@.len() as int) =~= sessions@);
    }
    out
}

} // verus!
