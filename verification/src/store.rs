//! What the writes of the collector do to what is stored, and what they leave alone.

use vstd::prelude::*;

use crate::clock::iso_time;
use crate::ingest::{
    classifications, counts_after, has_grown, response_writes, responses, segment_writes,
    session_writes, sweep_writes, IngestStats, WriteView, INGEST_VER,
};
use crate::owner::{session_by, OwnerView, RowView};
use crate::segment::{narrative, SegmentView};
use crate::transcript::EvView;
use crate::turn::{humans, humans_are_the_typed_owners, keys_distinct, merge_key, turns};

verus! {

/// What is stored of a prompt.
pub struct PromptRecord {
    pub session_id: Option<Seq<char>>,
    pub cwd: Option<Seq<char>>,
    /// The prompt, which people may edit.
    pub prompt: Seq<char>,
    pub created_at: Seq<char>,
    /// The response as earlier versions extracted it, which people may edit.
    pub response: Option<Seq<char>>,
    pub msg_uuid: Option<Seq<char>>,
    /// The turn that the hook was told.
    pub cc_turn_id: Option<Seq<char>>,
    pub transcript_path: Option<Seq<char>>,
    pub kind: Option<Seq<char>>,
    pub match_kind: Option<Seq<char>>,
    pub narrative: Option<Seq<char>>,
    pub ingest_ver: Option<i64>,
}

/// What tells stored segments apart: the prompt, the event and the block.
pub type SegmentKey = (i64, Seq<char>, i64);

/// What is stored.
pub struct Store {
    /// The prompts by their rows.
    pub prompts: Map<i64, PromptRecord>,
    /// The segments, each with its place in the response.
    pub segments: Map<SegmentKey, (i64, SegmentView)>,
    /// What people changed a segment's text to.
    pub edits: Map<SegmentKey, Seq<char>>,
    /// When the transcript of a session was last changed before it was last read.
    pub state: Map<Seq<char>, i64>,
    /// What is stored beside the prompts.
    pub marks: Marks,
}

/// What is stored beside the prompts: what people wrote, and the older cache.
pub struct Marks {
    /// The prompts that are bookmarked.
    pub bookmarks: Set<i64>,
    /// The names of the tags.
    pub tags: Map<i64, Seq<char>>,
    /// Which prompt carries which tag.
    pub carried: Set<(i64, i64)>,
    /// The aliases of working directories.
    pub aliases: Map<Seq<char>, Seq<char>>,
    /// The older cache of responses, by their prompts.
    pub cached: Map<i64, Seq<char>>,
}

/// Where a segment of a response is stored.
pub open spec fn segment_key(row_id: i64, s: SegmentView) -> SegmentKey {
    (row_id, merge_key(s).0, merge_key(s).1)
}

/// What is stored after a write. A row that is not there is not made, and a segment that is there
/// already is replaced.
pub open spec fn apply(store: Store, w: WriteView) -> Store {
    match w {
        WriteView::Classify { row_id, kind, match_kind } => if store.prompts.dom().contains(row_id) {
            Store {
                prompts: store.prompts.insert(
                    row_id,
                    PromptRecord {
                        kind: Some(kind),
                        match_kind: Some(match_kind),
                        ..store.prompts[row_id]
                    },
                ),
                ..store
            }
        } else {
            store
        },
        WriteView::PutSegment { row_id, seq, segment } => Store {
            segments: store.segments.insert(segment_key(row_id, segment), (seq, segment)),
            ..store
        },
        WriteView::PutNarrative { row_id, narrative, version } => if store.prompts.dom().contains(
            row_id,
        ) {
            Store {
                prompts: store.prompts.insert(
                    row_id,
                    PromptRecord {
                        narrative: Some(narrative),
                        ingest_ver: Some(version),
                        ..store.prompts[row_id]
                    },
                ),
                ..store
            }
        } else {
            store
        },
        WriteView::PutState { session_id, mtime } => Store {
            state: store.state.insert(session_id, mtime),
            ..store
        },
    }
}

/// What is stored after the writes, one after another.
pub open spec fn apply_all(store: Store, ws: Seq<WriteView>) -> Store
    decreases ws.len(),
{
    if ws.len() == 0 {
        store
    } else {
        apply(apply_all(store, ws.drop_last()), ws.last())
    }
}

// ---------------------------------------------------------------------------------------------
// The last word on each thing
// ---------------------------------------------------------------------------------------------

/// The last kind and way of finding that the writes give to a row.
pub open spec fn last_class(ws: Seq<WriteView>, id: i64) -> Option<(Seq<char>, Seq<char>)>
    decreases ws.len(),
{
    if ws.len() == 0 {
        None
    } else {
        match ws.last() {
            WriteView::Classify { row_id, kind, match_kind } if row_id == id => Some(
                (kind, match_kind),
            ),
            _ => last_class(ws.drop_last(), id),
        }
    }
}

/// The last prose and version that the writes give to a row.
pub open spec fn last_narrative(ws: Seq<WriteView>, id: i64) -> Option<(Seq<char>, i64)>
    decreases ws.len(),
{
    if ws.len() == 0 {
        None
    } else {
        match ws.last() {
            WriteView::PutNarrative { row_id, narrative, version } if row_id == id => Some(
                (narrative, version),
            ),
            _ => last_narrative(ws.drop_last(), id),
        }
    }
}

/// The last segment that the writes put under a key.
pub open spec fn last_segment(ws: Seq<WriteView>, key: SegmentKey) -> Option<(i64, SegmentView)>
    decreases ws.len(),
{
    if ws.len() == 0 {
        None
    } else {
        match ws.last() {
            WriteView::PutSegment { row_id, seq, segment } if segment_key(row_id, segment)
                == key => Some((seq, segment)),
            _ => last_segment(ws.drop_last(), key),
        }
    }
}

/// The last reading of a session that the writes note.
pub open spec fn last_state(ws: Seq<WriteView>, session: Seq<char>) -> Option<i64>
    decreases ws.len(),
{
    if ws.len() == 0 {
        None
    } else {
        match ws.last() {
            WriteView::PutState { session_id, mtime } if session_id == session => Some(mtime),
            _ => last_state(ws.drop_last(), session),
        }
    }
}

/// A prompt after the writes.
pub open spec fn prompt_after(p: PromptRecord, ws: Seq<WriteView>, id: i64) -> PromptRecord {
    PromptRecord {
        kind: match last_class(ws, id) {
            Some(c) => Some(c.0),
            None => p.kind,
        },
        match_kind: match last_class(ws, id) {
            Some(c) => Some(c.1),
            None => p.match_kind,
        },
        narrative: match last_narrative(ws, id) {
            Some(n) => Some(n.0),
            None => p.narrative,
        },
        ingest_ver: match last_narrative(ws, id) {
            Some(n) => Some(n.1),
            None => p.ingest_ver,
        },
        ..p
    }
}

/// Whether `after` is what `before` becomes where each thing gets the last word on it.
pub open spec fn has_last_words(before: Store, ws: Seq<WriteView>, after: Store) -> bool {
    &&& after.prompts.dom() == before.prompts.dom()
    &&& forall|id: i64| #[trigger]
        before.prompts.dom().contains(id) ==> after.prompts[id] == prompt_after(
            before.prompts[id],
            ws,
            id,
        )
    &&& after.edits == before.edits
    &&& after.marks == before.marks
    &&& forall|key: SegmentKey| #[trigger]
        after.segments.dom().contains(key) <==> before.segments.dom().contains(key) || last_segment(
            ws,
            key,
        ) is Some
    &&& forall|key: SegmentKey| #[trigger]
        after.segments.dom().contains(key) ==> after.segments[key] == match last_segment(ws, key) {
            Some(s) => s,
            None => before.segments[key],
        }
    &&& forall|session: Seq<char>| #[trigger]
        after.state.dom().contains(session) <==> before.state.dom().contains(session) || last_state(
            ws,
            session,
        ) is Some
    &&& forall|session: Seq<char>| #[trigger]
        after.state.dom().contains(session) ==> after.state[session] == match last_state(
            ws,
            session,
        ) {
            Some(m) => m,
            None => before.state[session],
        }
}

/// After the writes each thing has the last word on it, and what nothing was written about is as
/// it was.
pub proof fn writes_have_the_last_word(store: Store, ws: Seq<WriteView>)
    ensures
        has_last_words(store, ws, apply_all(store, ws)),
    decreases ws.len(),
{
    if ws.len() > 0 {
        let mid = apply_all(store, ws.drop_last());
        let after = apply_all(store, ws);
        writes_have_the_last_word(store, ws.drop_last());
        assert(after == apply(mid, ws.last()));
        assert(after.prompts.dom() =~= mid.prompts.dom());
        assert forall|id: i64| #[trigger] store.prompts.dom().contains(id) implies after.prompts[id]
            == prompt_after(store.prompts[id], ws, id) by {
            assert(mid.prompts[id] == prompt_after(store.prompts[id], ws.drop_last(), id));
        }
        assert forall|key: SegmentKey| #[trigger]
            after.segments.dom().contains(key) <==> store.segments.dom().contains(key)
                || last_segment(ws, key) is Some by {
            assert(mid.segments.dom().contains(key) <==> store.segments.dom().contains(key)
                || last_segment(ws.drop_last(), key) is Some);
        }
        assert forall|key: SegmentKey| #[trigger]
            after.segments.dom().contains(key) implies after.segments[key] == match last_segment(
            ws,
            key,
        ) {
            Some(s) => s,
            None => store.segments[key],
        } by {
            assert(mid.segments.dom().contains(key) ==> mid.segments[key] == match last_segment(
                ws.drop_last(),
                key,
            ) {
                Some(s) => s,
                None => store.segments[key],
            });
        }
        assert forall|session: Seq<char>| #[trigger]
            after.state.dom().contains(session) <==> store.state.dom().contains(session)
                || last_state(ws, session) is Some by {
            assert(mid.state.dom().contains(session) <==> store.state.dom().contains(session)
                || last_state(ws.drop_last(), session) is Some);
        }
        assert forall|session: Seq<char>| #[trigger]
            after.state.dom().contains(session) implies after.state[session] == match last_state(
            ws,
            session,
        ) {
            Some(m) => m,
            None => store.state[session],
        } by {
            assert(mid.state.dom().contains(session) ==> mid.state[session] == match last_state(
                ws.drop_last(),
                session,
            ) {
                Some(m) => m,
                None => store.state[session],
            });
        }
    }
}

// ---------------------------------------------------------------------------------------------
// Laws
// ---------------------------------------------------------------------------------------------

/// Whether two records of a prompt differ in nothing but what the collector may write: the kind, the
/// way of finding, the prose and the version.
pub open spec fn same_but_for_collected(a: PromptRecord, b: PromptRecord) -> bool {
    b == (PromptRecord {
        kind: b.kind,
        match_kind: b.match_kind,
        narrative: b.narrative,
        ingest_ver: b.ingest_ver,
        ..a
    })
}

/// Collecting writes segments, when transcripts were read, and of the prompts that are there the
/// kind, the way of finding, the prose and the version, and nothing else. It never touches what a
/// person or the hook wrote: the prompts, when and where they were typed, the responses that earlier
/// versions extracted and people edited, the changes that people made to segments, bookmarks, tags
/// and aliases. Prompts neither appear nor go.
pub proof fn collecting_keeps_what_people_wrote(store: Store, ws: Seq<WriteView>, id: i64)
    ensures
        apply_all(store, ws).edits == store.edits,
        apply_all(store, ws).marks == store.marks,
        apply_all(store, ws).prompts.dom() == store.prompts.dom(),
        store.prompts.dom().contains(id) ==> same_but_for_collected(
            store.prompts[id],
            apply_all(store, ws).prompts[id],
        ),
{
    writes_have_the_last_word(store, ws);
}

/// Collecting deletes nothing: every segment that was stored is stored still, under the same key.
pub proof fn collecting_deletes_nothing(
    store: Store,
    ws: Seq<WriteView>,
    key: SegmentKey,
    session: Seq<char>,
)
    ensures
        store.segments.dom().contains(key) ==> apply_all(store, ws).segments.dom().contains(key),
        store.state.dom().contains(session) ==> apply_all(store, ws).state.dom().contains(session),
{
    writes_have_the_last_word(store, ws);
}

/// Collecting twice is collecting once: the same writes a second time change nothing.
pub proof fn collecting_is_idempotent(store: Store, ws: Seq<WriteView>)
    ensures
        apply_all(apply_all(store, ws), ws) == apply_all(store, ws),
{
    let once = apply_all(store, ws);
    let twice = apply_all(once, ws);
    writes_have_the_last_word(store, ws);
    writes_have_the_last_word(once, ws);
    assert forall|id: i64| #[trigger]
        once.prompts.dom().contains(id) implies twice.prompts[id] == once.prompts[id] by {
        assert(store.prompts.dom().contains(id));
    }
    assert(twice.prompts =~= once.prompts);
    assert forall|key: SegmentKey| once.segments.dom().contains(key) == #[trigger]
        twice.segments.dom().contains(key) by {
        assert(once.segments.dom().contains(key) <==> store.segments.dom().contains(key)
            || last_segment(ws, key) is Some);
    }
    assert forall|key: SegmentKey| #[trigger]
        twice.segments.dom().contains(key) implies twice.segments[key] == once.segments[key] by {
        assert(once.segments.dom().contains(key));
    }
    assert(twice.segments =~= once.segments);
    assert forall|session: Seq<char>| once.state.dom().contains(session) == #[trigger]
        twice.state.dom().contains(session) by {
        assert(once.state.dom().contains(session) <==> store.state.dom().contains(session)
            || last_state(ws, session) is Some);
    }
    assert forall|session: Seq<char>| #[trigger]
        twice.state.dom().contains(session) implies twice.state[session] == once.state[session] by {
        assert(once.state.dom().contains(session));
    }
    assert(twice.state =~= once.state);
}

/// Whether a write puts a segment under the key.
pub open spec fn puts_under(w: WriteView, key: SegmentKey) -> bool {
    match w {
        WriteView::PutSegment { row_id, seq, segment } => segment_key(row_id, segment) == key,
        _ => false,
    }
}

/// The last word on a key is that of the last write that puts something under it.
proof fn lemma_last_put(ws: Seq<WriteView>, at: int, key: SegmentKey)
    requires
        0 <= at < ws.len(),
        puts_under(ws[at], key),
        forall|i: int| at < i < ws.len() ==> !puts_under(#[trigger] ws[i], key),
    ensures
        last_segment(ws, key) == Some((ws[at]->seq, ws[at]->segment)),
    decreases ws.len(),
{
    if at < ws.len() - 1 {
        let front = ws.drop_last();
        assert(!puts_under(ws[ws.len() - 1], key));
        assert(front[at] == ws[at]);
        assert forall|i: int| at < i < front.len() implies !puts_under(#[trigger] front[i], key) by {
            assert(front[i] == ws[i]);
        }
        lemma_last_put(front, at, key);
    }
}

/// The last word of the responses on a segment of one of the turns is that segment.
proof fn lemma_response_is_put(
    all: Seq<(i64, Seq<SegmentView>)>,
    n: int,
    turn: int,
    a: int,
    ws: Seq<WriteView>,
)
    requires
        0 <= turn < n <= all.len(),
        forall|i: int, j: int| 0 <= i < j < all.len() ==> (#[trigger] all[i]).0 != (
        #[trigger] all[j]).0,
        keys_distinct(all[turn].1),
        0 <= a < all[turn].1.len(),
        ws == responses(all, n),
    ensures
        exists|at: int|
            0 <= at < ws.len() && #[trigger] ws[at] == (WriteView::PutSegment {
                row_id: all[turn].0,
                seq: a as i64,
                segment: all[turn].1[a],
            }) && (forall|i: int|
                at < i < ws.len() ==> !puts_under(
                    #[trigger] ws[i],
                    segment_key(all[turn].0, all[turn].1[a]),
                )),
    decreases n,
{
    let key = segment_key(all[turn].0, all[turn].1[a]);
    let before = responses(all, n - 1);
    let last = response_writes(all[n - 1].0, all[n - 1].1);
    assert(ws =~= before + last);
    if turn == n - 1 {
        let segs = all[turn].1;
        let at = before.len() + a;
        assert(last[a] == segment_writes(all[turn].0, segs)[a]);
        assert(ws[at] == last[a]);
        assert forall|i: int| at < i < ws.len() implies !puts_under(#[trigger] ws[i], key) by {
            let b = i - before.len();
            assert(ws[i] == last[b]);
            if b < segs.len() {
                assert(last[b] == segment_writes(all[turn].0, segs)[b]);
                assert(merge_key(segs[a]) != merge_key(segs[b]));
            }
        }
    } else {
        lemma_response_is_put(all, n - 1, turn, a, before);
        let at = choose|at: int|
            0 <= at < before.len() && #[trigger] before[at] == (WriteView::PutSegment {
                row_id: all[turn].0,
                seq: a as i64,
                segment: all[turn].1[a],
            }) && (forall|i: int|
                at < i < before.len() ==> !puts_under(#[trigger] before[i], key));
        assert(ws[at] == before[at]);
        assert(all[turn].0 != all[n - 1].0);
        assert forall|i: int| at < i < ws.len() implies !puts_under(#[trigger] ws[i], key) by {
            if i < before.len() {
                assert(ws[i] == before[i]);
            } else {
                let b = i - before.len();
                assert(ws[i] == last[b]);
                if b < all[n - 1].1.len() {
                    assert(last[b] == segment_writes(all[n - 1].0, all[n - 1].1)[b]);
                }
            }
        }
    }
}

/// What is collected can be read back: where the rows of the turns differ and no two segments of a
/// turn share a merge key, each segment of each turn is stored under its key, with its place.
pub proof fn collected_segments_are_stored(
    store: Store,
    evs: Seq<EvView>,
    owners: Seq<OwnerView>,
    turn: int,
    a: int,
)
    requires
        0 <= turn < turns(evs, owners).len(),
        0 <= a < turns(evs, owners)[turn].1.len(),
        keys_distinct(turns(evs, owners)[turn].1),
        forall|i: int, j: int|
            0 <= i < j < humans(owners).len() ==> (#[trigger] humans(owners)[i]).row_id != (
            #[trigger] humans(owners)[j]).row_id,
    ensures
        ({
            let after = apply_all(store, session_writes(evs, owners));
            let (row_id, segs) = turns(evs, owners)[turn];
            &&& after.segments.dom().contains(segment_key(row_id, segs[a]))
            &&& after.segments[segment_key(row_id, segs[a])] == (a as i64, segs[a])
        }),
{
    let all = turns(evs, owners);
    let n = all.len() as int;
    let ws = session_writes(evs, owners);
    let front = classifications(owners);
    let rest = responses(all, n);
    let key = segment_key(all[turn].0, all[turn].1[a]);
    assert forall|i: int, j: int| 0 <= i < j < all.len() implies (#[trigger] all[i]).0 != (
    #[trigger] all[j]).0 by {
        assert(humans(owners)[i].row_id != humans(owners)[j].row_id);
    }
    lemma_response_is_put(all, n, turn, a, rest);
    let at = choose|at: int|
        0 <= at < rest.len() && #[trigger] rest[at] == (WriteView::PutSegment {
            row_id: all[turn].0,
            seq: a as i64,
            segment: all[turn].1[a],
        }) && (forall|i: int| at < i < rest.len() ==> !puts_under(#[trigger] rest[i], key));
    assert(ws =~= front + rest);
    assert(ws[front.len() + at] == rest[at]);
    assert forall|i: int| front.len() + at < i < ws.len() implies !puts_under(
        #[trigger] ws[i],
        key,
    ) by {
        assert(ws[i] == rest[i - front.len()]);
    }
    lemma_last_put(ws, front.len() + at, key);
    writes_have_the_last_word(store, ws);
    assert(apply_all(store, ws).segments.dom().contains(key));
}

/// Whether a write speaks of a row.
pub open spec fn speaks_of(w: WriteView, id: i64) -> bool {
    match w {
        WriteView::Classify { row_id, .. } => row_id == id,
        WriteView::PutSegment { row_id, .. } => row_id == id,
        WriteView::PutNarrative { row_id, .. } => row_id == id,
        WriteView::PutState { .. } => false,
    }
}

/// Where no write speaks of a row, there is no last word on it.
proof fn lemma_silence(ws: Seq<WriteView>, id: i64)
    requires
        forall|i: int| 0 <= i < ws.len() ==> !speaks_of(#[trigger] ws[i], id),
    ensures
        last_class(ws, id) is None,
        last_narrative(ws, id) is None,
        forall|key: SegmentKey| key.0 == id ==> (#[trigger] last_segment(ws, key)) is None,
    decreases ws.len(),
{
    if ws.len() > 0 {
        let front = ws.drop_last();
        assert(!speaks_of(ws[ws.len() - 1], id));
        assert forall|i: int| 0 <= i < front.len() implies !speaks_of(#[trigger] front[i], id) by {
            assert(front[i] == ws[i]);
        }
        lemma_silence(front, id);
        assert forall|key: SegmentKey| key.0 == id implies (#[trigger] last_segment(ws, key)) is None by {
            assert(last_segment(front, key) is None);
        }
    }
}

/// The responses speak of the rows of their turns only, and classify nothing.
proof fn lemma_responses_speak(all: Seq<(i64, Seq<SegmentView>)>, n: int, id: i64)
    requires
        0 <= n <= all.len(),
    ensures
        forall|i: int| 0 <= i < responses(all, n).len() ==> !(#[trigger] responses(all, n)[i] is Classify),
        (forall|m: int| 0 <= m < n ==> (#[trigger] all[m]).0 != id) ==> forall|i: int|
            0 <= i < responses(all, n).len() ==> !speaks_of(#[trigger] responses(all, n)[i], id),
    decreases n,
{
    if n > 0 {
        lemma_responses_speak(all, n - 1, id);
        let before = responses(all, n - 1);
        let (row_id, segs) = all[n - 1];
        let last = response_writes(row_id, segs);
        let ws = responses(all, n);
        assert forall|i: int| 0 <= i < ws.len() implies !(#[trigger] ws[i] is Classify) && (ws[i]
            == before[i] && i < before.len() || (speaks_of(ws[i], id) ==> row_id == id)) by {
            if i < before.len() {
                assert(ws[i] == before[i]);
            } else {
                let b = i - before.len();
                assert(ws[i] == last[b]);
                if b < segs.len() {
                    assert(last[b] == segment_writes(row_id, segs)[b]);
                }
            }
        }
    }
}

/// A prompt that was matched to no event is left alone: nothing is written about it, and its older
/// response stays.
pub proof fn unmatched_rows_are_left_alone(
    store: Store,
    evs: Seq<EvView>,
    owners: Seq<OwnerView>,
    id: i64,
)
    requires
        forall|k: int| 0 <= k < owners.len() ==> (#[trigger] owners[k]).row_id != id,
    ensures
        ({
            let after = apply_all(store, session_writes(evs, owners));
            &&& store.prompts.dom().contains(id) ==> after.prompts[id] == store.prompts[id]
            &&& forall|key: SegmentKey| #[trigger]
                after.segments.dom().contains(key) && key.0 == id ==> store.segments.dom().contains(
                    key,
                ) && after.segments[key] == store.segments[key]
        }),
{
    let all = turns(evs, owners);
    let n = all.len() as int;
    let front = classifications(owners);
    let rest = responses(all, n);
    let ws = session_writes(evs, owners);
    humans_are_the_typed_owners(owners);
    assert forall|m: int| 0 <= m < n implies (#[trigger] all[m]).0 != id by {
        let o = humans(owners)[m];
        assert(owners.contains(o));
        let k = choose|k: int| 0 <= k < owners.len() && owners[k] == o;
        assert(owners[k].row_id != id);
    }
    lemma_responses_speak(all, n, id);
    assert forall|i: int| 0 <= i < ws.len() implies !speaks_of(#[trigger] ws[i], id) by {
        if i < front.len() {
            assert(ws[i] == front[i]);
            assert(owners[i].row_id != id);
        } else {
            assert(ws[i] == rest[i - front.len()]);
        }
    }
    lemma_silence(ws, id);
    writes_have_the_last_word(store, ws);
    let after = apply_all(store, ws);
    assert forall|key: SegmentKey| #[trigger]
        after.segments.dom().contains(key) && key.0 == id implies store.segments.dom().contains(key)
        && after.segments[key] == store.segments[key] by {
        assert(last_segment(ws, key) is None);
    }
}

/// The last word on the kind of a row is that of the last write that classifies it.
proof fn lemma_last_class(ws: Seq<WriteView>, at: int, id: i64)
    requires
        0 <= at < ws.len(),
        ws[at] is Classify,
        ws[at]->Classify_row_id == id,
        forall|i: int|
            at < i < ws.len() ==> !(#[trigger] ws[i] is Classify && ws[i]->Classify_row_id == id),
    ensures
        last_class(ws, id) == Some((ws[at]->kind, ws[at]->match_kind)),
    decreases ws.len(),
{
    if at < ws.len() - 1 {
        let front = ws.drop_last();
        assert(!(ws[ws.len() - 1] is Classify && ws[ws.len() - 1]->Classify_row_id == id));
        assert(front[at] == ws[at]);
        assert forall|i: int| at < i < front.len() implies !(#[trigger] front[i] is Classify
            && front[i]->Classify_row_id == id) by {
            assert(front[i] == ws[i]);
        }
        lemma_last_class(front, at, id);
    }
}

/// Every matched prompt is marked with whether a human typed it and with the way in which it was
/// matched.
pub proof fn matched_rows_are_marked(
    store: Store,
    evs: Seq<EvView>,
    owners: Seq<OwnerView>,
    k: int,
)
    requires
        0 <= k < owners.len(),
        store.prompts.dom().contains(owners[k].row_id),
        forall|i: int, j: int|
            0 <= i < j < owners.len() ==> (#[trigger] owners[i]).row_id != (#[trigger] owners[j]).row_id,
    ensures
        ({
            let after = apply_all(store, session_writes(evs, owners)).prompts[owners[k].row_id];
            &&& after.kind == Some(
                if owners[k].is_system {
                    "system"@
                } else {
                    "human"@
                },
            )
            &&& after.match_kind == Some(owners[k].match_kind)
        }),
{
    let all = turns(evs, owners);
    let n = all.len() as int;
    let front = classifications(owners);
    let rest = responses(all, n);
    let ws = session_writes(evs, owners);
    let id = owners[k].row_id;
    lemma_responses_speak(all, n, id);
    assert(ws[k] == front[k]);
    assert forall|i: int| k < i < ws.len() implies !(#[trigger] ws[i] is Classify
        && ws[i]->Classify_row_id == id) by {
        if i < front.len() {
            assert(ws[i] == front[i]);
            assert(owners[k].row_id != owners[i].row_id);
        } else {
            assert(ws[i] == rest[i - front.len()]);
        }
    }
    lemma_last_class(ws, k, id);
    writes_have_the_last_word(store, ws);
}

/// The last word on the prose of a row is that of the last write that tells it.
proof fn lemma_last_narrative(ws: Seq<WriteView>, at: int, id: i64)
    requires
        0 <= at < ws.len(),
        ws[at] is PutNarrative,
        ws[at]->PutNarrative_row_id == id,
        forall|i: int|
            at < i < ws.len() ==> !(#[trigger] ws[i] is PutNarrative && ws[i]->PutNarrative_row_id
                == id),
    ensures
        last_narrative(ws, id) == Some((ws[at]->narrative, ws[at]->version)),
    decreases ws.len(),
{
    if at < ws.len() - 1 {
        let front = ws.drop_last();
        assert(!(ws[ws.len() - 1] is PutNarrative && ws[ws.len() - 1]->PutNarrative_row_id == id));
        assert(front[at] == ws[at]);
        assert forall|i: int| at < i < front.len() implies !(#[trigger] front[i] is PutNarrative
            && front[i]->PutNarrative_row_id == id) by {
            assert(front[i] == ws[i]);
        }
        lemma_last_narrative(front, at, id);
    }
}

/// The response of a turn, where it stands among the responses: what follows speaks of other rows.
proof fn lemma_prose_is_put(all: Seq<(i64, Seq<SegmentView>)>, n: int, turn: int)
    requires
        0 <= turn < n <= all.len(),
        forall|i: int, j: int| 0 <= i < j < all.len() ==> (#[trigger] all[i]).0 != (
        #[trigger] all[j]).0,
    ensures
        last_narrative(responses(all, n), all[turn].0) == Some(
            (narrative(all[turn].1), INGEST_VER),
        ),
    decreases n,
{
    let id = all[turn].0;
    let before = responses(all, n - 1);
    let (row_id, segs) = all[n - 1];
    let last = response_writes(row_id, segs);
    let ws = responses(all, n);
    assert(ws =~= before + last);
    if turn == n - 1 {
        assert(ws[ws.len() - 1] == last[segs.len() as int]);
        lemma_last_narrative(ws, ws.len() - 1, id);
    } else {
        lemma_prose_is_put(all, n - 1, turn);
        assert(all[turn].0 != all[n - 1].0);
        lemma_narrative_of_others(before, last, id);
    }
}

/// Writes that tell the prose of other rows do not change the last word on a row.
proof fn lemma_narrative_of_others(a: Seq<WriteView>, b: Seq<WriteView>, id: i64)
    requires
        forall|i: int|
            0 <= i < b.len() ==> !(#[trigger] b[i] is PutNarrative && b[i]->PutNarrative_row_id == id),
    ensures
        last_narrative(a + b, id) == last_narrative(a, id),
    decreases b.len(),
{
    if b.len() == 0 {
        assert(a + b =~= a);
    } else {
        let front = b.drop_last();
        assert((a + b).drop_last() =~= a + front);
        assert(!(b[b.len() - 1] is PutNarrative && b[b.len() - 1]->PutNarrative_row_id == id));
        assert forall|i: int| 0 <= i < front.len() implies !(#[trigger] front[i] is PutNarrative
            && front[i]->PutNarrative_row_id == id) by {
            assert(front[i] == b[i]);
        }
        lemma_narrative_of_others(a, front, id);
    }
}

/// The prose of each turn is stored with its prompt, and so is the version of the collector. This is
/// what a search looks in.
pub proof fn collected_prose_is_stored(
    store: Store,
    evs: Seq<EvView>,
    owners: Seq<OwnerView>,
    turn: int,
)
    requires
        0 <= turn < turns(evs, owners).len(),
        store.prompts.dom().contains(turns(evs, owners)[turn].0),
        forall|i: int, j: int|
            0 <= i < j < humans(owners).len() ==> (#[trigger] humans(owners)[i]).row_id != (
            #[trigger] humans(owners)[j]).row_id,
    ensures
        ({
            let (row_id, segs) = turns(evs, owners)[turn];
            let after = apply_all(store, session_writes(evs, owners)).prompts[row_id];
            &&& after.narrative == Some(narrative(segs))
            &&& after.ingest_ver == Some(INGEST_VER)
        }),
{
    let all = turns(evs, owners);
    let n = all.len() as int;
    let front = classifications(owners);
    let rest = responses(all, n);
    let ws = session_writes(evs, owners);
    let id = all[turn].0;
    assert forall|i: int, j: int| 0 <= i < j < all.len() implies (#[trigger] all[i]).0 != (
    #[trigger] all[j]).0 by {
        assert(humans(owners)[i].row_id != humans(owners)[j].row_id);
    }
    lemma_prose_is_put(all, n, turn);
    lemma_narrative_after(front, rest, id);
    writes_have_the_last_word(store, ws);
}

/// The last word of later writes counts.
proof fn lemma_narrative_after(a: Seq<WriteView>, b: Seq<WriteView>, id: i64)
    requires
        last_narrative(b, id) is Some,
    ensures
        last_narrative(a + b, id) == last_narrative(b, id),
    decreases b.len(),
{
    assert((a + b).drop_last() =~= a + b.drop_last());
    assert((a + b).last() == b.last());
    if !(b.last() is PutNarrative && b.last()->PutNarrative_row_id == id) {
        lemma_narrative_after(a, b.drop_last(), id);
    }
}

/// A session that was read is not read again until its transcript grows, and then it is.
pub proof fn reading_settles_a_session_until_it_grows(
    store: Store,
    ws: Seq<WriteView>,
    session_id: Seq<char>,
    mtime: i64,
    later: i64,
)
    requires
        mtime > 0,
        later >= mtime,
    ensures
        ({
            let after = apply_all(store, ws.push(WriteView::PutState { session_id, mtime }));
            &&& after.state.dom().contains(session_id)
            &&& has_grown(Some(later), Some(after.state[session_id])) == (later > mtime)
        }),
{
    let all = ws.push(WriteView::PutState { session_id, mtime });
    assert(all.drop_last() =~= ws);
}

// ---------------------------------------------------------------------------------------------
// Whole sweeps
// ---------------------------------------------------------------------------------------------

/// A session as a sweep finds it: the events of its transcript, none where there is no transcript,
/// and when the transcript was last changed.
pub struct FoundSession {
    pub session_id: Seq<char>,
    pub mtime: i64,
    pub evs: Seq<EvView>,
}

/// The prompts that were logged in a session, in the order of `ids`, the ids of all prompts.
pub open spec fn rows_in(store: Store, ids: Seq<i64>, session_id: Seq<char>) -> Seq<RowView>
    decreases ids.len(),
{
    if ids.len() == 0 {
        Seq::empty()
    } else {
        let before = rows_in(store, ids.drop_last(), session_id);
        let id = ids.last();
        let p = store.prompts[id];
        if store.prompts.dom().contains(id) && p.session_id == Some(session_id) {
            before.push(
                RowView {
                    id,
                    prompt: p.prompt,
                    created_at: p.created_at,
                    cc_turn_id: p.cc_turn_id,
                    msg_uuid: p.msg_uuid,
                },
            )
        } else {
            before
        }
    }
}

/// What a sweep over sessions writes down, one session after the other. The prompts of each session
/// are looked up in what is stored by then.
pub open spec fn sweep_all(
    store: Store,
    ids: Seq<i64>,
    sessions: Seq<FoundSession>,
    offset: i64,
) -> Seq<WriteView>
    decreases sessions.len(),
{
    if sessions.len() == 0 {
        Seq::empty()
    } else {
        let before = sweep_all(store, ids, sessions.drop_last(), offset);
        let s = sessions.last();
        before + sweep_writes(
            s.session_id,
            s.mtime,
            s.evs,
            rows_in(apply_all(store, before), ids, s.session_id),
            offset,
        )
    }
}

/// Whether the counts of a sweep stand like this before the first session and after each: they start
/// from nothing, and each session adds to them.
pub open spec fn sweep_counts(
    store: Store,
    ids: Seq<i64>,
    sessions: Seq<FoundSession>,
    offset: i64,
    counts: Seq<IngestStats>,
) -> bool {
    &&& counts.len() == sessions.len() + 1
    &&& counts[0] == (IngestStats {
        sessions: 0,
        sessions_missing: 0,
        prompts_matched: 0,
        prompts_unresolved: 0,
        segments: 0,
        folded: 0,
    })
    &&& forall|n: int|
        0 <= n < sessions.len() ==> session_counts(
            apply_all(store, sweep_all(store, ids, sessions.take(n), offset)),
            ids,
            #[trigger] sessions[n],
            offset,
            counts[n],
            counts[n + 1],
        )
}

/// What a session adds to the counts where this is stored by then.
pub open spec fn session_counts(
    store: Store,
    ids: Seq<i64>,
    s: FoundSession,
    offset: i64,
    before: IngestStats,
    after: IngestStats,
) -> bool {
    let rows = rows_in(store, ids, s.session_id);
    counts_after(
        before,
        after,
        s.evs,
        rows,
        session_by(s.evs, rows, offset, iso_time()).resolution(),
    )
}

/// Collecting leaves the prompts of each session as they are looked up.
proof fn lemma_rows_stay(store: Store, ws: Seq<WriteView>, ids: Seq<i64>, session_id: Seq<char>)
    ensures
        rows_in(apply_all(store, ws), ids, session_id) == rows_in(store, ids, session_id),
    decreases ids.len(),
{
    if ids.len() > 0 {
        lemma_rows_stay(store, ws, ids.drop_last(), session_id);
        collecting_keeps_what_people_wrote(store, ws, ids.last());
    }
}

/// A sweep writes the same whatever was collected before.
proof fn lemma_sweep_stays(
    store: Store,
    ws: Seq<WriteView>,
    ids: Seq<i64>,
    sessions: Seq<FoundSession>,
    offset: i64,
)
    ensures
        sweep_all(apply_all(store, ws), ids, sessions, offset) == sweep_all(
            store,
            ids,
            sessions,
            offset,
        ),
    decreases sessions.len(),
{
    if sessions.len() > 0 {
        let front = sessions.drop_last();
        let before = sweep_all(store, ids, front, offset);
        let session_id = sessions.last().session_id;
        lemma_sweep_stays(store, ws, ids, front, offset);
        lemma_rows_stay(store, ws, ids, session_id);
        lemma_rows_stay(store, before, ids, session_id);
        lemma_rows_stay(apply_all(store, ws), before, ids, session_id);
    }
}

/// A sweep counts the same whatever was collected before.
proof fn lemma_counts_stay(
    store: Store,
    ws: Seq<WriteView>,
    ids: Seq<i64>,
    sessions: Seq<FoundSession>,
    offset: i64,
    first: Seq<IngestStats>,
    second: Seq<IngestStats>,
    n: int,
)
    requires
        sweep_counts(store, ids, sessions, offset, first),
        sweep_counts(apply_all(store, ws), ids, sessions, offset, second),
        0 <= n <= sessions.len(),
    ensures
        first[n] == second[n],
    decreases n,
{
    if n > 0 {
        let later = apply_all(store, ws);
        let front = sessions.take(n - 1);
        let s = sessions[n - 1];
        let before = sweep_all(store, ids, front, offset);
        lemma_counts_stay(store, ws, ids, sessions, offset, first, second, n - 1);
        lemma_sweep_stays(store, ws, ids, front, offset);
        lemma_rows_stay(store, ws, ids, s.session_id);
        lemma_rows_stay(store, before, ids, s.session_id);
        lemma_rows_stay(later, before, ids, s.session_id);
        assert(session_counts(
            apply_all(store, before),
            ids,
            s,
            offset,
            first[n - 1],
            first[n - 1 + 1],
        ));
        assert(session_counts(
            apply_all(later, before),
            ids,
            s,
            offset,
            second[n - 1],
            second[n - 1 + 1],
        ));
    }
}

/// Sweeping twice is sweeping once: where neither the transcripts nor the prompts changed, a second
/// sweep over all sessions writes the same, counts the same, and leaves everything as it was.
pub proof fn sweeping_again_changes_nothing(
    store: Store,
    ids: Seq<i64>,
    sessions: Seq<FoundSession>,
    offset: i64,
    first: Seq<IngestStats>,
    second: Seq<IngestStats>,
)
    requires
        sweep_counts(store, ids, sessions, offset, first),
        sweep_counts(
            apply_all(store, sweep_all(store, ids, sessions, offset)),
            ids,
            sessions,
            offset,
            second,
        ),
    ensures
        second == first,
        ({
            let after = apply_all(store, sweep_all(store, ids, sessions, offset));
            let again = sweep_all(after, ids, sessions, offset);
            &&& again == sweep_all(store, ids, sessions, offset)
            &&& apply_all(after, again) == after
        }),
{
    let ws = sweep_all(store, ids, sessions, offset);
    lemma_sweep_stays(store, ws, ids, sessions, offset);
    assert forall|n: int| 0 <= n < first.len() implies first[n] == second[n] by {
        lemma_counts_stay(store, ws, ids, sessions, offset, first, second, n);
    }
    assert(second =~= first);
    collecting_is_idempotent(store, ws);
}

} // verus!
