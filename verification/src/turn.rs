//! Turns: what happened from one typed prompt to the next.

use vstd::prelude::*;

use crate::owner::{by_event, owners_view, Owner, OwnerView};
use crate::segment::{
    block_segment, block_segments, folded, injected_label, segments, segments_of, segs_view,
    Segment, SegmentView,
};
use crate::json::JsonView;
use crate::transcript::{evs_view, Ev, EvView};

verus! {

// ---------------------------------------------------------------------------------------------
// What a turn is
// ---------------------------------------------------------------------------------------------

/// The owners that stand for a typed prompt. An injected event starts no turn.
pub open spec fn humans(owners: Seq<OwnerView>) -> Seq<OwnerView>
    decreases owners.len(),
{
    if owners.len() == 0 {
        Seq::empty()
    } else {
        let before = humans(owners.drop_last());
        if owners.last().is_system {
            before
        } else {
            before.push(owners.last())
        }
    }
}

/// The segments of the events from `start` up to `end`, of which the first owns the turn.
pub open spec fn turn_segments(evs: Seq<EvView>, start: int, end: int) -> Seq<SegmentView>
    decreases end - start,
{
    if end <= start {
        Seq::empty()
    } else {
        turn_segments(evs, start, end - 1) + segments(evs[end - 1], end - 1 == start)
    }
}

/// Where the turn of the n-th typed prompt ends: at the next one, or with the transcript.
pub open spec fn turn_end(len: int, typed: Seq<OwnerView>, n: int) -> int {
    if n + 1 < typed.len() {
        typed[n + 1].ev_idx
    } else {
        len
    }
}

/// The turns: for each typed prompt its row, and the segments of everything up to the next one.
/// Whatever lies between is folded into the turn.
pub open spec fn turns(evs: Seq<EvView>, owners: Seq<OwnerView>) -> Seq<(i64, Seq<SegmentView>)> {
    let typed = humans(owners);
    Seq::new(
        typed.len(),
        |n: int|
            (
                typed[n].row_id,
                turn_segments(evs, typed[n].ev_idx, turn_end(evs.len() as int, typed, n)),
            ),
    )
}

/// Whether no turn reaches beyond the transcript.
pub open spec fn turns_fit(len: int, typed: Seq<OwnerView>) -> bool {
    forall|n: int|
        0 <= n < typed.len() && (#[trigger] typed[n]).ev_idx < turn_end(len, typed, n) ==> turn_end(
            len,
            typed,
            n,
        ) <= len
}

/// What the turns of a list say.
pub open spec fn turns_view(turns: Seq<(i64, Vec<Segment>)>) -> Seq<(i64, Seq<SegmentView>)> {
    turns.map_values(|t: (i64, Vec<Segment>)| (t.0, segs_view(t.1@)))
}

// ---------------------------------------------------------------------------------------------
// Building them
// ---------------------------------------------------------------------------------------------

/// The events of the owners that stand for a typed prompt, and their rows.
fn typed_of(owners: &[Owner]) -> (r: Vec<(i64, usize)>)
    ensures
        r@.len() == humans(owners_view(owners@)).len(),
        forall|n: int|
            0 <= n < r@.len() ==> (#[trigger] r@[n]).0 == humans(owners_view(owners@))[n].row_id
                && r@[n].1 == humans(owners_view(owners@))[n].ev_idx,
{
    let ghost all = owners_view(owners@);
    let mut out: Vec<(i64, usize)> = Vec::new();
    let mut i: usize = 0;
    while i < owners.len()
        invariant
            i <= owners@.len(),
            all == owners_view(owners@),
            out@.len() == humans(all.take(i as int)).len(),
            forall|n: int|
                0 <= n < out@.len() ==> (#[trigger] out@[n]).0 == humans(
                    all.take(i as int),
                )[n].row_id && out@[n].1 == humans(all.take(i as int))[n].ev_idx,
        decreases owners@.len() - i,
    {
        proof {
            assert(all.take(i + 1).drop_last() =~= all.take(i as int));
            assert(all.take(i + 1).last() == owners@[i as int]@);
        }
        if !owners[i].is_system {
            out.push((owners[i].row_id, owners[i].ev_idx));
        }
        i = i + 1;
    }
    proof {
        assert(all.take(all.len() as int) =~= all);
    }
    out
}

/// The segments of the events from `start` up to `end`, of which the first owns the turn.
fn segments_between(evs: &[Ev], start: usize, end: usize) -> (r: Vec<Segment>)
    requires
        start < end ==> end <= evs@.len(),
    ensures
        segs_view(r@) == turn_segments(evs_view(evs@), start as int, end as int),
{
    let mut out: Vec<Segment> = Vec::new();
    let mut i: usize = start;
    proof {
        assert(segs_view(out@) =~= turn_segments(evs_view(evs@), start as int, start as int));
    }
    while i < end
        invariant
            start < end ==> end <= evs@.len(),
            start <= i,
            i <= end || i == start,
            segs_view(out@) == turn_segments(evs_view(evs@), start as int, i as int),
        decreases end - i,
    {
        let ghost before = segs_view(out@);
        let mut more = segments_of(&evs[i], i == start);
        let ghost added = segs_view(more@);
        out.append(&mut more);
        proof {
            assert(segs_view(out@) =~= before + added);
            assert(evs_view(evs@)[i as int] == evs@[i as int]@);
        }
        i = i + 1;
    }
    out
}

/// The turns of a transcript. Only a typed prompt starts one; notifications, commands, bash lines
/// and interrupts in between are folded into the turn that they interrupt.
pub fn build_turns(evs: &[Ev], owners: &[Owner]) -> (r: Vec<(i64, Vec<Segment>)>)
    requires
        turns_fit(evs@.len() as int, humans(owners_view(owners@))),
    ensures
        turns_view(r@) == turns(evs_view(evs@), owners_view(owners@)),
{
    let ghost typed = humans(owners_view(owners@));
    let starts = typed_of(owners);
    let mut out: Vec<(i64, Vec<Segment>)> = Vec::new();
    let mut n: usize = 0;
    while n < starts.len()
        invariant
            typed == humans(owners_view(owners@)),
            turns_fit(evs@.len() as int, typed),
            starts@.len() == typed.len(),
            forall|n: int|
                0 <= n < starts@.len() ==> (#[trigger] starts@[n]).0 == typed[n].row_id
                    && starts@[n].1 == typed[n].ev_idx,
            n <= starts@.len(),
            turns_view(out@) == turns(evs_view(evs@), owners_view(owners@)).take(n as int),
        decreases starts@.len() - n,
    {
        let start: usize = starts[n].1;
        let end: usize = if n + 1 < starts.len() {
            starts[n + 1].1
        } else {
            evs.len()
        };
        proof {
            assert(typed[n as int].ev_idx == start);
            assert(end == turn_end(evs@.len() as int, typed, n as int));
        }
        let segs = segments_between(evs, start, end);
        let ghost before = turns_view(out@);
        let ghost added = (starts@[n as int].0, segs_view(segs@));
        out.push((starts[n].0, segs));
        proof {
            assert(turns_view(out@) =~= before.push(added));
            let all = turns(evs_view(evs@), owners_view(owners@));
            assert(all[n as int] == added);
            assert(all.take(n + 1) =~= all.take(n as int).push(added));
        }
        n = n + 1;
    }
    proof {
        let all = turns(evs_view(evs@), owners_view(owners@));
        assert(all.take(all.len() as int) =~= all);
    }
    out
}

// ---------------------------------------------------------------------------------------------
// Laws
// ---------------------------------------------------------------------------------------------

/// The typed owners are owners, in the same order, and all those that are not injected.
pub proof fn humans_are_the_typed_owners(owners: Seq<OwnerView>)
    ensures
        forall|n: int|
            0 <= n < humans(owners).len() ==> !(#[trigger] humans(owners)[n]).is_system
                && owners.contains(humans(owners)[n]),
        forall|a: int|
            0 <= a < owners.len() && !(#[trigger] owners[a]).is_system ==> humans(owners).contains(
                owners[a],
            ),
        by_event(owners) ==> by_event(humans(owners)),
    decreases owners.len(),
{
    if owners.len() > 0 {
        let front = owners.drop_last();
        let before = humans(front);
        let all = humans(owners);
        humans_are_the_typed_owners(front);
        assert forall|n: int| 0 <= n < all.len() implies !(#[trigger] all[n]).is_system
            && owners.contains(all[n]) by {
            if n < before.len() {
                assert(all[n] == before[n]);
                let a = choose|a: int| 0 <= a < front.len() && front[a] == before[n];
                assert(owners[a] == all[n]);
            } else {
                assert(owners[owners.len() - 1] == all[n]);
            }
        }
        assert forall|a: int| 0 <= a < owners.len() && !(
        #[trigger] owners[a]).is_system implies all.contains(owners[a]) by {
            if a < front.len() {
                assert(front[a] == owners[a]);
                let n = choose|n: int| 0 <= n < before.len() && before[n] == front[a];
                assert(all[n] == owners[a]);
            } else {
                assert(all[all.len() - 1] == owners[a]);
            }
        }
        if by_event(owners) {
            assert(by_event(front)) by {
                assert forall|a: int, b: int| 0 <= a < b < front.len() implies (
                #[trigger] front[a]).ev_idx < (#[trigger] front[b]).ev_idx by {
                    assert(owners[a].ev_idx < owners[b].ev_idx);
                }
            }
            assert forall|a: int, b: int| 0 <= a < b < all.len() implies (#[trigger] all[a]).ev_idx
                < (#[trigger] all[b]).ev_idx by {
                assert(all[a] == before[a]);
                if b < before.len() {
                    assert(all[b] == before[b]);
                } else {
                    assert(front.contains(before[a]));
                    let x = choose|x: int| 0 <= x < front.len() && front[x] == before[a];
                    assert(owners[x].ev_idx < owners[owners.len() - 1].ev_idx);
                }
            }
        }
    }
}

/// Whether one of the typed prompts has the event at place `i`.
pub open spec fn is_typed_event(typed: Seq<OwnerView>, i: int) -> bool {
    exists|n: int| 0 <= n < typed.len() && (#[trigger] typed[n]).ev_idx == i
}

/// The segments of the events from `from` up to `to`, in order, each event once.
pub open spec fn story(evs: Seq<EvView>, typed: Seq<OwnerView>, from: int, to: int) -> Seq<
    SegmentView,
>
    decreases to - from,
{
    if to <= from {
        Seq::empty()
    } else {
        story(evs, typed, from, to - 1) + segments(evs[to - 1], is_typed_event(typed, to - 1))
    }
}

/// The segments of the first `n` turns, one turn after another.
pub open spec fn told(all: Seq<(i64, Seq<SegmentView>)>, n: int) -> Seq<SegmentView>
    decreases n,
{
    if n <= 0 {
        Seq::empty()
    } else {
        told(all, n - 1) + all[n - 1].1
    }
}

/// Nothing is lost and nothing told twice: the turns one after another are the segments of all
/// events from the first typed prompt on.
pub proof fn turns_tell_the_whole_story(evs: Seq<EvView>, owners: Seq<OwnerView>)
    requires
        by_event(owners),
        humans(owners).len() > 0,
        forall|a: int| 0 <= a < owners.len() ==> 0 <= (#[trigger] owners[a]).ev_idx < evs.len(),
    ensures
        told(turns(evs, owners), humans(owners).len() as int) == story(
            evs,
            humans(owners),
            humans(owners)[0].ev_idx,
            evs.len() as int,
        ),
{
    let typed = humans(owners);
    humans_are_the_typed_owners(owners);
    assert forall|n: int| 0 <= n < typed.len() implies 0 <= (#[trigger] typed[n]).ev_idx
        < evs.len() by {
        assert(owners.contains(typed[n]));
        let a = choose|a: int| 0 <= a < owners.len() && owners[a] == typed[n];
        assert(0 <= owners[a].ev_idx < evs.len());
    }
    lemma_told_so_far(evs, owners, typed.len() as int);
    assert(turn_end(evs.len() as int, typed, typed.len() - 1) == evs.len());
}

/// The first `n` turns tell the story up to where the n-th ends.
proof fn lemma_told_so_far(evs: Seq<EvView>, owners: Seq<OwnerView>, n: int)
    requires
        by_event(humans(owners)),
        1 <= n <= humans(owners).len(),
        forall|k: int|
            0 <= k < humans(owners).len() ==> 0 <= (#[trigger] humans(owners)[k]).ev_idx
                < evs.len(),
    ensures
        told(turns(evs, owners), n) == story(
            evs,
            humans(owners),
            humans(owners)[0].ev_idx,
            turn_end(evs.len() as int, humans(owners), n - 1),
        ),
    decreases n,
{
    let typed = humans(owners);
    let all = turns(evs, owners);
    let from = typed[0].ev_idx;
    let start = typed[n - 1].ev_idx;
    let end = turn_end(evs.len() as int, typed, n - 1);
    assert(start < end) by {
        if n < typed.len() {
            assert(typed[n - 1].ev_idx < typed[n].ev_idx);
        }
    }
    if n == 1 {
        assert(told(all, 0) =~= Seq::empty());
        assert(story(evs, typed, from, from) =~= Seq::empty());
    } else {
        lemma_told_so_far(evs, owners, n - 1);
        assert(typed[0].ev_idx <= typed[n - 1].ev_idx);
    }
    lemma_turn_in_story(evs, typed, n - 1, end);
    assert(story(evs, typed, from, start) + turn_segments(evs, start, end) =~= told(all, n));
}

/// A turn continues the story.
proof fn lemma_turn_in_story(evs: Seq<EvView>, typed: Seq<OwnerView>, n: int, to: int)
    requires
        by_event(typed),
        0 <= n < typed.len(),
        typed[n].ev_idx <= to <= turn_end(evs.len() as int, typed, n),
    ensures
        story(evs, typed, typed[0].ev_idx, to) == story(
            evs,
            typed,
            typed[0].ev_idx,
            typed[n].ev_idx,
        ) + turn_segments(evs, typed[n].ev_idx, to),
    decreases to - typed[n].ev_idx,
{
    let from = typed[0].ev_idx;
    let start = typed[n].ev_idx;
    assert(from <= start);
    if to == start {
        assert(turn_segments(evs, start, to) =~= Seq::empty());
        assert(story(evs, typed, from, to) =~= story(evs, typed, from, start) + turn_segments(
            evs,
            start,
            to,
        ));
    } else {
        lemma_turn_in_story(evs, typed, n, to - 1);
        assert(is_typed_event(typed, to - 1) == (to - 1 == start)) by {
            if is_typed_event(typed, to - 1) {
                let m = choose|m: int|
                    0 <= m < typed.len() && (#[trigger] typed[m]).ev_idx == to - 1;
                if m < n {
                    assert(typed[m].ev_idx < typed[n].ev_idx);
                } else if m > n {
                    assert(typed[n + 1].ev_idx <= typed[m].ev_idx);
                }
            }
            assert(typed[n].ev_idx == start);
        }
        assert(story(evs, typed, from, to) =~= story(evs, typed, from, start) + turn_segments(
            evs,
            start,
            to,
        ));
    }
}

/// Whatever label an event gets that is folded into a turn, the segment holds its whole text.
pub proof fn folding_keeps_the_text(ev: EvView, block_idx: int, text: Seq<char>)
    ensures
        folded(ev, block_idx, text).body == text,
        folded(ev, block_idx, text).kind == injected_label(ev, text).0,
        folded(ev, block_idx, text).name == injected_label(ev, text).1,
{
}

/// Where a transcript grows, the turns before the last stay as they are and the last one goes on.
pub proof fn growth_extends_the_last_turn(
    evs: Seq<EvView>,
    more: Seq<EvView>,
    owners: Seq<OwnerView>,
    n: int,
)
    requires
        by_event(owners),
        forall|a: int| 0 <= a < owners.len() ==> 0 <= (#[trigger] owners[a]).ev_idx < evs.len(),
        0 <= n < humans(owners).len(),
    ensures
        turns(evs + more, owners)[n].0 == turns(evs, owners)[n].0,
        n < humans(owners).len() - 1 ==> turns(evs + more, owners)[n] == turns(evs, owners)[n],
        turns(evs, owners)[n].1.is_prefix_of(turns(evs + more, owners)[n].1),
{
    let typed = humans(owners);
    humans_are_the_typed_owners(owners);
    assert forall|k: int| 0 <= k < typed.len() implies 0 <= (#[trigger] typed[k]).ev_idx
        < evs.len() by {
        assert(owners.contains(typed[k]));
        let a = choose|a: int| 0 <= a < owners.len() && owners[a] == typed[k];
        assert(0 <= owners[a].ev_idx < evs.len());
    }
    let start = typed[n].ev_idx;
    let end = turn_end(evs.len() as int, typed, n);
    let later = turn_end((evs + more).len() as int, typed, n);
    if n < typed.len() - 1 {
        assert(typed[n + 1].ev_idx < evs.len());
    }
    lemma_same_events(evs, evs + more, start, end);
    lemma_longer_turn(evs + more, start, end, later);
}

/// A turn depends on its own events only.
proof fn lemma_same_events(a: Seq<EvView>, b: Seq<EvView>, start: int, end: int)
    requires
        0 <= start,
        end <= a.len() <= b.len(),
        forall|i: int| 0 <= i < a.len() ==> a[i] == b[i],
    ensures
        turn_segments(a, start, end) == turn_segments(b, start, end),
    decreases end - start,
{
    if start < end {
        lemma_same_events(a, b, start, end - 1);
    }
}

/// A longer turn starts with the shorter one.
proof fn lemma_longer_turn(evs: Seq<EvView>, start: int, end: int, later: int)
    requires
        end <= later,
    ensures
        turn_segments(evs, start, end).is_prefix_of(turn_segments(evs, start, later)),
    decreases later - end,
{
    if end < later {
        lemma_longer_turn(evs, start, end, later - 1);
    }
}

// ---------------------------------------------------------------------------------------------
// The merge key
// ---------------------------------------------------------------------------------------------

/// What tells the segments of a turn apart: the event and the block that a segment came from.
pub open spec fn merge_key(s: SegmentView) -> (Seq<char>, i64) {
    (s.src_uuid, s.block_idx)
}

/// Whether no two segments have the same merge key.
pub open spec fn keys_distinct(segs: Seq<SegmentView>) -> bool {
    forall|a: int, b: int|
        0 <= a < b < segs.len() ==> merge_key(#[trigger] segs[a]) != merge_key(#[trigger] segs[b])
}

/// The number of blocks of an event.
pub open spec fn block_total(ev: EvView) -> int {
    match ev.content {
        JsonView::List(blocks) => blocks.len() as int,
        _ => 1,
    }
}

/// The segments of an event's blocks come from that event and have rising block numbers.
proof fn lemma_block_keys(ev: EvView, blocks: Seq<JsonView>, is_owner: bool)
    requires
        blocks.len() <= i64::MAX,
    ensures
        forall|a: int|
            0 <= a < block_segments(ev, blocks, is_owner).len() ==> (#[trigger] block_segments(
                ev,
                blocks,
                is_owner,
            )[a]).src_uuid == ev.uuid && block_segments(ev, blocks, is_owner)[a].block_idx
                < blocks.len(),
        keys_distinct(block_segments(ev, blocks, is_owner)),
    decreases blocks.len(),
{
    if blocks.len() > 0 {
        let front = blocks.drop_last();
        let before = block_segments(ev, front, is_owner);
        let all = block_segments(ev, blocks, is_owner);
        lemma_block_keys(ev, front, is_owner);
        let last = block_segment(ev, blocks.len() - 1, blocks.last(), is_owner);
        assert(last matches Some(s) ==> s.src_uuid == ev.uuid && s.block_idx == blocks.len() - 1);
        assert forall|a: int| 0 <= a < all.len() implies (#[trigger] all[a]).src_uuid == ev.uuid
            && all[a].block_idx < blocks.len() by {
            if a < before.len() {
                assert(all[a] == before[a]);
            }
        }
        assert forall|a: int, b: int| 0 <= a < b < all.len() implies merge_key(#[trigger] all[a])
            != merge_key(#[trigger] all[b]) by {
            assert(all[a] == before[a]);
            if b < before.len() {
                assert(all[b] == before[b]);
            }
        }
    }
}

/// The segments of an event come from that event and have different keys.
proof fn lemma_event_keys(ev: EvView, is_owner: bool)
    requires
        block_total(ev) <= i64::MAX,
    ensures
        forall|a: int|
            0 <= a < segments(ev, is_owner).len() ==> (#[trigger] segments(
                ev,
                is_owner,
            )[a]).src_uuid == ev.uuid,
        keys_distinct(segments(ev, is_owner)),
{
    match ev.content {
        JsonView::List(blocks) => {
            lemma_block_keys(ev, blocks, is_owner);
        },
        _ => {},
    }
}

/// Where no two events of a turn have the same uuid, no two of its segments have the same merge
/// key: merging them by that key loses none.
pub proof fn merge_keys_are_distinct(evs: Seq<EvView>, start: int, end: int)
    requires
        0 <= start,
        end <= evs.len(),
        forall|i: int| start <= i < end ==> block_total(#[trigger] evs[i]) <= i64::MAX,
        forall|i: int, j: int|
            start <= i < j < end ==> (#[trigger] evs[i]).uuid != (#[trigger] evs[j]).uuid,
    ensures
        keys_distinct(turn_segments(evs, start, end)),
{
    lemma_turn_keys(evs, start, end);
}

/// The segments of a turn come from its events and have different keys.
proof fn lemma_turn_keys(evs: Seq<EvView>, start: int, end: int)
    requires
        0 <= start,
        end <= evs.len(),
        forall|i: int| start <= i < end ==> block_total(#[trigger] evs[i]) <= i64::MAX,
        forall|i: int, j: int|
            start <= i < j < end ==> (#[trigger] evs[i]).uuid != (#[trigger] evs[j]).uuid,
    ensures
        keys_distinct(turn_segments(evs, start, end)),
        forall|a: int|
            0 <= a < turn_segments(evs, start, end).len() ==> is_uuid_between(
                evs,
                start,
                end,
                (#[trigger] turn_segments(evs, start, end)[a]).src_uuid,
            ),
    decreases end - start,
{
    if start < end {
        let before = turn_segments(evs, start, end - 1);
        let last = segments(evs[end - 1], end - 1 == start);
        let all = turn_segments(evs, start, end);
        lemma_turn_keys(evs, start, end - 1);
        lemma_event_keys(evs[end - 1], end - 1 == start);
        assert forall|a: int| 0 <= a < all.len() implies is_uuid_between(
            evs,
            start,
            end,
            (#[trigger] all[a]).src_uuid,
        ) by {
            if a < before.len() {
                assert(all[a] == before[a]);
                let i = choose|i: int|
                    start <= i < end - 1 && (#[trigger] evs[i]).uuid == before[a].src_uuid;
                assert(evs[i].uuid == all[a].src_uuid);
            } else {
                assert(all[a] == last[a - before.len()]);
                assert(evs[end - 1].uuid == all[a].src_uuid);
            }
        }
        assert forall|a: int, b: int| 0 <= a < b < all.len() implies merge_key(#[trigger] all[a])
            != merge_key(#[trigger] all[b]) by {
            if b < before.len() {
                assert(all[a] == before[a]);
                assert(all[b] == before[b]);
            } else {
                assert(all[b] == last[b - before.len()]);
                if a < before.len() {
                    assert(all[a] == before[a]);
                    let i = choose|i: int|
                        start <= i < end - 1 && (#[trigger] evs[i]).uuid == before[a].src_uuid;
                    assert(evs[i].uuid != evs[end - 1].uuid);
                } else {
                    assert(all[a] == last[a - before.len()]);
                }
            }
        }
    }
}

/// Whether one of the events from `start` up to `end` has the uuid.
pub open spec fn is_uuid_between(evs: Seq<EvView>, start: int, end: int, uuid: Seq<char>) -> bool {
    exists|i: int| start <= i < end && (#[trigger] evs[i]).uuid == uuid
}

} // verus!
