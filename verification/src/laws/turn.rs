//! Laws of turns: what belongs to which prompt.

use vstd::prelude::*;

use crate::owner::{by_event, OwnerView};
use crate::segment::{segments, SegmentView};
use crate::transcript::EvView;
use crate::turn::{humans, humans_are_the_typed_owners, turn_end, turn_segments, turns};

verus! {

/// What an event says stands in the turn behind what came before it.
proof fn lemma_event_in_turn(evs: Seq<EvView>, start: int, e: int, end: int) -> (after: Seq<
    SegmentView,
>)
    requires
        start <= e < end,
    ensures
        turn_segments(evs, start, end) == turn_segments(evs, start, e) + segments(
            evs[e],
            e == start,
        ) + after,
    decreases end - e,
{
    if e == end - 1 {
        let after = Seq::<SegmentView>::empty();
        assert(turn_segments(evs, start, end) =~= turn_segments(evs, start, e) + segments(
            evs[e],
            e == start,
        ) + after);
        after
    } else {
        let before = lemma_event_in_turn(evs, start, e, end - 1);
        let after = before + segments(evs[end - 1], false);
        assert(turn_segments(evs, start, end) =~= turn_segments(evs, start, e) + segments(
            evs[e],
            e == start,
        ) + after);
        after
    }
}

/// Whether no typed prompt has an event from `from` up to `to`.
pub open spec fn has_no_prompt_in(owners: Seq<OwnerView>, from: int, to: int) -> bool {
    forall|a: int|
        0 <= a < owners.len() && !(#[trigger] owners[a]).is_system ==> !(from <= owners[a].ev_idx
            < to)
}

/// Whether the turn of a typed prompt at event `start` ends at `end`: the next typed prompt is there, or
/// there is none.
pub open spec fn ends_at(owners: Seq<OwnerView>, start: int, end: int, len: int) -> bool {
    &&& start < end <= len
    &&& has_no_prompt_in(owners, start + 1, end)
    &&& end == len || exists|a: int|
        0 <= a < owners.len() && !(#[trigger] owners[a]).is_system && owners[a].ev_idx == end
}

/// Where the turn of the n-th typed prompt ends.
proof fn lemma_end(owners: Seq<OwnerView>, n: int, end: int, len: int)
    requires
        by_event(owners),
        0 <= n < humans(owners).len(),
        forall|a: int| 0 <= a < owners.len() ==> 0 <= (#[trigger] owners[a]).ev_idx < len,
        ends_at(owners, humans(owners)[n].ev_idx, end, len),
    ensures
        turn_end(len, humans(owners), n) == end,
{
    let typed = humans(owners);
    humans_are_the_typed_owners(owners);
    let start = typed[n].ev_idx;
    if n + 1 < typed.len() {
        let next = typed[n + 1];
        assert(owners.contains(next));
        let a = choose|a: int| 0 <= a < owners.len() && owners[a] == next;
        assert(!owners[a].is_system);
        assert(typed[n].ev_idx < typed[n + 1].ev_idx);
        assert(!(start + 1 <= owners[a].ev_idx < end));
        assert(owners[a].ev_idx < len);
        let b = choose|b: int|
            0 <= b < owners.len() && !(#[trigger] owners[b]).is_system && owners[b].ev_idx == end;
        assert(typed.contains(owners[b]));
        let m = choose|m: int| 0 <= m < typed.len() && typed[m] == owners[b];
        if m <= n {
            if m < n {
                assert(typed[m].ev_idx < typed[n].ev_idx);
            }
        } else if m > n + 1 {
            assert(typed[n + 1].ev_idx < typed[m].ev_idx);
        }
    } else if end < len {
        let b = choose|b: int|
            0 <= b < owners.len() && !(#[trigger] owners[b]).is_system && owners[b].ev_idx == end;
        assert(typed.contains(owners[b]));
        let m = choose|m: int| 0 <= m < typed.len() && typed[m] == owners[b];
        if m < n {
            assert(typed[m].ev_idx < typed[n].ev_idx);
        }
    }
}

/// Every typed prompt has one turn, under its row, and in it stands what every event says that comes from
/// the prompt on and before the next typed prompt, in order and unchanged; of the prompt's own event
/// what owns the turn is left out.
pub proof fn a_turn_holds_every_event_up_to_the_next_prompt(
    evs: Seq<EvView>,
    owners: Seq<OwnerView>,
    a: int,
    end: int,
    e: int,
) -> (r: (int, Seq<SegmentView>, Seq<SegmentView>))
    requires
        by_event(owners),
        forall|b: int| 0 <= b < owners.len() ==> 0 <= (#[trigger] owners[b]).ev_idx < evs.len(),
        0 <= a < owners.len(),
        !owners[a].is_system,
        ends_at(owners, owners[a].ev_idx, end, evs.len() as int),
        owners[a].ev_idx <= e < end,
    ensures
        ({
            let (n, before, after) = r;
            &&& 0 <= n < turns(evs, owners).len()
            &&& turns(evs, owners)[n].0 == owners[a].row_id
            &&& turns(evs, owners)[n].1 == before + segments(evs[e], e == owners[a].ev_idx) + after
            &&& e == owners[a].ev_idx ==> before.len() == 0
            &&& e == end - 1 ==> after.len() == 0
        }),
{
    let typed = humans(owners);
    humans_are_the_typed_owners(owners);
    assert(typed.contains(owners[a]));
    let n = choose|n: int| 0 <= n < typed.len() && typed[n] == owners[a];
    let start = owners[a].ev_idx;
    lemma_end(owners, n, end, evs.len() as int);
    let after = lemma_event_in_turn(evs, start, e, end);
    let before = turn_segments(evs, start, e);
    if e == end - 1 {
        let whole = turn_segments(evs, start, end);
        assert(whole == before + segments(evs[e], e == start));
        assert(whole.len() == before.len() + segments(evs[e], e == start).len() + after.len());
    }
    (n, before, after)
}

/// What two events that follow each other in a turn say stands side by side, with nothing between.
pub proof fn events_of_a_turn_follow_each_other(
    evs: Seq<EvView>,
    start: int,
    e: int,
    end: int,
) -> (r: (Seq<SegmentView>, Seq<SegmentView>))
    requires
        start <= e,
        e + 1 < end,
    ensures
        turn_segments(evs, start, end) == r.0 + segments(evs[e], e == start) + segments(
            evs[e + 1],
            false,
        ) + r.1,
{
    let after = lemma_event_in_turn(evs, start, e + 1, end);
    let before = turn_segments(evs, start, e);
    assert(turn_segments(evs, start, e + 1) == before + segments(evs[e], e == start));
    (before, after)
}

/// There are as many turns as typed prompts: an injected event has none.
pub proof fn injected_events_have_no_turn(evs: Seq<EvView>, owners: Seq<OwnerView>, n: int)
    requires
        0 <= n < turns(evs, owners).len(),
    ensures
        exists|a: int|
            0 <= a < owners.len() && !(#[trigger] owners[a]).is_system && owners[a].row_id
                == turns(evs, owners)[n].0,
{
    let typed = humans(owners);
    humans_are_the_typed_owners(owners);
    assert(owners.contains(typed[n]));
    let a = choose|a: int| 0 <= a < owners.len() && owners[a] == typed[n];
    assert(!typed[n].is_system);
    assert(!owners[a].is_system);
}

} // verus!
