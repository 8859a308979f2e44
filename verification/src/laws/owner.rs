//! Laws of owners: which event a logged prompt gets.

use vstd::prelude::*;

use crate::owner::{
    agrees, first_of_turn, first_with_uuid, is_taken, prompt_events, rows_of_turn, OwnerView, RowView,
    Session,
};
use crate::text::{contains, head, normal, starts_with, trim};
use crate::transcript::{content_text, prompt_like, EvView};
use crate::laws::text::{heads_are_beginnings, holding_is_having_as_a_part, trimming_takes_white_space};

verus! {

// ---------------------------------------------------------------------------------------------
// Time and text
// ---------------------------------------------------------------------------------------------

/// Whether event `i` is a user event of some turn that nobody has.
pub open spec fn is_open(session: Session, i: int, others: Seq<OwnerView>) -> bool {
    &&& 0 <= i < session.evs.len()
    &&& session.evs[i].etype == "user"@
    &&& session.evs[i].turn_id is Some
    &&& forall|a: int| 0 <= a < others.len() ==> (#[trigger] others[a]).ev_idx != i
}

/// Whether event `i` came at most half a minute before or after row `k` was logged.
pub open spec fn is_close(session: Session, k: int, i: int) -> bool {
    match (session.row_times[k], session.ev_times[i]) {
        (Some(logged), Some(t)) => {
            let passed = t - (logged - session.offset);
            -30 <= passed <= 30
        },
        _ => false,
    }
}

/// How many seconds event `i` came after row `k` was logged.
pub open spec fn passed(session: Session, k: int, i: int) -> int {
    session.ev_times[i]->0 - (session.row_times[k]->0 - session.offset)
}

/// Whether event `i` is nearer in time to row `k` than event `j`.
pub open spec fn is_nearer(session: Session, k: int, i: int, j: int) -> bool {
    let a = passed(session, k, i);
    let b = passed(session, k, j);
    (a < b && -a < b) || (a < -b && -a < -b)
}

/// Whether the text of an event says how the prompt begins.
pub open spec fn says(ev: EvView, prompt: Seq<char>) -> bool {
    let p = normal(prompt);
    p.len() > 0 && contains(normal(content_text(ev.content)), trim(head(p, 24)))
}

/// Whether neither the hook's key nor an earlier run says anything of row `k`: it has no key or one
/// that no event has, and no event that was found for it, or one that is gone.
pub open spec fn is_without_evidence(session: Session, k: int) -> bool {
    let row = session.rows[k];
    &&& row.cc_turn_id matches Some(turn) ==> turn.len() == 0 || forall|i: int|
        0 <= i < session.evs.len() ==> (#[trigger] session.evs[i]).turn_id != Some(turn)
    &&& row.msg_uuid matches Some(uuid) ==> uuid.len() == 0 || forall|i: int|
        0 <= i < session.evs.len() ==> (#[trigger] session.evs[i]).uuid != uuid
}

/// What an owner's window is in terms of open and close events.
proof fn lemma_window(session: Session, k: int, i: int, others: Seq<OwnerView>)
    ensures
        session.in_window(k, i, others) <==> is_open(session, i, others) && is_close(session, k, i),
{
    if is_open(session, i, others) {
        if is_taken(others, i) {
            let a = choose|a: int| 0 <= a < others.len() && (#[trigger] others[a]).ev_idx == i;
            assert(others[a].ev_idx != i);
        }
    }
}

/// What fitting by text means.
proof fn lemma_fits(session: Session, k: int, i: int)
    ensures
        session.text_fits(k, i) <==> says(session.evs[i], session.rows[k].prompt),
{
    let p = normal(session.rows[k].prompt);
    let b = head(p, 24);
    let txt = normal(content_text(session.evs[i].content));
    if starts_with(txt, b) {
        holding_is_having_as_a_part(txt, b);
        holding_is_having_as_a_part(txt, trim(b));
        trimming_takes_white_space(b);
        let rest = choose|rest: Seq<char>| txt == #[trigger] (b + rest);
        let (lead, tail) = choose|lead: Seq<char>, tail: Seq<char>|
            b == #[trigger] (lead + trim(b) + tail) && crate::text::blank(lead)
                && crate::text::blank(tail);
        assert(txt =~= lead + trim(b) + (tail + rest));
        assert(contains(txt, trim(b)));
    }
}

/// Where an event is in the window of a row, one of the events fits it best.
proof fn lemma_some_fits_best(
    session: Session,
    k: int,
    others: Seq<OwnerView>,
    i: int,
    n: int,
) -> (b: int)
    requires
        0 <= i < n,
        session.in_window(k, i, others),
    ensures
        0 <= b < n,
        session.in_window(k, b, others),
        forall|j: int|
            0 <= j < n && #[trigger] session.in_window(k, j, others) ==> session.score(k, b)
                < session.score(k, j) || (session.score(k, b) == session.score(k, j) && b <= j),
    decreases n,
{
    let last = n - 1;
    if i == last {
        if exists|j: int| 0 <= j < last && #[trigger] session.in_window(k, j, others) {
            let j = choose|j: int| 0 <= j < last && #[trigger] session.in_window(k, j, others);
            let c = lemma_some_fits_best(session, k, others, j, last);
            if session.score(k, last) < session.score(k, c) {
                last
            } else {
                c
            }
        } else {
            last
        }
    } else {
        let c = lemma_some_fits_best(session, k, others, i, last);
        if session.in_window(k, last, others) && session.score(k, last) < session.score(k, c) {
            last
        } else {
            c
        }
    }
}

/// Time and text choose among the open events that came within half a minute, before or after.
proof fn lemma_chosen(session: Session, k: int, others: Seq<OwnerView>)
    ensures
        match session.fuzzy_event(k, others) {
            Some(i) => session.fits_best(k, i, others),
            None => forall|i: int| !(#[trigger] session.in_window(k, i, others)),
        },
{
    if exists|i: int| #[trigger] session.in_window(k, i, others) {
        let i = choose|i: int| #[trigger] session.in_window(k, i, others);
        let b = lemma_some_fits_best(session, k, others, i, session.evs.len() as int);
        assert(session.fits_best(k, b, others));
    } else {
        if exists|i: int| session.fits_best(k, i, others) {
            let i = choose|i: int| session.fits_best(k, i, others);
            assert(session.in_window(k, i, others));
        }
    }
}

/// Where there is no evidence, key and earlier event are silent.
proof fn lemma_silent(session: Session, k: int, others: Seq<OwnerView>)
    requires
        is_without_evidence(session, k),
    ensures
        session.key_verdict(k, others) is Silent,
        session.uuid_event(k, others) is None,
{
    match session.rows[k].cc_turn_id {
        Some(turn) => {
            if turn.len() > 0 {
                lemma_no_event_of_turn(session.evs, turn);
            }
        },
        None => {},
    }
    match session.rows[k].msg_uuid {
        Some(uuid) => {
            if uuid.len() > 0 {
                lemma_no_event_with(session.evs, uuid);
            }
        },
        None => {},
    }
}

/// Without an event of the turn there is no first one, nor one that looks like a prompt.
proof fn lemma_no_event_of_turn(evs: Seq<EvView>, turn: Seq<char>)
    requires
        forall|i: int| 0 <= i < evs.len() ==> (#[trigger] evs[i]).turn_id != Some(turn),
    ensures
        first_of_turn(evs, turn) is None,
        prompt_events(evs, turn).len() == 0,
    decreases evs.len(),
{
    if evs.len() > 0 {
        let front = evs.drop_last();
        assert forall|i: int| 0 <= i < front.len() implies (#[trigger] front[i]).turn_id != Some(
            turn,
        ) by {
            assert(front[i] == evs[i]);
        }
        lemma_no_event_of_turn(front, turn);
        assert(evs[evs.len() - 1].turn_id != Some(turn));
    }
}

/// Without an event that has the uuid there is no first one.
proof fn lemma_no_event_with(evs: Seq<EvView>, uuid: Seq<char>)
    requires
        forall|i: int| 0 <= i < evs.len() ==> (#[trigger] evs[i]).uuid != uuid,
    ensures
        first_with_uuid(evs, uuid) is None,
    decreases evs.len(),
{
    if evs.len() > 0 {
        let front = evs.drop_last();
        assert forall|i: int| 0 <= i < front.len() implies (#[trigger] front[i]).uuid != uuid by {
            assert(front[i] == evs[i]);
        }
        lemma_no_event_with(front, uuid);
        assert(evs[evs.len() - 1].uuid != uuid);
    }
}

/// A prompt of which nothing else is known gets an event exactly where some open user event came at
/// most half a minute before or after it was logged.
pub proof fn a_close_event_is_found(session: Session, k: int, i: int, others: Seq<OwnerView>)
    requires
        is_without_evidence(session, k),
        is_open(session, i, others),
        is_close(session, k, i),
    ensures
        session.owner_of_row(k, others) is Some,
        session.owner_of_row(k, others)->0.row_id == session.rows[k].id,
        session.owner_of_row(k, others)->0.match_kind == "fuzzy"@,
{
    lemma_silent(session, k, others);
    lemma_chosen(session, k, others);
    lemma_window(session, k, i, others);
    assert(session.in_window(k, i, others));
}

/// A prompt of which nothing else is known gets no event that is not open or is more than half a
/// minute away.
pub proof fn only_a_close_event_is_found(session: Session, k: int, others: Seq<OwnerView>)
    requires
        is_without_evidence(session, k),
        session.owner_of_row(k, others) is Some,
    ensures
        ({
            let o = session.owner_of_row(k, others)->0;
            &&& is_open(session, o.ev_idx, others)
            &&& is_close(session, k, o.ev_idx)
            &&& o.row_id == session.rows[k].id
            &&& o.is_system <==> session.evs[o.ev_idx].origin_kind == Some("task-notification"@)
        }),
{
    lemma_silent(session, k, others);
    lemma_chosen(session, k, others);
    lemma_window(session, k, session.owner_of_row(k, others)->0.ev_idx, others);
}

/// Of the open events within half a minute, one whose text says how the prompt begins is taken before
/// any other, and of those that do, or do not, alike, the nearest in time, and the first of those
/// that are as near.
pub proof fn the_best_event_is_found(session: Session, k: int, i: int, others: Seq<OwnerView>)
    requires
        is_without_evidence(session, k),
        is_open(session, i, others),
        is_close(session, k, i),
    ensures
        ({
            let j = session.owner_of_row(k, others)->0.ev_idx;
            let prompt = session.rows[k].prompt;
            &&& says(session.evs[i], prompt) ==> says(session.evs[j], prompt)
            &&& says(session.evs[i], prompt) == says(session.evs[j], prompt) ==> !is_nearer(
                session,
                k,
                i,
                j,
            )
            &&& says(session.evs[i], prompt) == says(session.evs[j], prompt) && !is_nearer(
                session,
                k,
                j,
                i,
            ) ==> j <= i
        }),
{
    lemma_silent(session, k, others);
    lemma_chosen(session, k, others);
    lemma_window(session, k, i, others);
    let j = session.owner_of_row(k, others)->0.ev_idx;
    lemma_window(session, k, j, others);
    lemma_fits(session, k, i);
    lemma_fits(session, k, j);
    assert(session.in_window(k, i, others));
    assert(session.fits_best(k, j, others));
}

/// What decides by time is how far apart two times are, not which comes first: where every event's
/// time is mirrored at the time of the prompt, the prompt gets the same event.
pub proof fn earlier_and_later_are_alike(a: Session, b: Session, k: int, others: Seq<OwnerView>)
    requires
        a.evs == b.evs,
        a.rows == b.rows,
        a.offset == b.offset,
        a.row_times == b.row_times,
        a.row_times[k] is Some,
        forall|i: int|
            0 <= i < a.evs.len() ==> ((#[trigger] a.ev_times[i]) is Some) == (b.ev_times[i] is Some),
        forall|i: int|
            0 <= i < a.evs.len() && (#[trigger] a.ev_times[i]) is Some ==> a.ev_times[i]->0
                + b.ev_times[i]->0 == 2 * (a.row_times[k]->0 - a.offset),
    ensures
        a.owner_of_row(k, others) == b.owner_of_row(k, others),
{
    assert forall|i: int| a.in_window(k, i, others) == #[trigger] b.in_window(k, i, others) by {
        if 0 <= i < a.evs.len() {
            assert(a.ev_times[i] is Some == b.ev_times[i] is Some);
        }
    }
    assert forall|i: int| #[trigger] b.in_window(k, i, others) implies a.score(k, i) == b.score(
        k,
        i,
    ) by {
        assert(a.ev_times[i] is Some);
    }
    lemma_same_choice(a, b, k, others);
}

/// Where the same events are in the window with the same scores, the same one is chosen.
proof fn lemma_same_choice(a: Session, b: Session, k: int, others: Seq<OwnerView>)
    requires
        forall|i: int| a.in_window(k, i, others) == #[trigger] b.in_window(k, i, others),
        forall|i: int| #[trigger]
            b.in_window(k, i, others) ==> a.score(k, i) == b.score(k, i),
    ensures
        a.fuzzy_event(k, others) == b.fuzzy_event(k, others),
{
    lemma_chosen(a, k, others);
    lemma_chosen(b, k, others);
    match (a.fuzzy_event(k, others), b.fuzzy_event(k, others)) {
        (Some(i), Some(j)) => {
            assert(b.in_window(k, i, others));
            assert(b.in_window(k, j, others));
            assert(a.in_window(k, i, others));
            assert(a.in_window(k, j, others));
        },
        (Some(i), None) => {
            assert(b.in_window(k, i, others));
        },
        (None, Some(j)) => {
            assert(a.in_window(k, j, others));
        },
        (None, None) => {},
    }
}

/// A clock that runs ahead changes nothing, where it is known by how much: adding the same number of
/// seconds to the times of the prompts and to the offset finds the same owners.
pub proof fn the_offset_is_taken_off(a: Session, b: Session, by: int, n: int)
    requires
        a.evs == b.evs,
        a.rows == b.rows,
        a.ev_times == b.ev_times,
        b.offset == a.offset + by,
        0 <= n <= a.rows.len(),
        forall|k: int|
            0 <= k < a.rows.len() ==> ((#[trigger] a.row_times[k]) is Some) == (b.row_times[k]
                is Some),
        forall|k: int|
            0 <= k < a.rows.len() && (#[trigger] a.row_times[k]) is Some ==> b.row_times[k]->0
                == a.row_times[k]->0 + by,
    ensures
        a.owners_found(n) == b.owners_found(n),
    decreases n,
{
    if n > 0 {
        the_offset_is_taken_off(a, b, by, n - 1);
        let k = n - 1;
        let others = a.owners_found(k);
        assert(a.row_times[k] is Some == b.row_times[k] is Some);
        assert forall|i: int| a.in_window(k, i, others) == #[trigger] b.in_window(k, i, others) by {
        }
        assert forall|i: int| #[trigger] b.in_window(k, i, others) implies a.score(k, i)
            == b.score(k, i) by {}
        lemma_same_choice(a, b, k, others);
        assert(a.owner_of_row(k, others) == b.owner_of_row(k, others));
    }
}

// ---------------------------------------------------------------------------------------------
// The key
// ---------------------------------------------------------------------------------------------

/// Whether `places` are, in order, the events of the turn that look like prompts.
pub open spec fn are_prompts_of(evs: Seq<EvView>, turn: Seq<char>, places: Seq<int>) -> bool {
    &&& forall|n: int| 0 <= n < places.len() ==> 0 <= #[trigger] places[n] < evs.len()
    &&& forall|m: int, n: int|
        0 <= m < n < places.len() ==> #[trigger] places[m] < #[trigger] places[n]
    &&& forall|i: int|
        0 <= i < evs.len() ==> (places.contains(i) <==> (#[trigger] evs[i]).turn_id == Some(turn)
            && prompt_like(evs[i]))
}

/// Whether `places` are, in order, the rows before row `k` that were logged in the turn.
pub open spec fn are_rows_of(rows: Seq<RowView>, k: int, turn: Seq<char>, places: Seq<int>) -> bool {
    &&& forall|n: int| 0 <= n < places.len() ==> 0 <= #[trigger] places[n] < k
    &&& forall|m: int, n: int|
        0 <= m < n < places.len() ==> #[trigger] places[m] < #[trigger] places[n]
    &&& forall|i: int|
        0 <= i < k ==> (places.contains(i) <==> (#[trigger] rows[i]).cc_turn_id == Some(turn))
}

/// The events of a turn that look like prompts are those that are listed.
proof fn lemma_prompts_of(evs: Seq<EvView>, turn: Seq<char>, places: Seq<int>)
    requires
        are_prompts_of(evs, turn, places),
    ensures
        prompt_events(evs, turn) == places,
    decreases evs.len(),
{
    if evs.len() == 0 {
        if places.len() > 0 {
            assert(0 <= places[0] < evs.len());
        }
        assert(places =~= prompt_events(evs, turn));
    } else {
        let front = evs.drop_last();
        let last = evs.len() - 1;
        assert(places.contains(last) <==> evs[last].turn_id == Some(turn) && prompt_like(evs[last]));
        if places.contains(last) {
            let p = choose|p: int| 0 <= p < places.len() && places[p] == last;
            if p < places.len() - 1 {
                assert(places[p] < places[places.len() - 1]);
                assert(places[places.len() - 1] < evs.len());
            }
            assert(p == places.len() - 1);
            let rest = places.drop_last();
            assert forall|i: int| 0 <= i < front.len() implies (rest.contains(i) <==> (
            #[trigger] front[i]).turn_id == Some(turn) && prompt_like(front[i])) by {
                assert(front[i] == evs[i]);
                if rest.contains(i) {
                    let q = choose|q: int| 0 <= q < rest.len() && rest[q] == i;
                    assert(places[q] == i);
                    assert(places.contains(i));
                }
                if places.contains(i) {
                    let q = choose|q: int| 0 <= q < places.len() && places[q] == i;
                    assert(rest[q] == i);
                }
            }
            assert forall|n: int| 0 <= n < rest.len() implies 0 <= #[trigger] rest[n]
                < front.len() by {
                assert(places[n] < places[p]);
            }
            assert forall|m: int, n: int| 0 <= m < n < rest.len() implies #[trigger] rest[m]
                < #[trigger] rest[n] by {
                assert(places[m] < places[n]);
            }
            lemma_prompts_of(front, turn, rest);
            assert(places =~= rest.push(last));
        } else {
            assert forall|n: int| 0 <= n < places.len() implies 0 <= #[trigger] places[n]
                < front.len() by {
                assert(places.contains(places[n]));
            }
            assert forall|i: int| 0 <= i < front.len() implies (places.contains(i) <==> (
            #[trigger] front[i]).turn_id == Some(turn) && prompt_like(front[i])) by {
                assert(front[i] == evs[i]);
            }
            lemma_prompts_of(front, turn, places);
        }
    }
}

/// As many rows of a turn come before row `k` as are listed.
proof fn lemma_rows_of(rows: Seq<RowView>, k: int, turn: Seq<char>, places: Seq<int>)
    requires
        0 <= k <= rows.len(),
        are_rows_of(rows, k, turn, places),
    ensures
        rows_of_turn(rows.take(k), turn) == places.len(),
    decreases k,
{
    if k == 0 {
        if places.len() > 0 {
            assert(0 <= places[0] < k);
        }
    } else {
        let last = k - 1;
        assert(rows.take(k).drop_last() =~= rows.take(last));
        assert(rows.take(k).last() == rows[last]);
        assert(places.contains(last) <==> rows[last].cc_turn_id == Some(turn));
        if places.contains(last) {
            let p = choose|p: int| 0 <= p < places.len() && places[p] == last;
            if p < places.len() - 1 {
                assert(places[p] < places[places.len() - 1]);
            }
            let rest = places.drop_last();
            assert forall|i: int| 0 <= i < last implies (rest.contains(i) <==> (
            #[trigger] rows[i]).cc_turn_id == Some(turn)) by {
                if rest.contains(i) {
                    let q = choose|q: int| 0 <= q < rest.len() && rest[q] == i;
                    assert(places[q] == i);
                    assert(places.contains(i));
                }
                if places.contains(i) {
                    let q = choose|q: int| 0 <= q < places.len() && places[q] == i;
                    assert(rest[q] == i);
                }
            }
            assert forall|n: int| 0 <= n < rest.len() implies 0 <= #[trigger] rest[n] < last by {
                assert(places[n] < places[p]);
            }
            assert forall|m: int, n: int| 0 <= m < n < rest.len() implies #[trigger] rest[m]
                < #[trigger] rest[n] by {
                assert(places[m] < places[n]);
            }
            lemma_rows_of(rows, last, turn, rest);
        } else {
            assert forall|n: int| 0 <= n < places.len() implies 0 <= #[trigger] places[n]
                < last by {
                assert(places.contains(places[n]));
            }
            lemma_rows_of(rows, last, turn, places);
        }
    }
}

/// The first event of a turn is the one with none of the turn before it.
proof fn lemma_first(evs: Seq<EvView>, turn: Seq<char>, i: int)
    requires
        0 <= i < evs.len(),
        evs[i].turn_id == Some(turn),
        forall|j: int| 0 <= j < i ==> (#[trigger] evs[j]).turn_id != Some(turn),
    ensures
        first_of_turn(evs, turn) == Some(i),
    decreases evs.len(),
{
    let front = evs.drop_last();
    if i < front.len() {
        assert(front[i] == evs[i]);
        assert forall|j: int| 0 <= j < i implies (#[trigger] front[j]).turn_id != Some(turn) by {
            assert(front[j] == evs[j]);
        }
        lemma_first(front, turn, i);
    } else {
        assert forall|j: int| 0 <= j < front.len() implies (#[trigger] front[j]).turn_id != Some(
            turn,
        ) by {
            assert(front[j] == evs[j]);
        }
        lemma_no_event_of_turn(front, turn);
    }
}

/// The first event with a uuid is the one with none before it.
proof fn lemma_first_with(evs: Seq<EvView>, uuid: Seq<char>, i: int)
    requires
        0 <= i < evs.len(),
        evs[i].uuid == uuid,
        forall|j: int| 0 <= j < i ==> (#[trigger] evs[j]).uuid != uuid,
    ensures
        first_with_uuid(evs, uuid) == Some(i),
    decreases evs.len(),
{
    let front = evs.drop_last();
    if i < front.len() {
        assert(front[i] == evs[i]);
        assert forall|j: int| 0 <= j < i implies (#[trigger] front[j]).uuid != uuid by {
            assert(front[j] == evs[j]);
        }
        lemma_first_with(front, uuid, i);
    } else {
        assert forall|j: int| 0 <= j < front.len() implies (#[trigger] front[j]).uuid != uuid by {
            assert(front[j] == evs[j]);
        }
        lemma_no_event_with(front, uuid);
    }
}

/// Whether event `i` is the one that the key of row `k` points to. The events of the turn that look
/// like prompts go to the rows of the turn one by one, in order; a row that comes after them all is
/// pointed to the first event of the turn.
pub open spec fn is_pointed_to(
    session: Session,
    k: int,
    turn: Seq<char>,
    prompts: Seq<int>,
    earlier: Seq<int>,
    i: int,
) -> bool {
    &&& 0 <= k < session.rows.len()
    &&& session.rows[k].cc_turn_id == Some(turn)
    &&& turn.len() > 0
    &&& are_prompts_of(session.evs, turn, prompts)
    &&& are_rows_of(session.rows, k, turn, earlier)
    &&& 0 <= i < session.evs.len()
    &&& if earlier.len() < prompts.len() {
        i == prompts[earlier.len() as int]
    } else {
        session.evs[i].turn_id == Some(turn) && forall|j: int|
            0 <= j < i ==> (#[trigger] session.evs[j]).turn_id != Some(turn)
    }
}

/// The event that the key points to.
proof fn lemma_pointed_to(
    session: Session,
    k: int,
    turn: Seq<char>,
    prompts: Seq<int>,
    earlier: Seq<int>,
    i: int,
)
    requires
        is_pointed_to(session, k, turn, prompts, earlier, i),
    ensures
        session.key_event(k, turn) == Some(i),
{
    lemma_prompts_of(session.evs, turn, prompts);
    lemma_rows_of(session.rows, k, turn, earlier);
    if earlier.len() >= prompts.len() {
        lemma_first(session.evs, turn, i);
    }
}

/// The n-th prompt that was logged in a turn gets the n-th event of the turn that looks like a prompt,
/// or where there are not so many the turn's first event, unless that one is taken or its text
/// disagrees; then no event is said to be exactly the prompt's.
pub proof fn queued_prompts_get_events_in_order(
    session: Session,
    k: int,
    turn: Seq<char>,
    prompts: Seq<int>,
    earlier: Seq<int>,
    i: int,
    others: Seq<OwnerView>,
)
    requires
        is_pointed_to(session, k, turn, prompts, earlier, i),
    ensures
        ({
            let free = forall|a: int|
                0 <= a < others.len() ==> (#[trigger] others[a]).ev_idx != i;
            let owner = session.owner_of_row(k, others);
            &&& free && agrees(session.rows[k].prompt, session.evs[i]) ==> owner == Some(
                OwnerView {
                    row_id: session.rows[k].id,
                    ev_idx: i,
                    match_kind: "exact"@,
                    is_system: session.evs[i].origin_kind == Some("task-notification"@),
                },
            )
            &&& !(free && agrees(session.rows[k].prompt, session.evs[i])) ==> (owner is Some
                ==> owner->0.match_kind == "conflict"@)
        }),
{
    lemma_pointed_to(session, k, turn, prompts, earlier, i);
    if is_taken(others, i) {
        let a = choose|a: int| 0 <= a < others.len() && (#[trigger] others[a]).ev_idx == i;
        assert(others[a].ev_idx == i);
    }
}

/// A prompt and an event agree where one text holds the first 16 characters of the other, or there is
/// too little to tell: a prompt of less than four characters, or an event without text. White space
/// does not count.
pub proof fn agreement_is_by_beginnings(prompt: Seq<char>, ev: EvView, a: Seq<char>, b: Seq<char>)
    ensures
        ({
            let p = normal(prompt);
            let t = normal(content_text(ev.content));
            &&& p.len() < 4 ==> agrees(prompt, ev)
            &&& t.len() == 0 ==> agrees(prompt, ev)
            &&& p.len() <= 16 && t == a + p + b ==> agrees(prompt, ev)
            &&& t.len() <= 16 && p == a + t + b ==> agrees(prompt, ev)
            &&& p.len() > 16 && t == a + p.take(16) + b ==> agrees(prompt, ev)
            &&& t.len() > 16 && p == a + t.take(16) + b ==> agrees(prompt, ev)
            &&& p == t ==> agrees(prompt, ev)
        }),
{
    let p = normal(prompt);
    let t = normal(content_text(ev.content));
    holding_is_having_as_a_part(t, head(p, 16));
    holding_is_having_as_a_part(p, head(t, 16));
    heads_are_beginnings(p, 16);
    let none = Seq::<char>::empty();
    let rest = p.skip(head(p, 16).len() as int);
    if p == t {
        assert(p =~= none + head(p, 16) + rest);
    }
}

/// A prompt of four characters or more and an event with text that share no beginning disagree.
pub proof fn disagreement_is_by_beginnings(prompt: Seq<char>, ev: EvView)
    requires
        normal(prompt).len() >= 4,
        normal(content_text(ev.content)).len() > 0,
        !contains(normal(content_text(ev.content)), head(normal(prompt), 16)),
        !contains(normal(prompt), head(normal(content_text(ev.content)), 16)),
    ensures
        !agrees(prompt, ev),
{
}

// ---------------------------------------------------------------------------------------------
// The event of an earlier run, and the order of evidence
// ---------------------------------------------------------------------------------------------

/// The event that an earlier run found for a prompt is found again where it is still free and its text
/// agrees, unless the key decides. Where the key points to an event that is taken or disagrees, what
/// is found is marked as a conflict.
pub proof fn what_was_found_is_found_again(
    session: Session,
    k: int,
    uuid: Seq<char>,
    i: int,
    others: Seq<OwnerView>,
)
    requires
        session.rows[k].msg_uuid == Some(uuid),
        uuid.len() > 0,
        0 <= i < session.evs.len(),
        session.evs[i].uuid == uuid,
        forall|j: int| 0 <= j < i ==> (#[trigger] session.evs[j]).uuid != uuid,
        forall|a: int| 0 <= a < others.len() ==> (#[trigger] others[a]).ev_idx != i,
        agrees(session.rows[k].prompt, session.evs[i]),
    ensures
        ({
            let found = OwnerView {
                row_id: session.rows[k].id,
                ev_idx: i,
                match_kind: "uuid"@,
                is_system: session.evs[i].origin_kind == Some("task-notification"@),
            };
            &&& session.rows[k].cc_turn_id is None ==> session.owner_of_row(k, others) == Some(
                found,
            )
            &&& session.owner_of_row(k, others) is Some
            &&& session.owner_of_row(k, others)->0.match_kind != "exact"@
                ==> session.owner_of_row(k, others)->0.ev_idx == i
        }),
{
    lemma_first_with(session.evs, uuid, i);
    if is_taken(others, i) {
        let a = choose|a: int| 0 <= a < others.len() && (#[trigger] others[a]).ev_idx == i;
        assert(others[a].ev_idx == i);
    }
}

/// Where the key points to an event that cannot be the prompt's, and no earlier run found one, a close
/// event is still found, and marked as a conflict.
pub proof fn a_conflict_is_resolved_by_time(
    session: Session,
    k: int,
    turn: Seq<char>,
    prompts: Seq<int>,
    earlier: Seq<int>,
    i: int,
    j: int,
    others: Seq<OwnerView>,
)
    requires
        is_pointed_to(session, k, turn, prompts, earlier, i),
        is_taken(others, i) || !agrees(session.rows[k].prompt, session.evs[i]),
        session.rows[k].msg_uuid is None,
        is_open(session, j, others),
        is_close(session, k, j),
    ensures
        session.owner_of_row(k, others) is Some,
        session.owner_of_row(k, others)->0.match_kind == "conflict"@,
        session.owner_of_row(k, others)->0.row_id == session.rows[k].id,
        is_open(session, session.owner_of_row(k, others)->0.ev_idx, others),
        is_close(session, k, session.owner_of_row(k, others)->0.ev_idx),
{
    lemma_pointed_to(session, k, turn, prompts, earlier, i);
    lemma_chosen(session, k, others);
    lemma_window(session, k, j, others);
    assert(session.in_window(k, j, others));
    lemma_window(session, k, session.owner_of_row(k, others)->0.ev_idx, others);
}

// ---------------------------------------------------------------------------------------------
// All rows
// ---------------------------------------------------------------------------------------------

/// Rows are served in their order: a later row takes nothing from an earlier one, and each row that
/// finds an event is in the result.
pub proof fn rows_are_served_in_order(session: Session, k: int, n: int)
    requires
        0 <= k < n,
    ensures
        session.owners_found(k).is_prefix_of(session.owners_found(n)),
        session.owner_of_row(k, session.owners_found(k)) matches Some(o)
            ==> session.owners_found(n).contains(o),
    decreases n,
{
    let before = session.owners_found(n - 1);
    let all = session.owners_found(n);
    if k < n - 1 {
        rows_are_served_in_order(session, k, n - 1);
        assert(session.owners_found(k) =~= all.subrange(
            0,
            session.owners_found(k).len() as int,
        )) by {
            assert(session.owners_found(k) =~= before.subrange(
                0,
                session.owners_found(k).len() as int,
            ));
        }
        match session.owner_of_row(k, session.owners_found(k)) {
            Some(o) => {
                let a = choose|a: int| 0 <= a < before.len() && before[a] == o;
                assert(all[a] == o);
            },
            None => {},
        }
    } else {
        assert(before =~= all.subrange(0, before.len() as int));
        match session.owner_of_row(k, before) {
            Some(o) => {
                assert(all[all.len() - 1] == o);
            },
            None => {},
        }
    }
}

/// A resolved session has an owner for every row that finds an event, and they stand in the order of
/// the events.
pub proof fn every_found_owner_is_resolved(session: Session, owners: Seq<OwnerView>, k: int)
    requires
        session.is_resolved(owners),
        0 <= k < session.rows.len(),
    ensures
        session.owner_of_row(k, session.owners_found(k)) matches Some(o) ==> owners.contains(o),
        forall|a: int, b: int|
            0 <= a < b < owners.len() ==> (#[trigger] owners[a]).ev_idx < (
            #[trigger] owners[b]).ev_idx,
{
    let found = session.owners_found(session.rows.len() as int);
    rows_are_served_in_order(session, k, session.rows.len() as int);
    match session.owner_of_row(k, session.owners_found(k)) {
        Some(o) => {
            vstd::seq_lib::to_multiset_contains(found, o);
            vstd::seq_lib::to_multiset_contains(owners, o);
        },
        None => {},
    }
}

} // verus!
