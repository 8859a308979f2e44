//! Laws of recovering a response: which prompt of a transcript is meant, and what comes of it.

use vstd::prelude::*;

use crate::answer::{
    fetched, first_alike, first_user_event, is_alike, is_choice, is_nearest, nearest_uuid, recovered,
    reply_after, reply_to_text, reply_to_uuid, resolved_uuid, seconds_between, texts_alike, turn_found,
    turns_in, typed_text, FetchedView, LoggedPrompt, UserTurnView,
};
use crate::clock::epoch_of;
use crate::json::JsonView;
use crate::text::{blank, head, maybe, normal, starts_with};
use crate::laws::reply::{every_prompt_is_a_turn, is_prompt};

verus! {

// ---------------------------------------------------------------------------------------------
// The prompt that is meant
// ---------------------------------------------------------------------------------------------

/// Whether a prompt was typed at most half a minute before or after a time.
pub open spec fn is_close_to(t: UserTurnView, time: int) -> bool {
    -30 <= t.epoch - time <= 30
}

/// Whether one prompt was typed nearer to a time than another.
pub open spec fn is_closer(t: UserTurnView, u: UserTurnView, time: int) -> bool {
    let a = t.epoch - time;
    let b = u.epoch - time;
    (a < b && -a < b) || (a < -b && -a < -b)
}

/// Whether a prompt begins as the logged text does, in its first 24 characters.
pub open spec fn begins_alike(t: UserTurnView, text: Seq<char>) -> bool {
    let p = normal(text);
    p.len() > 0 && starts_with(normal(t.text), head(p, 24))
}

/// Near and alike in the words of this file.
proof fn lemma_alike(turns: Seq<UserTurnView>, i: int, time: int, text: Seq<char>)
    ensures
        is_alike(turns, i, time, text) <==> 0 <= i < turns.len() && is_close_to(turns[i], time)
            && begins_alike(turns[i], text),
        crate::answer::is_near(turns, i, time) <==> 0 <= i < turns.len() && is_close_to(
            turns[i],
            time,
        ),
{
}

/// Where a prompt may be chosen, one of those is the nearest.
proof fn lemma_some_nearest(
    turns: Seq<UserTurnView>,
    time: int,
    text: Seq<char>,
    i: int,
    n: int,
) -> (b: int)
    requires
        0 <= i < n,
        is_choice(turns, i, time, text),
    ensures
        0 <= b < n,
        is_choice(turns, b, time, text),
        forall|j: int|
            0 <= j < n && #[trigger] is_choice(turns, j, time, text) ==> seconds_between(
                turns[b],
                time,
            ) < seconds_between(turns[j], time) || (seconds_between(turns[b], time)
                == seconds_between(turns[j], time) && b <= j),
    decreases n,
{
    let last = n - 1;
    if i == last {
        if exists|j: int| 0 <= j < last && #[trigger] is_choice(turns, j, time, text) {
            let j = choose|j: int| 0 <= j < last && #[trigger] is_choice(turns, j, time, text);
            let c = lemma_some_nearest(turns, time, text, j, last);
            if seconds_between(turns[last], time) < seconds_between(turns[c], time) {
                last
            } else {
                c
            }
        } else {
            last
        }
    } else {
        let c = lemma_some_nearest(turns, time, text, i, last);
        if is_choice(turns, last, time, text) && seconds_between(turns[last], time)
            < seconds_between(turns[c], time) {
            last
        } else {
            c
        }
    }
}

/// Where a prompt is near, one may be chosen.
proof fn lemma_choice(turns: Seq<UserTurnView>, time: int, text: Seq<char>, i: int) -> (b: int)
    requires
        0 <= i < turns.len(),
        is_close_to(turns[i], time),
    ensures
        is_nearest(turns, b, time, text),
        nearest_uuid(turns, time, text) == Some(turns[b].uuid),
{
    let c = if exists|j: int| is_alike(turns, j, time, text) {
        choose|j: int| is_alike(turns, j, time, text)
    } else {
        i
    };
    assert(is_choice(turns, c, time, text));
    let b = lemma_some_nearest(turns, time, text, c, turns.len() as int);
    assert(is_nearest(turns, b, time, text));
    let chosen = choose|j: int| is_nearest(turns, j, time, text);
    assert(is_nearest(turns, chosen, time, text));
    chosen
}

/// A prompt that was logged is found in the transcript where some prompt there was typed at most half
/// a minute before or after: local time less the offset is the time that counts. It is one of those,
/// begins alike where any of them does, and is the nearest of its like, and the first of those that
/// are as near.
pub proof fn a_near_prompt_is_found(
    turns: Seq<UserTurnView>,
    created_at: Seq<char>,
    text: Seq<char>,
    offset: int,
    local: int,
    i: int,
) -> (b: int)
    requires
        epoch_of(created_at) == Some(local),
        0 <= i < turns.len(),
        is_close_to(turns[i], local - offset),
    ensures
        0 <= b < turns.len(),
        resolved_uuid(turns, created_at, text, offset) == Some(turns[b].uuid),
        is_close_to(turns[b], local - offset),
        begins_alike(turns[i], text) ==> begins_alike(turns[b], text),
        begins_alike(turns[i], text) == begins_alike(turns[b], text) ==> !is_closer(
            turns[i],
            turns[b],
            local - offset,
        ),
        begins_alike(turns[i], text) == begins_alike(turns[b], text) && !is_closer(
            turns[b],
            turns[i],
            local - offset,
        ) ==> b <= i,
{
    let time = local - offset;
    let b = lemma_choice(turns, time, text, i);
    lemma_alike(turns, i, time, text);
    lemma_alike(turns, b, time, text);
    if exists|j: int| is_alike(turns, j, time, text) {
        let j = choose|j: int| is_alike(turns, j, time, text);
        lemma_alike(turns, j, time, text);
        if begins_alike(turns[i], text) {
            assert(is_choice(turns, i, time, text));
        }
    } else {
        assert(!is_alike(turns, i, time, text));
        assert(!is_alike(turns, b, time, text));
        assert(is_choice(turns, i, time, text));
    }
    b
}

/// A prompt of the transcript that was typed more than half a minute away is never meant, nor is any
/// where the logged time cannot be read.
pub proof fn no_far_prompt_is_found(
    turns: Seq<UserTurnView>,
    created_at: Seq<char>,
    text: Seq<char>,
    offset: int,
)
    requires
        epoch_of(created_at) matches Some(local) ==> forall|i: int|
            0 <= i < turns.len() ==> !is_close_to(#[trigger] turns[i], local - offset),
    ensures
        resolved_uuid(turns, created_at, text, offset) is None,
{
    match epoch_of(created_at) {
        Some(local) => {
            let time = local - offset;
            if exists|i: int| is_nearest(turns, i, time, text) {
                let i = choose|i: int| is_nearest(turns, i, time, text);
                lemma_alike(turns, i, time, text);
                assert(is_choice(turns, i, time, text));
                assert(!is_close_to(turns[i], time));
            }
        },
        None => {},
    }
}

/// The offset is what local time is ahead by: a prompt that is logged later, at a place where the clock
/// is ahead by as much more, has the same turn, the same response, and is found just the same.
pub proof fn the_offset_is_what_local_time_is_ahead_by(
    values: Seq<JsonView>,
    turns: Seq<UserTurnView>,
    row: LoggedPrompt,
    later: LoggedPrompt,
    by: int,
    offset: int,
)
    requires
        later.prompt@ == row.prompt@,
        maybe(later.msg_uuid) == maybe(row.msg_uuid),
        epoch_of(row.created_at@) is Some,
        epoch_of(later.created_at@) == Some(epoch_of(row.created_at@)->0 + by),
    ensures
        resolved_uuid(turns, later.created_at@, row.prompt@, offset + by) == resolved_uuid(
            turns,
            row.created_at@,
            row.prompt@,
            offset,
        ),
        recovered(
            values,
            row.prompt@,
            later.created_at@,
            maybe(row.msg_uuid),
            offset + by,
        ) == recovered(values, row.prompt@, row.created_at@, maybe(row.msg_uuid), offset),
        turn_found(values, later, offset + by) == turn_found(values, row, offset),
{
}

// ---------------------------------------------------------------------------------------------
// Extracting
// ---------------------------------------------------------------------------------------------

/// Whether event `i` is the first user event with the given uuid.
pub open spec fn is_first_with(values: Seq<JsonView>, i: int, uuid: Seq<char>) -> bool {
    &&& 0 <= i < values.len()
    &&& values[i].text_member("type"@) == Some("user"@)
    &&& values[i].text_member("uuid"@) == Some(uuid)
    &&& forall|j: int|
        0 <= j < i ==> !((#[trigger] values[j]).text_member("type"@) == Some("user"@)
            && values[j].text_member("uuid"@) == Some(uuid))
}

/// Whether no user event has the uuid.
pub open spec fn has_none_with(values: Seq<JsonView>, uuid: Seq<char>) -> bool {
    forall|j: int|
        0 <= j < values.len() ==> !((#[trigger] values[j]).text_member("type"@) == Some("user"@)
            && values[j].text_member("uuid"@) == Some(uuid))
}

/// The first user event with a uuid, where there is one.
proof fn lemma_first_user(values: Seq<JsonView>, uuid: Seq<char>)
    ensures
        match first_user_event(values, uuid) {
            Some(i) => is_first_with(values, i, uuid),
            None => has_none_with(values, uuid),
        },
    decreases values.len(),
{
    if values.len() > 0 {
        let front = values.drop_last();
        lemma_first_user(front, uuid);
        match first_user_event(front, uuid) {
            Some(i) => {
                assert(front[i] == values[i]);
                assert forall|j: int| 0 <= j < i implies !((#[trigger] values[j]).text_member(
                    "type"@,
                ) == Some("user"@) && values[j].text_member("uuid"@) == Some(uuid)) by {
                    assert(front[j] == values[j]);
                }
            },
            None => {
                assert forall|j: int| 0 <= j < front.len() implies !((
                #[trigger] values[j]).text_member("type"@) == Some("user"@)
                    && values[j].text_member("uuid"@) == Some(uuid)) by {
                    assert(front[j] == values[j]);
                }
            },
        }
    }
}

/// The reply to a uuid is what was said after the first user event that has it; there is one exactly
/// where some user event has it.
pub proof fn replies_are_found_by_uuid(values: Seq<JsonView>, i: int, uuid: Seq<char>)
    ensures
        is_first_with(values, i, uuid) ==> reply_to_uuid(values, uuid) == Some(
            reply_after(values, i),
        ),
        has_none_with(values, uuid) ==> reply_to_uuid(values, uuid) is None,
{
    lemma_first_user(values, uuid);
    if is_first_with(values, i, uuid) {
        match first_user_event(values, uuid) {
            Some(k) => {
                if k < i {
                    assert(values[k].text_member("uuid"@) == Some(uuid));
                } else if i < k {
                    assert(values[i].text_member("uuid"@) == Some(uuid));
                }
            },
            None => {
                assert(values[i].text_member("uuid"@) == Some(uuid));
            },
        }
    }
    if has_none_with(values, uuid) {
        match first_user_event(values, uuid) {
            Some(k) => {
                assert(values[k].text_member("uuid"@) == Some(uuid));
            },
            None => {},
        }
    }
}

/// Whether a prompt says what was logged, as far as both go: one begins with the other, white space
/// aside.
pub open spec fn says_as_logged(json: JsonView, logged: Seq<char>) -> bool {
    match typed_text(json) {
        Some(text) => {
            let t = normal(text);
            let p = normal(logged);
            p.len() > 0 && (t.is_prefix_of(p) || p.is_prefix_of(t))
        },
        None => false,
    }
}

/// Being alike in the words of this file.
proof fn lemma_says(json: JsonView, logged: Seq<char>)
    ensures
        says_as_logged(json, logged) <==> (typed_text(json) is Some && texts_alike(
            typed_text(json)->0,
            logged,
        )),
{
    match typed_text(json) {
        Some(text) => {
            let t = normal(text);
            let p = normal(logged);
            if t.is_prefix_of(p) {
                assert(p.subrange(0, t.len() as int) == t);
            }
            if p.is_prefix_of(t) {
                assert(t.subrange(0, p.len() as int) == p);
            }
            if starts_with(t, p) {
                assert(p.is_prefix_of(t));
            }
            if starts_with(p, t) {
                assert(t.is_prefix_of(p));
            }
        },
        None => {},
    }
}

/// Whether event `i` is the first prompt that says what was logged.
pub open spec fn is_first_to_say(values: Seq<JsonView>, i: int, logged: Seq<char>) -> bool {
    &&& 0 <= i < values.len()
    &&& says_as_logged(values[i], logged)
    &&& forall|j: int| 0 <= j < i ==> !says_as_logged(#[trigger] values[j], logged)
}

/// Whether no prompt says what was logged.
pub open spec fn has_none_to_say(values: Seq<JsonView>, logged: Seq<char>) -> bool {
    forall|j: int| 0 <= j < values.len() ==> !says_as_logged(#[trigger] values[j], logged)
}

/// The first prompt that says what was logged, where there is one.
proof fn lemma_first_alike(values: Seq<JsonView>, logged: Seq<char>)
    ensures
        match first_alike(values, logged) {
            Some(i) => is_first_to_say(values, i, logged),
            None => has_none_to_say(values, logged),
        },
    decreases values.len(),
{
    if values.len() > 0 {
        let front = values.drop_last();
        lemma_first_alike(front, logged);
        lemma_says(values.last(), logged);
        match first_alike(front, logged) {
            Some(i) => {
                assert(front[i] == values[i]);
                assert forall|j: int| 0 <= j < i implies !says_as_logged(
                    #[trigger] values[j],
                    logged,
                ) by {
                    assert(front[j] == values[j]);
                }
            },
            None => {
                assert forall|j: int| 0 <= j < front.len() implies !says_as_logged(
                    #[trigger] values[j],
                    logged,
                ) by {
                    assert(front[j] == values[j]);
                }
            },
        }
    }
}

/// The reply to a text is what was said after the first prompt that says it; there is one exactly
/// where some prompt does.
pub proof fn replies_are_found_by_text(values: Seq<JsonView>, i: int, logged: Seq<char>)
    ensures
        is_first_to_say(values, i, logged) ==> reply_to_text(values, logged) == Some(
            reply_after(values, i),
        ),
        has_none_to_say(values, logged) ==> reply_to_text(values, logged) is None,
{
    lemma_first_alike(values, logged);
    if is_first_to_say(values, i, logged) {
        match first_alike(values, logged) {
            Some(k) => {
                if k < i {
                    assert(says_as_logged(values[k], logged));
                } else if i < k {
                    assert(says_as_logged(values[i], logged));
                }
            },
            None => {
                assert(says_as_logged(values[i], logged));
            },
        }
    }
    if has_none_to_say(values, logged) {
        match first_alike(values, logged) {
            Some(k) => {
                assert(says_as_logged(values[k], logged));
            },
            None => {},
        }
    }
}

// ---------------------------------------------------------------------------------------------
// Recovering
// ---------------------------------------------------------------------------------------------

/// The event that an earlier run found comes first: where something was said after it, that is the
/// response, whatever time and text say.
pub proof fn what_is_known_comes_first(
    values: Seq<JsonView>,
    prompt: Seq<char>,
    created_at: Seq<char>,
    uuid: Seq<char>,
    offset: int,
    i: int,
)
    requires
        is_first_with(values, i, uuid),
        !blank(reply_after(values, i)),
    ensures
        recovered(values, prompt, created_at, Some(uuid), offset) == Some(
            (reply_after(values, i), Some(uuid)),
        ),
{
    replies_are_found_by_uuid(values, i, uuid);
}

/// Whether time and the offset single out event `i`: it is a prompt that was typed at most half a minute
/// from the logged time less the offset, no other user event has its uuid before it, and every other
/// prompt was typed further away.
pub open spec fn is_singled_out(
    values: Seq<JsonView>,
    i: int,
    t: UserTurnView,
    created_at: Seq<char>,
    offset: int,
) -> bool {
    &&& is_prompt(values[i], t)
    &&& is_first_with(values, i, t.uuid)
    &&& epoch_of(created_at) is Some
    &&& is_close_to(t, epoch_of(created_at)->0 - offset)
    &&& forall|j: int, u: UserTurnView|
        0 <= j < values.len() && #[trigger] is_prompt(values[j], u) && u != t ==> !is_close_to(
            u,
            epoch_of(created_at)->0 - offset,
        )
}

/// The one prompt near to the logged time is the one that is resolved.
proof fn lemma_singled_out(
    values: Seq<JsonView>,
    i: int,
    t: UserTurnView,
    prompt: Seq<char>,
    created_at: Seq<char>,
    offset: int,
)
    requires
        is_singled_out(values, i, t, created_at, offset),
    ensures
        resolved_uuid(turns_in(values), created_at, prompt, offset) == Some(t.uuid),
{
    let turns = turns_in(values);
    let local = epoch_of(created_at)->0;
    every_prompt_is_a_turn(values, t);
    assert(turns.contains(t));
    let a = choose|a: int| 0 <= a < turns.len() && turns[a] == t;
    let b = a_near_prompt_is_found(turns, created_at, prompt, offset, local, a);
    assert(turns.contains(turns[b]));
    every_prompt_is_a_turn(values, turns[b]);
    let j = choose|j: int| 0 <= j < values.len() && is_prompt(#[trigger] values[j], turns[b]);
    assert(turns[b] == t);
}

/// Where no event is known and one prompt of the transcript is singled out by time, the response is what
/// was said after that prompt, together with that prompt's uuid: in particular where the prompt was
/// typed exactly at the logged time less the offset.
pub proof fn a_prompt_is_recovered_by_its_time(
    values: Seq<JsonView>,
    i: int,
    t: UserTurnView,
    prompt: Seq<char>,
    created_at: Seq<char>,
    offset: int,
)
    requires
        is_singled_out(values, i, t, created_at, offset),
        !blank(reply_after(values, i)),
    ensures
        recovered(values, prompt, created_at, None, offset) == Some(
            (reply_after(values, i), Some(t.uuid)),
        ),
{
    lemma_singled_out(values, i, t, prompt, created_at, offset);
    replies_are_found_by_uuid(values, i, t.uuid);
}

/// An event that is known but is gone, or after which nothing was said, does not stand in the way.
pub proof fn what_is_known_may_be_gone(
    values: Seq<JsonView>,
    k: int,
    known: Seq<char>,
    prompt: Seq<char>,
    created_at: Seq<char>,
    offset: int,
)
    requires
        has_none_with(values, known) || (is_first_with(values, k, known) && blank(
            reply_after(values, k),
        )),
    ensures
        ({
            let known_of = recovered(values, prompt, created_at, Some(known), offset);
            let unknown_of = recovered(values, prompt, created_at, None, offset);
            &&& known_of is Some <==> unknown_of is Some
            &&& known_of is Some ==> (known_of->0).0 == (unknown_of->0).0
            &&& known_of is Some ==> (known_of->0).1 == (if (unknown_of->0).1 is Some {
                (unknown_of->0).1
            } else {
                Some(known)
            })
        }),
{
    replies_are_found_by_uuid(values, k, known);
}

/// Where no prompt is near in time, the response is what was said after the first prompt that says what
/// was logged, and no uuid is learned from that.
pub proof fn a_prompt_is_recovered_by_its_text(
    values: Seq<JsonView>,
    i: int,
    prompt: Seq<char>,
    created_at: Seq<char>,
    offset: int,
)
    requires
        epoch_of(created_at) matches Some(local) ==> forall|j: int, u: UserTurnView|
            0 <= j < values.len() && #[trigger] is_prompt(values[j], u) ==> !is_close_to(
                u,
                local - offset,
            ),
        is_first_to_say(values, i, prompt),
        !blank(reply_after(values, i)),
    ensures
        recovered(values, prompt, created_at, None, offset) == Some(
            (reply_after(values, i), None::<Seq<char>>),
        ),
{
    lemma_no_near(values, prompt, created_at, offset);
    replies_are_found_by_text(values, i, prompt);
}

/// Where no prompt of a transcript is near, none is resolved.
proof fn lemma_no_near(values: Seq<JsonView>, prompt: Seq<char>, created_at: Seq<char>, offset: int)
    requires
        epoch_of(created_at) matches Some(local) ==> forall|j: int, u: UserTurnView|
            0 <= j < values.len() && #[trigger] is_prompt(values[j], u) ==> !is_close_to(
                u,
                local - offset,
            ),
    ensures
        resolved_uuid(turns_in(values), created_at, prompt, offset) is None,
{
    let turns = turns_in(values);
    match epoch_of(created_at) {
        Some(local) => {
            assert forall|a: int| 0 <= a < turns.len() implies !is_close_to(
                #[trigger] turns[a],
                local - offset,
            ) by {
                assert(turns.contains(turns[a]));
                every_prompt_is_a_turn(values, turns[a]);
                let j = choose|j: int|
                    0 <= j < values.len() && is_prompt(#[trigger] values[j], turns[a]);
            }
        },
        None => {},
    }
    no_far_prompt_is_found(turns, created_at, prompt, offset);
}

/// A response that is recovered is never blank, and it is what the assistant said after some user event
/// of the transcript.
pub proof fn what_is_recovered_was_said(
    values: Seq<JsonView>,
    prompt: Seq<char>,
    created_at: Seq<char>,
    msg_uuid: Option<Seq<char>>,
    offset: int,
) -> (i: int)
    requires
        recovered(values, prompt, created_at, msg_uuid, offset) is Some,
    ensures
        0 <= i < values.len(),
        values[i].text_member("type"@) == Some("user"@),
        (recovered(values, prompt, created_at, msg_uuid, offset)->0).0 == reply_after(values, i),
        !blank(reply_after(values, i)),
{
    let resolved = resolved_uuid(turns_in(values), created_at, prompt, offset);
    lemma_first_alike(values, prompt);
    let said = (recovered(values, prompt, created_at, msg_uuid, offset)->0).0;
    let cached = match msg_uuid {
        Some(u) => {
            lemma_first_user(values, u);
            first_user_event(values, u)
        },
        None => None,
    };
    let by_time = match resolved {
        Some(u) => {
            lemma_first_user(values, u);
            first_user_event(values, u)
        },
        None => None,
    };
    if cached is Some && !blank(reply_after(values, cached->0)) {
        cached->0
    } else if by_time is Some && !blank(reply_after(values, by_time->0)) {
        by_time->0
    } else {
        first_alike(values, prompt)->0
    }
}

/// The turn of a prompt is found where its event is known and there, where a prompt was typed at most
/// half a minute from the logged time less the offset, and where a prompt says what was logged.
pub proof fn turns_are_found(
    values: Seq<JsonView>,
    row: LoggedPrompt,
    offset: int,
    i: int,
    t: UserTurnView,
)
    requires
        0 <= i < values.len(),
        ({
            ||| (maybe(row.msg_uuid) is Some && is_first_with(values, i, maybe(row.msg_uuid)->0))
            ||| (is_prompt(values[i], t) && epoch_of(row.created_at@) is Some && is_close_to(
                t,
                epoch_of(row.created_at@)->0 - offset,
            ))
            ||| says_as_logged(values[i], row.prompt@)
        }),
    ensures
        turn_found(values, row, offset),
{
    if maybe(row.msg_uuid) is Some && is_first_with(values, i, maybe(row.msg_uuid)->0) {
        replies_are_found_by_uuid(values, i, maybe(row.msg_uuid)->0);
    } else if says_as_logged(values[i], row.prompt@) {
        lemma_first_alike(values, row.prompt@);
    } else {
        let turns = turns_in(values);
        let local = epoch_of(row.created_at@)->0;
        every_prompt_is_a_turn(values, t);
        let a = choose|a: int| 0 <= a < turns.len() && turns[a] == t;
        let b = a_near_prompt_is_found(turns, row.created_at@, row.prompt@, offset, local, a);
    }
}

/// The turn of a prompt is not found where its event is not known or gone, no prompt is near in time,
/// and none says what was logged.
pub proof fn turns_are_not_made_up(values: Seq<JsonView>, row: LoggedPrompt, offset: int)
    requires
        maybe(row.msg_uuid) matches Some(u) ==> has_none_with(values, u),
        epoch_of(row.created_at@) matches Some(local) ==> forall|j: int, u: UserTurnView|
            0 <= j < values.len() && #[trigger] is_prompt(values[j], u) ==> !is_close_to(
                u,
                local - offset,
            ),
        has_none_to_say(values, row.prompt@),
    ensures
        !turn_found(values, row, offset),
        recovered(values, row.prompt@, row.created_at@, maybe(row.msg_uuid), offset) is None,
{
    match maybe(row.msg_uuid) {
        Some(u) => {
            replies_are_found_by_uuid(values, 0, u);
        },
        None => {},
    }
    lemma_no_near(values, row.prompt@, row.created_at@, offset);
    replies_are_found_by_text(values, 0, row.prompt@);
    lemma_first_alike(values, row.prompt@);
    match first_alike(values, row.prompt@) {
        Some(k) => {
            assert(says_as_logged(values[k], row.prompt@));
        },
        None => {},
    }
}

/// What looking for a response comes to: it cannot be told without a session, a working directory and a
/// transcript; else it is the response, or that the turn has none, or that the turn is not there. A
/// turn that was not found is never said to have no response.
pub proof fn looking_tells_apart(
    row: LoggedPrompt,
    transcript: Option<Seq<JsonView>>,
    offset: int,
)
    ensures
        row.session_id is None ==> fetched(row, transcript, offset) == Err::<FetchedView, Seq<char>>(
            "session_id가 없어 JSONL을 찾을 수 없음"@,
        ),
        row.session_id is Some && row.cwd is None ==> fetched(row, transcript, offset) == Err::<
            FetchedView,
            Seq<char>,
        >("cwd가 없어 JSONL을 찾을 수 없음"@),
        row.session_id is Some && row.cwd is Some && transcript is None ==> fetched(
            row,
            transcript,
            offset,
        ) == Err::<FetchedView, Seq<char>>(
            "JSONL 파일이 없음 (session_id="@ + (row.session_id->0)@ + ", cwd="@ + (row.cwd->0)@
                + ")"@,
        ),
        row.session_id is Some && row.cwd is Some && transcript is Some ==> ({
            let values = transcript->0;
            let found = recovered(
                values,
                row.prompt@,
                row.created_at@,
                maybe(row.msg_uuid),
                offset,
            );
            &&& found is Some ==> fetched(row, transcript, offset) == Ok::<FetchedView, Seq<char>>(
                FetchedView::Response((found->0).0, (found->0).1),
            )
            &&& fetched(row, transcript, offset) == Ok::<FetchedView, Seq<char>>(FetchedView::Empty)
                <==> found is None && turn_found(values, row, offset)
            &&& fetched(row, transcript, offset) == Ok::<FetchedView, Seq<char>>(FetchedView::NoTurn)
                <==> found is None && !turn_found(values, row, offset)
        }),
{
}

} // verus!
