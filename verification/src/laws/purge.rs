//! Laws of looking for many responses, and of what is offered for deletion.

use vstd::prelude::*;

use crate::answer::{reply_after, resolved_uuid, turns_in, Fetched, UserTurnView};
use crate::batch::{
    has_group, holds_all, in_order, lookup_of, refetched, row_total, rows_of, times, Lookup, Refetch,
    RefetchView, SessionPrompts, StoredPrompt,
};
use crate::clock::epoch_of;
use crate::json::JsonView;
use crate::purge::{
    candidates, is_scan, protected, targets, untold, PromptFacts, PurgeCandidate,
    PurgeScan,
};
use crate::text::{blank, maybe, precedes};
use crate::laws::recover::{a_near_prompt_is_found, is_close_to};
use crate::laws::reply::{
    every_prompt_is_a_turn, is_prompt, is_turn_of, the_index_holds_prompts_only,
    the_index_holds_the_last_reply,
};

verus! {

// ---------------------------------------------------------------------------------------------
// Counting
// ---------------------------------------------------------------------------------------------

/// Each outcome counts once, for itself.
pub proof fn outcomes_are_counted(lookups: Seq<Lookup>, l: Lookup, which: Lookup)
    ensures
        times(Seq::empty(), which) == 0,
        times(lookups.push(l), which) == times(lookups, which) + if l == which {
            1nat
        } else {
            0nat
        },
        untold(Seq::empty()) == 0,
        untold(lookups.push(l)) == untold(lookups) + if l == Lookup::Unknown || l
            == Lookup::Unmatched {
            1nat
        } else {
            0nat
        },
{
    assert(lookups.push(l).drop_last() =~= lookups);
}

/// What an outcome is counted as: only a turn that was found can have no response.
pub proof fn outcomes_are_told_apart(outcome: Result<Fetched, String>)
    ensures
        lookup_of(outcome) == Lookup::Unknown <==> outcome is Err,
        lookup_of(outcome) == Lookup::Recovered <==> outcome is Ok && outcome->Ok_0 is Response,
        lookup_of(outcome) == Lookup::Absent <==> outcome is Ok && outcome->Ok_0 is Empty,
        lookup_of(outcome) == Lookup::Unmatched <==> outcome is Ok && outcome->Ok_0 is NoTurn,
{
}

// ---------------------------------------------------------------------------------------------
// What is offered
// ---------------------------------------------------------------------------------------------

/// Whether nothing is stored as the response to a prompt: no text, or an empty one, and no segments.
pub open spec fn has_no_response(f: PromptFacts) -> bool {
    (f.response is None || (f.response->0)@.len() == 0) && !f.has_segments
}

/// A response is looked for exactly where none is stored, the prompt is neither bookmarked nor tagged, and
/// it was created before the time at which turns are over. Each prompt is judged on its own, and they
/// keep their order.
pub proof fn targets_are_unanswered_unmarked_and_old(
    facts: Seq<PromptFacts>,
    f: PromptFacts,
    cutoff: Seq<char>,
)
    ensures
        targets(Seq::empty(), cutoff) == Seq::<PromptFacts>::empty(),
        targets(facts.push(f), cutoff) == if has_no_response(f) && !f.bookmarked && !f.tagged
            && f.created is Some && precedes((f.created->0)@, cutoff) {
            targets(facts, cutoff).push(f)
        } else {
            targets(facts, cutoff)
        },
        protected(Seq::empty()) == 0,
        protected(facts.push(f)) == protected(facts) + if has_no_response(f) && (f.bookmarked
            || f.tagged) {
            1nat
        } else {
            0nat
        },
        crate::purge::SETTLE@ == "-48 hours"@,
{
    reveal(Seq::filter);
    assert(facts.push(f).drop_last() =~= facts);
}

/// Candidates depend on the outcomes for their own prompts only.
proof fn lemma_front(list: Seq<PromptFacts>, lookups: Seq<Lookup>, l: Lookup)
    requires
        list.len() <= lookups.len(),
    ensures
        candidates(list, lookups.push(l)) == candidates(list, lookups),
    decreases list.len(),
{
    if list.len() > 0 {
        lemma_front(list.drop_last(), lookups, l);
    }
}

/// A prompt is offered for deletion exactly where its turn was found and has no response, and what is
/// offered is that prompt.
pub proof fn only_the_absent_is_offered(
    list: Seq<PromptFacts>,
    lookups: Seq<Lookup>,
    f: PromptFacts,
    l: Lookup,
)
    requires
        list.len() == lookups.len(),
    ensures
        candidates(Seq::empty(), Seq::empty()) == Seq::<PurgeCandidate>::empty(),
        candidates(list.push(f), lookups.push(l)) == if l == Lookup::Absent {
            candidates(list, lookups).push(
                PurgeCandidate {
                    id: f.id,
                    prompt: f.prompt,
                    created_at: f.created_at,
                    cwd: f.cwd,
                },
            )
        } else {
            candidates(list, lookups)
        },
{
    lemma_front(list, lookups, l);
    assert(list.push(f).drop_last() =~= list);
}

/// A search says how many prompts it looked for and how many it kept back, and what became of those it
/// looked for: every one of them was recovered, is offered, or is one of which nothing can be told.
pub proof fn a_scan_says_what_came_of_it(
    scan: PurgeScan,
    facts: Seq<PromptFacts>,
    cutoff: Seq<char>,
    lookups: Seq<Lookup>,
)
    requires
        is_scan(scan, facts, cutoff, lookups),
    ensures
        lookups.len() == targets(facts, cutoff).len(),
        scan.scanned == lookups.len(),
        scan.protected == protected(facts),
        scan.recovered == times(lookups, Lookup::Recovered),
        scan.unknown == times(lookups, Lookup::Unknown) + times(lookups, Lookup::Unmatched),
        scan.candidates@ == candidates(targets(facts, cutoff), lookups),
        scan.candidates@.len() == times(lookups, Lookup::Absent),
        scan.scanned == scan.recovered + scan.unknown + scan.candidates@.len(),
{
    crate::purge::unknown_is_never_a_candidate(targets(facts, cutoff), lookups);
}

// ---------------------------------------------------------------------------------------------
// Prompts by session
// ---------------------------------------------------------------------------------------------

/// The prompts of a session are those with its working directory and its name, in order.
pub proof fn sessions_take_their_prompts(
    rows: Seq<StoredPrompt>,
    row: StoredPrompt,
    cwd: Seq<char>,
    session_id: Seq<char>,
    groups: Seq<SessionPrompts>,
    group: SessionPrompts,
)
    ensures
        rows_of(Seq::empty(), cwd, session_id) == Seq::<StoredPrompt>::empty(),
        rows_of(rows.push(row), cwd, session_id) == if row.cwd@ == cwd && row.session_id@
            == session_id {
            rows_of(rows, cwd, session_id).push(row)
        } else {
            rows_of(rows, cwd, session_id)
        },
        row_total(Seq::empty()) == 0,
        row_total(groups.push(group)) == row_total(groups) + group.rows@.len(),
{
    reveal(Seq::filter);
    assert(rows.push(row).drop_last() =~= rows);
    assert(groups.push(group).drop_last() =~= groups);
}

/// Where prompts are grouped by session, every prompt is in a group of its own session, every group holds
/// just the prompts of its session, and the groups stand in order of working directory, then of session,
/// no session twice.
pub proof fn groups_are_sessions(
    groups: Seq<SessionPrompts>,
    rows: Seq<StoredPrompt>,
    k: int,
    g: int,
    h: int,
)
    requires
        in_order(groups),
        holds_all(groups, rows),
        0 <= k < rows.len(),
        0 <= g < h < groups.len(),
    ensures
        exists|x: int|
            0 <= x < groups.len() && (#[trigger] groups[x]).cwd@ == rows[k].cwd@
                && groups[x].session_id@ == rows[k].session_id@ && groups[x].rows@.contains(rows[k]),
        groups[g].rows@ == rows_of(rows, groups[g].cwd@, groups[g].session_id@),
        groups[h].rows@ == rows_of(rows, groups[h].cwd@, groups[h].session_id@),
        groups[g].rows@.len() > 0,
        groups[h].rows@.len() > 0,
        precedes(groups[g].cwd@, groups[h].cwd@) || (groups[g].cwd@ == groups[h].cwd@ && precedes(
            groups[g].session_id@,
            groups[h].session_id@,
        )),
{
    assert(has_group(groups, rows[k].cwd@, rows[k].session_id@));
    let x = choose|x: int|
        0 <= x < groups.len() && (#[trigger] groups[x]).cwd@ == rows[k].cwd@
            && groups[x].session_id@ == rows[k].session_id@;
    let keep = |row: StoredPrompt|
        crate::batch::is_of(row, groups[x].cwd@, groups[x].session_id@);
    assert(groups[x].rows@ == rows_of(rows, groups[x].cwd@, groups[x].session_id@));
    rows.lemma_filter_contains(keep, k);
}

// ---------------------------------------------------------------------------------------------
// Fetching again
// ---------------------------------------------------------------------------------------------

/// Without a transcript nothing is fetched again.
pub proof fn nothing_is_fetched_without_a_transcript(row: StoredPrompt, offset: int)
    ensures
        refetched(None, row, offset) == RefetchView::NoTranscript,
{
}

/// Whether event `i` is the last prompt with the given uuid.
pub open spec fn is_last_with(values: Seq<JsonView>, i: int, uuid: Seq<char>) -> bool {
    &&& 0 <= i < values.len()
    &&& is_turn_of(values[i], uuid)
    &&& forall|j: int| i < j < values.len() ==> !is_turn_of(#[trigger] values[j], uuid)
}

/// Where the event of a prompt is known, what was said after it is fetched again under its uuid, unless
/// that is blank; where no prompt has the uuid, the turn is not found.
pub proof fn a_known_prompt_is_fetched_again(
    values: Seq<JsonView>,
    row: StoredPrompt,
    offset: int,
    i: int,
    uuid: Seq<char>,
)
    requires
        maybe(row.msg_uuid) == Some(uuid),
        uuid.len() > 0,
    ensures
        is_last_with(values, i, uuid) && !blank(reply_after(values, i)) ==> refetched(
            Some(values),
            row,
            offset,
        ) == (RefetchView::Update { response: reply_after(values, i), uuid }),
        is_last_with(values, i, uuid) && blank(reply_after(values, i)) ==> refetched(
            Some(values),
            row,
            offset,
        ) == RefetchView::Nothing,
        (forall|j: int| 0 <= j < values.len() ==> !is_turn_of(#[trigger] values[j], uuid))
            ==> refetched(Some(values), row, offset) == RefetchView::NoTurn,
{
    let n = values.len() as int;
    if is_last_with(values, i, uuid) {
        the_index_holds_the_last_reply(values, i, n, uuid);
    }
    if forall|j: int| 0 <= j < values.len() ==> !is_turn_of(#[trigger] values[j], uuid) {
        the_index_holds_prompts_only(values, n, uuid);
    }
}

/// Where no event is known, the prompt that was typed near the logged time less the offset is the one whose
/// reply is fetched again: the one prompt that is, where there is one.
pub proof fn a_prompt_is_fetched_again_by_its_time(
    values: Seq<JsonView>,
    row: StoredPrompt,
    offset: int,
    i: int,
    t: UserTurnView,
)
    requires
        row.msg_uuid is None,
        epoch_of(row.created_at@) is Some,
        is_prompt(values[i], t),
        is_last_with(values, i, t.uuid),
        is_close_to(t, epoch_of(row.created_at@)->0 - offset),
        forall|j: int, u: UserTurnView|
            0 <= j < values.len() && #[trigger] is_prompt(values[j], u) && u != t ==> !is_close_to(
                u,
                epoch_of(row.created_at@)->0 - offset,
            ),
    ensures
        !blank(reply_after(values, i)) ==> refetched(Some(values), row, offset)
            == (RefetchView::Update { response: reply_after(values, i), uuid: t.uuid }),
        blank(reply_after(values, i)) ==> refetched(Some(values), row, offset)
            == RefetchView::Nothing,
{
    let turns = turns_in(values);
    let local = epoch_of(row.created_at@)->0;
    every_prompt_is_a_turn(values, t);
    assert(turns.contains(t));
    let a = choose|a: int| 0 <= a < turns.len() && turns[a] == t;
    let b = a_near_prompt_is_found(turns, row.created_at@, row.prompt@, offset, local, a);
    assert(turns.contains(turns[b]));
    every_prompt_is_a_turn(values, turns[b]);
    let j = choose|j: int| 0 <= j < values.len() && is_prompt(#[trigger] values[j], turns[b]);
    assert(turns[b] == t);
    the_index_holds_the_last_reply(values, i, values.len() as int, t.uuid);
}

/// A prompt of which no event is known, and that no prompt of the transcript is near to, is not found.
pub proof fn a_far_prompt_is_not_fetched(values: Seq<JsonView>, row: StoredPrompt, offset: int)
    requires
        row.msg_uuid is None,
        resolved_uuid(turns_in(values), row.created_at@, row.prompt@, offset) is None,
    ensures
        refetched(Some(values), row, offset) == RefetchView::NoTurn,
{
}

/// A prompt that is logged later, where the clock is ahead by as much more, is fetched just the same.
pub proof fn the_offset_is_taken_off_when_fetching(
    transcript: Option<Seq<JsonView>>,
    row: StoredPrompt,
    later: StoredPrompt,
    by: int,
    offset: int,
)
    requires
        later.prompt@ == row.prompt@,
        maybe(later.msg_uuid) == maybe(row.msg_uuid),
        epoch_of(row.created_at@) is Some,
        epoch_of(later.created_at@) == Some(epoch_of(row.created_at@)->0 + by),
    ensures
        refetched(transcript, later, offset + by) == refetched(transcript, row, offset),
{
}

/// What was fetched is what is said to be.
pub proof fn what_is_fetched_is_said(r: Refetch)
    ensures
        r matches Refetch::Update { response, uuid } ==> r@ == (RefetchView::Update {
            response: response@,
            uuid: uuid@,
        }),
        r is Nothing ==> r@ is Nothing,
        r is NoTurn ==> r@ is NoTurn,
        r is NoTranscript ==> r@ is NoTranscript,
{
}

} // verus!
