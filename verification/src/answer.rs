//! Responses as plain text: what the assistant said from one prompt to the next.
//!
//! This is the older way of keeping a response, in one text per prompt. It is used by hand, to
//! recover a response that the collector did not get.

use vstd::prelude::*;

use crate::clock::{
    epoch_of, epochs_are_bounded, parse_iso_to_epoch, EPOCH_LIMIT, OFFSET_LIMIT,
};
use crate::json::{list_view, parse_lines, values_in, Json, JsonView};
use crate::text::{
    begins_with, blank, head, head_of, is_blank, join, joined, maybe, norm, normal, own,
    starts_with, text_eq, texts,
};
use crate::transcript::{is_block, or_empty};

verus! {

broadcast use crate::json::lemma_list_view;

// ---------------------------------------------------------------------------------------------
// Prompts and replies in a transcript
// ---------------------------------------------------------------------------------------------

/// What the blocks of a prompt say: the texts, and a mark for each image.
pub open spec fn typed_parts(blocks: Seq<JsonView>) -> Seq<Seq<char>>
    decreases blocks.len(),
{
    if blocks.len() == 0 {
        Seq::empty()
    } else {
        let before = typed_parts(blocks.drop_last());
        let b = blocks.last();
        let kind = b.text_member("type"@);
        if kind == Some("text"@) {
            match b.text_member("text"@) {
                Some(t) => before.push(t),
                None => before,
            }
        } else if kind == Some("image"@) {
            before.push("[Image]"@)
        } else {
            before
        }
    }
}

/// Whether one of the blocks is what a tool gave back.
pub open spec fn has_tool_result(blocks: Seq<JsonView>) -> bool {
    exists|i: int|
        0 <= i < blocks.len() && (#[trigger] blocks[i]).text_member("type"@) == Some(
            "tool_result"@,
        )
}

/// The text that was typed, where an event is a prompt: a user event that is neither injected nor
/// a subagent's, and more than what tools gave back.
pub open spec fn typed_text(json: JsonView) -> Option<Seq<char>> {
    if json.text_member("type"@) != Some("user"@) || json.flag("isMeta"@) || json.flag(
        "isSidechain"@,
    ) {
        None
    } else {
        match json.member2("message"@, "content"@) {
            Some(JsonView::Text(s)) => Some(s),
            Some(JsonView::List(blocks)) => {
                let parts = typed_parts(blocks);
                if has_tool_result(blocks) && parts.len() == 0 {
                    None
                } else {
                    Some(join(parts, "\n"@))
                }
            },
            _ => None,
        }
    }
}

/// A reply with one more block: prose becomes a paragraph of its own, a tool call a line in
/// brackets.
pub open spec fn with_block(reply: Seq<char>, block: JsonView) -> Seq<char> {
    let kind = block.text_member("type"@);
    if kind == Some("text"@) {
        match block.text_member("text"@) {
            Some(t) => if reply.len() == 0 {
                t
            } else {
                reply + "\n\n"@ + t
            },
            None => reply,
        }
    } else if kind == Some("tool_use"@) {
        let name = match block.text_member("name"@) {
            Some(n) => n,
            None => "?"@,
        };
        if reply.len() == 0 {
            "[tool: "@ + name + "]"@
        } else {
            reply + "\n"@ + "[tool: "@ + name + "]"@
        }
    } else {
        reply
    }
}

/// A reply with the blocks behind it.
pub open spec fn with_blocks(reply: Seq<char>, blocks: Seq<JsonView>) -> Seq<char>
    decreases blocks.len(),
{
    if blocks.len() == 0 {
        reply
    } else {
        with_block(with_blocks(reply, blocks.drop_last()), blocks.last())
    }
}

/// A reply with the blocks of an event behind it.
pub open spec fn with_event(reply: Seq<char>, json: JsonView) -> Seq<char> {
    match json.member2("message"@, "content"@) {
        Some(JsonView::List(blocks)) => with_blocks(reply, blocks),
        _ => reply,
    }
}

/// What the assistant said in the events from `from` up to `to`.
pub open spec fn reply(values: Seq<JsonView>, from: int, to: int) -> Seq<char>
    decreases to - from,
{
    if to <= from {
        Seq::empty()
    } else {
        let before = reply(values, from, to - 1);
        if values[to - 1].text_member("type"@) == Some("assistant"@) {
            with_event(before, values[to - 1])
        } else {
            before
        }
    }
}

/// The place of the first prompt from `from` on, or the end.
pub open spec fn next_prompt(values: Seq<JsonView>, from: int) -> int
    decreases values.len() - from,
{
    if from >= values.len() {
        values.len() as int
    } else if typed_text(values[from]) is Some {
        from
    } else {
        next_prompt(values, from + 1)
    }
}

/// What the assistant said after event `i` and before the next prompt.
pub open spec fn reply_after(values: Seq<JsonView>, i: int) -> Seq<char> {
    reply(values, i + 1, next_prompt(values, i + 1))
}

/// A prompt of a transcript.
#[derive(Debug)]
pub struct UserTurn {
    pub uuid: String,
    pub epoch: i64,
    pub text: String,
}

/// What a prompt of a transcript says.
pub struct UserTurnView {
    pub uuid: Seq<char>,
    pub epoch: int,
    pub text: Seq<char>,
}

impl View for UserTurn {
    type V = UserTurnView;

    open spec fn view(&self) -> UserTurnView {
        UserTurnView { uuid: self.uuid@, epoch: self.epoch as int, text: self.text@ }
    }
}

/// What the prompts of a list say.
pub open spec fn user_turns_view(turns: Seq<UserTurn>) -> Seq<UserTurnView> {
    turns.map_values(|t: UserTurn| t@)
}

/// When an event happened, 0 where it does not say.
pub open spec fn event_epoch(json: JsonView) -> int {
    match json.text_member("timestamp"@) {
        Some(ts) => match epoch_of(ts) {
            Some(e) => e,
            None => 0,
        },
        None => 0,
    }
}

/// The prompt that an event is, where it is one and has a uuid.
pub open spec fn turn_in(json: JsonView) -> Option<UserTurnView> {
    let uuid = or_empty(json.text_member("uuid"@));
    match typed_text(json) {
        Some(text) => if uuid.len() == 0 {
            None
        } else {
            Some(UserTurnView { uuid, epoch: event_epoch(json), text })
        },
        None => None,
    }
}

/// The prompts of a transcript that have a uuid, in order.
pub open spec fn turns_in(values: Seq<JsonView>) -> Seq<UserTurnView>
    decreases values.len(),
{
    if values.len() == 0 {
        Seq::empty()
    } else {
        let before = turns_in(values.drop_last());
        match turn_in(values.last()) {
            Some(t) => before.push(t),
            None => before,
        }
    }
}

/// What the assistant said to each of the prompts among the first `n` events, by their uuids.
/// Where a uuid occurs twice, the later prompt counts.
pub open spec fn replies_to(values: Seq<JsonView>, n: int) -> Map<Seq<char>, Seq<char>>
    decreases n,
{
    if n <= 0 {
        Map::empty()
    } else {
        let before = replies_to(values, n - 1);
        match turn_in(values[n - 1]) {
            Some(t) => before.insert(t.uuid, reply_after(values, n - 1)),
            None => before,
        }
    }
}

// ---------------------------------------------------------------------------------------------
// Reading events
// ---------------------------------------------------------------------------------------------

/// The `content` of an event's `message`.
fn message_content(json: &Json) -> (r: Option<&Json>)
    ensures
        r is Some == json@.member2("message"@, "content"@) is Some,
        r matches Some(c) ==> json@.member2("message"@, "content"@) == Some(c@),
{
    match json.get("message") {
        Some(message) => message.get("content"),
        None => None,
    }
}

/// The text that was typed, where an event is a prompt. Injected events, events of subagents and
/// what tools gave back are no prompts.
pub fn user_typed_text(json: &Json) -> (r: Option<String>)
    ensures
        maybe(r) == typed_text(json@),
{
    if !is_block(json, "user") || json.is_set("isMeta") || json.is_set("isSidechain") {
        return None;
    }
    match message_content(json) {
        Some(Json::Text(s)) => Some(own(s.as_str())),
        Some(Json::List(blocks)) => {
            let ghost all = list_view(blocks@);
            let mut parts: Vec<String> = Vec::new();
            let mut has_result = false;
            let mut i: usize = 0;
            proof {
                assert(texts(parts@) =~= typed_parts(all.take(0)));
            }
            while i < blocks.len()
                invariant
                    i <= blocks@.len(),
                    all == list_view(blocks@),
                    texts(parts@) == typed_parts(all.take(i as int)),
                    has_result == has_tool_result(all.take(i as int)),
                decreases blocks@.len() - i,
            {
                let b = &blocks[i];
                let ghost now = all.take(i as int);
                let ghost next = all.take(i + 1);
                proof {
                    assert(next.drop_last() =~= now);
                    assert(next.last() == b@);
                    assert(has_tool_result(next) == (has_tool_result(now) || b@.text_member(
                        "type"@,
                    ) == Some("tool_result"@))) by {
                        if has_tool_result(now) {
                            let k = choose|k: int|
                                0 <= k < now.len() && (#[trigger] now[k]).text_member("type"@)
                                    == Some("tool_result"@);
                            assert(next[k] == now[k]);
                        }
                        if b@.text_member("type"@) == Some("tool_result"@) {
                            assert(next[i as int] == b@);
                        }
                        if has_tool_result(next) {
                            let k = choose|k: int|
                                0 <= k < next.len() && (#[trigger] next[k]).text_member("type"@)
                                    == Some("tool_result"@);
                            if k < i {
                                assert(now[k] == next[k]);
                            }
                        }
                    }
                    reveal_strlit("text");
                    reveal_strlit("image");
                    reveal_strlit("tool_result");
                    assert("text"@.len() == 4);
                    assert("image"@.len() == 5);
                    assert("tool_result"@.len() == 11);
                }
                if is_block(b, "text") {
                    match b.text_of("text") {
                        Some(t) => {
                            let ghost before = texts(parts@);
                            parts.push(own(t));
                            proof {
                                assert(texts(parts@) =~= before.push(t@));
                            }
                        },
                        None => {},
                    }
                } else if is_block(b, "image") {
                    let ghost before = texts(parts@);
                    parts.push(own("[Image]"));
                    proof {
                        assert(texts(parts@) =~= before.push("[Image]"@));
                    }
                } else if is_block(b, "tool_result") {
                    has_result = true;
                }
                i = i + 1;
            }
            proof {
                assert(all.take(all.len() as int) =~= all);
                assert(texts(parts@).len() == parts@.len());
            }
            if has_result && parts.len() == 0 {
                return None;
            }
            Some(joined(&parts, "\n"))
        },
        _ => None,
    }
}

/// Puts the blocks of an assistant's event behind a reply.
pub fn append_assistant_blocks(json: &Json, out: &mut String)
    ensures
        final(out)@ == with_event(old(out)@, json@),
{
    match message_content(json) {
        Some(Json::List(blocks)) => {
            let ghost start = out@;
            let ghost all = list_view(blocks@);
            let mut i: usize = 0;
            while i < blocks.len()
                invariant
                    i <= blocks@.len(),
                    all == list_view(blocks@),
                    out@ == with_blocks(start, all.take(i as int)),
                decreases blocks@.len() - i,
            {
                let b = &blocks[i];
                proof {
                    assert(all.take(i + 1).drop_last() =~= all.take(i as int));
                    assert(all.take(i + 1).last() == b@);
                }
                let ghost before = out@;
                if is_block(b, "text") {
                    match b.text_of("text") {
                        Some(t) => {
                            if !out.as_str().is_empty() {
                                out.append("\n\n");
                            }
                            out.append(t);
                            proof {
                                if before.len() == 0 {
                                    assert(before + t@ =~= t@);
                                }
                            }
                        },
                        None => {},
                    }
                } else if is_block(b, "tool_use") {
                    let name = match b.text_of("name") {
                        Some(n) => n,
                        None => "?",
                    };
                    if !out.as_str().is_empty() {
                        out.append("\n");
                    }
                    out.append("[tool: ");
                    out.append(name);
                    out.append("]");
                    proof {
                        if before.len() == 0 {
                            assert(before + "[tool: "@ =~= "[tool: "@);
                        }
                    }
                }
                i = i + 1;
            }
            proof {
                assert(all.take(all.len() as int) =~= all);
            }
        },
        _ => {},
    }
}

/// The prompt that an event with the given text is, where it has a uuid.
fn turn_with_text(json: &Json, text: String) -> (r: Option<UserTurn>)
    requires
        typed_text(json@) == Some(text@),
    ensures
        r is Some == turn_in(json@) is Some,
        r matches Some(t) ==> turn_in(json@) == Some(t@) && -EPOCH_LIMIT <= t.epoch <= EPOCH_LIMIT,
{
    let uuid = match json.text_of("uuid") {
        Some(u) => u,
        None => "",
    };
    proof {
        reveal_strlit("");
        assert(json@.text_member("uuid"@) is None ==> uuid@ =~= Seq::empty());
    }
    if uuid.is_empty() {
        return None;
    }
    let epoch: i64 = match json.text_of("timestamp") {
        Some(ts) => match parse_iso_to_epoch(ts) {
            Some(e) => e,
            None => 0,
        },
        None => 0,
    };
    Some(UserTurn { uuid: own(uuid), epoch, text })
}

/// Whether every prompt of a list has a time that a text can write down.
pub open spec fn epochs_fit(turns: Seq<UserTurn>) -> bool {
    forall|i: int|
        0 <= i < turns.len() ==> -EPOCH_LIMIT <= (#[trigger] turns[i]).epoch <= EPOCH_LIMIT
}

/// The prompts of a transcript that have a uuid, in order.
pub fn build_user_turns(values: &Vec<Json>) -> (r: Vec<UserTurn>)
    ensures
        user_turns_view(r@) == turns_in(list_view(values@)),
        epochs_fit(r@),
{
    let ghost all = list_view(values@);
    let mut out: Vec<UserTurn> = Vec::new();
    let mut i: usize = 0;
    proof {
        assert(user_turns_view(out@) =~= turns_in(all.take(0)));
    }
    while i < values.len()
        invariant
            i <= values@.len(),
            all == list_view(values@),
            user_turns_view(out@) == turns_in(all.take(i as int)),
            epochs_fit(out@),
        decreases values@.len() - i,
    {
        proof {
            assert(all.take(i + 1).drop_last() =~= all.take(i as int));
            assert(all.take(i + 1).last() == values@[i as int]@);
        }
        match user_typed_text(&values[i]) {
            Some(text) => match turn_with_text(&values[i], text) {
                Some(t) => {
                    let ghost before = user_turns_view(out@);
                    let ghost added = t@;
                    out.push(t);
                    proof {
                        assert(user_turns_view(out@) =~= before.push(added));
                    }
                },
                None => {},
            },
            None => {},
        }
        i = i + 1;
    }
    proof {
        assert(all.take(all.len() as int) =~= all);
    }
    out
}

// ---------------------------------------------------------------------------------------------
// The index of a session
// ---------------------------------------------------------------------------------------------

/// The prompts of a transcript and what the assistant said to each, found in one pass.
#[derive(Debug)]
pub struct SessionIndex {
    pub turns: Vec<UserTurn>,
    /// The replies by the uuids of their prompts. Where a uuid occurs twice, the later reply
    /// counts.
    pub responses: Vec<(String, String)>,
}

/// The mapping that pairs stand for: where a key occurs twice, the later pair counts.
pub open spec fn pairs_view(pairs: Seq<(String, String)>) -> Map<Seq<char>, Seq<char>>
    decreases pairs.len(),
{
    if pairs.len() == 0 {
        Map::empty()
    } else {
        pairs_view(pairs.drop_last()).insert(pairs.last().0@, pairs.last().1@)
    }
}

impl SessionIndex {
    /// The replies by the uuids of their prompts.
    pub open spec fn replies(self) -> Map<Seq<char>, Seq<char>> {
        pairs_view(self.responses@)
    }

    /// What the assistant said to the prompt with the given uuid.
    pub fn response(&self, uuid: &str) -> (r: Option<&str>)
        ensures
            r is Some == self.replies().dom().contains(uuid@),
            r matches Some(s) ==> s@ == self.replies()[uuid@],
    {
        let mut i: usize = self.responses.len();
        proof {
            assert(self.responses@.take(i as int) =~= self.responses@);
        }
        while i > 0
            invariant
                i <= self.responses@.len(),
                self.replies().dom().contains(uuid@) == pairs_view(
                    self.responses@.take(i as int),
                ).dom().contains(uuid@),
                self.replies().dom().contains(uuid@) ==> self.replies()[uuid@] == pairs_view(
                    self.responses@.take(i as int),
                )[uuid@],
            decreases i,
        {
            i = i - 1;
            proof {
                assert(self.responses@.take(i + 1).drop_last() =~= self.responses@.take(i as int));
            }
            if text_eq(self.responses[i].0.as_str(), uuid) {
                return Some(self.responses[i].1.as_str());
            }
        }
        None
    }
}

/// Where no event from `a` up to `b` is a prompt, no reply is added and the next prompt is the
/// same.
proof fn lemma_no_prompt_between(values: Seq<JsonView>, a: int, b: int)
    requires
        0 <= a <= b <= values.len(),
        forall|i: int| a <= i < b ==> typed_text(#[trigger] values[i]) is None,
    ensures
        replies_to(values, a) == replies_to(values, b),
        next_prompt(values, a) == next_prompt(values, b),
    decreases b - a,
{
    if a < b {
        assert(typed_text(values[a]) is None);
        lemma_no_prompt_between(values, a, b - 1);
        assert(typed_text(values[b - 1]) is None);
    }
}

/// Where the last prompt before `n` is, and what has been gathered since.
spec fn gathered(
    values: Seq<JsonView>,
    n: int,
    current: Option<Seq<char>>,
    out: Seq<char>,
    done: Map<Seq<char>, Seq<char>>,
    p: int,
) -> bool {
    match current {
        Some(uuid) => {
            &&& 0 <= p < n
            &&& turn_in(values[p]) is Some
            &&& turn_in(values[p])->0.uuid == uuid
            &&& forall|i: int| p < i < n ==> typed_text(#[trigger] values[i]) is None
            &&& out == reply(values, p + 1, n)
            &&& done == replies_to(values, p)
        },
        None => done == replies_to(values, n),
    }
}

/// What has been gathered since the last prompt is the reply to it, where another prompt comes or
/// the transcript ends.
proof fn lemma_reply_is_whole(
    values: Seq<JsonView>,
    n: int,
    uuid: Seq<char>,
    out: Seq<char>,
    done: Map<Seq<char>, Seq<char>>,
    p: int,
)
    requires
        gathered(values, n, Some(uuid), out, done, p),
        n <= values.len(),
        n < values.len() ==> typed_text(values[n]) is Some,
    ensures
        done.insert(uuid, out) == replies_to(values, n),
{
    lemma_no_prompt_between(values, p + 1, n);
    assert(next_prompt(values, n) == n);
    assert(replies_to(values, p + 1) == replies_to(values, p).insert(uuid, out));
}

/// The prompts of a transcript and what the assistant said to each, in one pass over its events.
pub fn build_session_index(values: &Vec<Json>) -> (r: SessionIndex)
    ensures
        user_turns_view(r.turns@) == turns_in(list_view(values@)),
        epochs_fit(r.turns@),
        r.replies() == replies_to(list_view(values@), values@.len() as int),
{
    let ghost all = list_view(values@);
    let mut turns: Vec<UserTurn> = Vec::new();
    let mut responses: Vec<(String, String)> = Vec::new();
    let mut current: Option<String> = None;
    let mut out = String::new();
    let ghost mut p: int = 0;
    let mut n: usize = 0;
    proof {
        assert(user_turns_view(turns@) =~= turns_in(all.take(0)));
    }
    while n < values.len()
        invariant
            n <= values@.len(),
            all == list_view(values@),
            user_turns_view(turns@) == turns_in(all.take(n as int)),
            epochs_fit(turns@),
            gathered(all, n as int, maybe(current), out@, pairs_view(responses@), p),
        decreases values@.len() - n,
    {
        let json = &values[n];
        proof {
            assert(all.take(n + 1).drop_last() =~= all.take(n as int));
            assert(all.take(n + 1).last() == json@);
            assert(all[n as int] == json@);
            reveal_strlit("user");
            reveal_strlit("assistant");
            assert("user"@.len() == 4);
            assert("assistant"@.len() == 9);
        }
        match user_typed_text(json) {
            Some(text) => {
                // A prompt closes the reply to the one before it.
                match current {
                    Some(uuid) => {
                        let ghost before = responses@;
                        let ghost key = uuid@;
                        let ghost gist = out@;
                        responses.push((uuid, out));
                        proof {
                            assert(responses@.drop_last() =~= before);
                            lemma_reply_is_whole(all, n as int, key, gist, pairs_view(before), p);
                        }
                    },
                    None => {},
                }
                proof {
                    assert(pairs_view(responses@) == replies_to(all, n as int));
                }
                out = String::new();
                match turn_with_text(json, text) {
                    Some(t) => {
                        current = Some(t.uuid.clone());
                        let ghost before = user_turns_view(turns@);
                        let ghost added = t@;
                        turns.push(t);
                        proof {
                            assert(user_turns_view(turns@) =~= before.push(added));
                            p = n as int;
                            assert(reply(all, p + 1, n + 1) =~= Seq::empty());
                        }
                    },
                    None => {
                        current = None;
                    },
                }
            },
            None => {
                if is_block(json, "assistant") && current.is_some() {
                    append_assistant_blocks(json, &mut out);
                }
            },
        }
        n = n + 1;
    }
    match current {
        Some(uuid) => {
            let ghost before = responses@;
            let ghost key = uuid@;
            let ghost gist = out@;
            responses.push((uuid, out));
            proof {
                assert(responses@.drop_last() =~= before);
                lemma_reply_is_whole(all, n as int, key, gist, pairs_view(before), p);
            }
        },
        None => {},
    }
    proof {
        assert(all.take(all.len() as int) =~= all);
    }
    SessionIndex { turns, responses }
}

// ---------------------------------------------------------------------------------------------
// Finding the prompt
// ---------------------------------------------------------------------------------------------

/// How many seconds apart a logged prompt and its event may be.
pub const TURN_WINDOW: i64 = 30;

/// The seconds between a prompt of the transcript and a time.
pub open spec fn seconds_between(turn: UserTurnView, target: int) -> int {
    if turn.epoch < target {
        target - turn.epoch
    } else {
        turn.epoch - target
    }
}

/// Whether a prompt of the transcript was typed at most half a minute from the time.
pub open spec fn is_near(turns: Seq<UserTurnView>, i: int, target: int) -> bool {
    0 <= i < turns.len() && seconds_between(turns[i], target) <= TURN_WINDOW
}

/// Whether a near prompt of the transcript starts like the given text.
pub open spec fn is_alike(
    turns: Seq<UserTurnView>,
    i: int,
    target: int,
    text: Seq<char>,
) -> bool {
    let beginning = head(normal(text), 24);
    &&& is_near(turns, i, target)
    &&& beginning.len() > 0
    &&& starts_with(normal(turns[i].text), beginning)
}

/// Whether a prompt of the transcript may be chosen: one that starts alike, or any near one where
/// none starts alike.
pub open spec fn is_choice(
    turns: Seq<UserTurnView>,
    i: int,
    target: int,
    text: Seq<char>,
) -> bool {
    if exists|j: int| is_alike(turns, j, target, text) {
        is_alike(turns, i, target, text)
    } else {
        is_near(turns, i, target)
    }
}

/// Whether a prompt is the nearest that may be chosen, and the first of those equally near.
pub open spec fn is_nearest(
    turns: Seq<UserTurnView>,
    i: int,
    target: int,
    text: Seq<char>,
) -> bool {
    &&& is_choice(turns, i, target, text)
    &&& forall|j: int| #[trigger]
        is_choice(turns, j, target, text) ==> seconds_between(turns[i], target) < seconds_between(
            turns[j],
            target,
        ) || (seconds_between(turns[i], target) == seconds_between(turns[j], target) && i <= j)
}

/// The uuid of the nearest prompt that may be chosen.
pub open spec fn nearest_uuid(
    turns: Seq<UserTurnView>,
    target: int,
    text: Seq<char>,
) -> Option<Seq<char>> {
    if exists|i: int| is_nearest(turns, i, target, text) {
        Some(turns[choose|i: int| is_nearest(turns, i, target, text)].uuid)
    } else {
        None
    }
}

/// The uuid of the prompt of the transcript that was logged at the given local time with the given
/// text.
pub open spec fn resolved_uuid(
    turns: Seq<UserTurnView>,
    created_at: Seq<char>,
    text: Seq<char>,
    offset: int,
) -> Option<Seq<char>> {
    match epoch_of(created_at) {
        Some(e) => nearest_uuid(turns, e - offset, text),
        None => None,
    }
}

/// No two prompts are the nearest.
proof fn lemma_one_nearest(
    turns: Seq<UserTurnView>,
    a: int,
    b: int,
    target: int,
    text: Seq<char>,
)
    requires
        is_nearest(turns, a, target, text),
        is_nearest(turns, b, target, text),
    ensures
        a == b,
{
    assert(is_choice(turns, a, target, text));
    assert(is_choice(turns, b, target, text));
}

/// The nearest of the prompts from which a choice is made: of those that start alike, or of all
/// near ones.
fn nearest_turn(
    turns: &Vec<UserTurn>,
    target: i64,
    beginning: &str,
    only_alike: bool,
    Ghost(text): Ghost<Seq<char>>,
) -> (r: Option<usize>)
    requires
        beginning@ == head(normal(text), 24),
        forall|i: int|
            0 <= i < turns@.len() ==> seconds_between(
                (#[trigger] turns@[i])@,
                target as int,
            ) <= i64::MAX,
    ensures
        match r {
            Some(b) => {
                &&& b < turns@.len()
                &&& is_near(user_turns_view(turns@), b as int, target as int)
                &&& only_alike ==> is_alike(user_turns_view(turns@), b as int, target as int, text)
                &&& forall|j: int|
                    #![trigger user_turns_view(turns@)[j]]
                    (if only_alike {
                        is_alike(user_turns_view(turns@), j, target as int, text)
                    } else {
                        is_near(user_turns_view(turns@), j, target as int)
                    }) ==> seconds_between(turns@[b as int]@, target as int) < seconds_between(
                        user_turns_view(turns@)[j],
                        target as int,
                    ) || (seconds_between(turns@[b as int]@, target as int) == seconds_between(
                        user_turns_view(turns@)[j],
                        target as int,
                    ) && b <= j)
            },
            None => forall|j: int|
                #![trigger user_turns_view(turns@)[j]]
                !(if only_alike {
                    is_alike(user_turns_view(turns@), j, target as int, text)
                } else {
                    is_near(user_turns_view(turns@), j, target as int)
                }),
        },
{
    let ghost view = user_turns_view(turns@);
    let ghost t = target as int;
    let mut best: Option<(i64, usize)> = None;
    let mut i: usize = 0;
    while i < turns.len()
        invariant
            i <= turns@.len(),
            view == user_turns_view(turns@),
            t == target,
            beginning@ == head(normal(text), 24),
            forall|i: int|
                0 <= i < turns@.len() ==> seconds_between(
                    (#[trigger] turns@[i])@,
                    target as int,
                ) <= i64::MAX,
            match best {
                Some((d, b)) => {
                    &&& b < i
                    &&& is_near(view, b as int, t)
                    &&& only_alike ==> is_alike(view, b as int, t, text)
                    &&& d == seconds_between(view[b as int], t)
                    &&& forall|j: int|
                        #![trigger view[j]]
                        0 <= j < i && (if only_alike {
                            is_alike(view, j, t, text)
                        } else {
                            is_near(view, j, t)
                        }) ==> d < seconds_between(view[j], t) || (d == seconds_between(view[j], t)
                            && b <= j)
                },
                None => forall|j: int|
                    #![trigger view[j]]
                    0 <= j < i ==> !(if only_alike {
                        is_alike(view, j, t, text)
                    } else {
                        is_near(view, j, t)
                    }),
            },
        decreases turns@.len() - i,
    {
        let u = &turns[i];
        proof {
            assert(view[i as int] == u@);
            assert(seconds_between(turns@[i as int]@, t) <= i64::MAX);
        }
        let d: i64 = if u.epoch < target {
            target - u.epoch
        } else {
            u.epoch - target
        };
        if d <= TURN_WINDOW {
            let fits = !only_alike || (!beginning.is_empty() && begins_with(
                norm(u.text.as_str()).as_str(),
                beginning,
            ));
            if fits {
                let better = match best {
                    Some((b, _)) => d < b,
                    None => true,
                };
                if better {
                    best = Some((d, i));
                }
            }
        }
        i = i + 1;
    }
    match best {
        Some((_, b)) => {
            proof {
                assert(view[b as int] == turns@[b as int]@);
            }
            Some(b)
        },
        None => None,
    }
}

/// Whether the seconds between the prompts of the transcript and a logged one fit into 64 bits.
pub open spec fn seconds_fit(turns: Seq<UserTurnView>, created_at: Seq<char>, offset: int) -> bool {
    epoch_of(created_at) matches Some(e) ==> {
        &&& i64::MIN <= e - offset <= i64::MAX
        &&& forall|i: int|
            0 <= i < turns.len() ==> seconds_between(#[trigger] turns[i], e - offset) <= i64::MAX
    }
}

/// The uuid of the prompt of the transcript that was logged at the given local time, `offset`
/// seconds ahead, with the given text: the nearest in time of those that start alike, or of all
/// near ones where none does.
pub fn resolve_uuid(
    turns: &Vec<UserTurn>,
    created_at: &str,
    prompt_text: &str,
    offset: i64,
) -> (r: Option<String>)
    requires
        seconds_fit(user_turns_view(turns@), created_at@, offset as int),
    ensures
        maybe(r) == resolved_uuid(
            user_turns_view(turns@),
            created_at@,
            prompt_text@,
            offset as int,
        ),
{
    let ghost view = user_turns_view(turns@);
    let ghost text = prompt_text@;
    let target: i64 = match parse_iso_to_epoch(created_at) {
        Some(e) => e - offset,
        None => {
            return None;
        },
    };
    let ghost t = target as int;
    let beginning = head_of(norm(prompt_text).as_str(), 24);
    proof {
        assert forall|i: int| 0 <= i < turns@.len() implies seconds_between(
            (#[trigger] turns@[i])@,
            t,
        ) <= i64::MAX by {
            assert(view[i] == turns@[i]@);
        }
    }
    let alike = nearest_turn(turns, target, beginning.as_str(), true, Ghost(text));
    match alike {
        Some(b) => {
            proof {
                assert(is_alike(view, b as int, t, text));
                assert forall|j: int| #[trigger] is_choice(view, j, t, text) implies seconds_between(
                    view[b as int],
                    t,
                ) < seconds_between(view[j], t) || (seconds_between(view[b as int], t)
                    == seconds_between(view[j], t) && b <= j) by {
                    assert(is_alike(view, j, t, text));
                    let _ = view[j];
                }
                assert(is_nearest(view, b as int, t, text));
                lemma_one_nearest(
                    view,
                    b as int,
                    choose|i: int| is_nearest(view, i, t, text),
                    t,
                    text,
                );
            }
            return Some(turns[b].uuid.clone());
        },
        None => {},
    }
    proof {
        assert forall|j: int| !is_alike(view, j, t, text) by {
            let _ = view[j];
        }
    }
    let near = nearest_turn(turns, target, beginning.as_str(), false, Ghost(text));
    match near {
        Some(b) => {
            proof {
                assert forall|j: int| #[trigger] is_choice(view, j, t, text) implies seconds_between(
                    view[b as int],
                    t,
                ) < seconds_between(view[j], t) || (seconds_between(view[b as int], t)
                    == seconds_between(view[j], t) && b <= j) by {
                    assert(is_near(view, j, t));
                    let _ = view[j];
                }
                assert(is_choice(view, b as int, t, text));
                assert(is_nearest(view, b as int, t, text));
                lemma_one_nearest(
                    view,
                    b as int,
                    choose|i: int| is_nearest(view, i, t, text),
                    t,
                    text,
                );
            }
            Some(turns[b].uuid.clone())
        },
        None => {
            proof {
                assert forall|i: int| !is_nearest(view, i, t, text) by {
                    let _ = view[i];
                }
            }
            None
        },
    }
}

// ---------------------------------------------------------------------------------------------
// Extracting a reply
// ---------------------------------------------------------------------------------------------

/// The place of the first user event with the given uuid.
pub open spec fn first_user_event(values: Seq<JsonView>, uuid: Seq<char>) -> Option<int>
    decreases values.len(),
{
    if values.len() == 0 {
        None
    } else {
        match first_user_event(values.drop_last(), uuid) {
            Some(i) => Some(i),
            None => if is_user_event(values.last(), uuid) {
                Some(values.len() - 1)
            } else {
                None
            },
        }
    }
}

/// Whether an event is a user event with the given uuid.
pub open spec fn is_user_event(json: JsonView, uuid: Seq<char>) -> bool {
    json.text_member("type"@) == Some("user"@) && json.text_member("uuid"@) == Some(uuid)
}

/// What the assistant said after the user event with the given uuid and before the next prompt,
/// where there is such an event.
pub open spec fn reply_to_uuid(values: Seq<JsonView>, uuid: Seq<char>) -> Option<Seq<char>> {
    match first_user_event(values, uuid) {
        Some(i) => Some(reply_after(values, i)),
        None => None,
    }
}

/// Whether two texts are alike but for white space: one starts with the other.
pub open spec fn texts_alike(text: Seq<char>, target: Seq<char>) -> bool {
    let t = normal(text);
    let p = normal(target);
    p.len() > 0 && (starts_with(t, p) || starts_with(p, t))
}

/// The place of the first prompt that is alike the given text.
pub open spec fn first_alike(values: Seq<JsonView>, target: Seq<char>) -> Option<int>
    decreases values.len(),
{
    if values.len() == 0 {
        None
    } else {
        match first_alike(values.drop_last(), target) {
            Some(i) => Some(i),
            None => match typed_text(values.last()) {
                Some(text) => if texts_alike(text, target) {
                    Some(values.len() - 1)
                } else {
                    None
                },
                None => None,
            },
        }
    }
}

/// What the assistant said to the first prompt that is alike the given text, where there is one.
pub open spec fn reply_to_text(values: Seq<JsonView>, target: Seq<char>) -> Option<Seq<char>> {
    match first_alike(values, target) {
        Some(i) => Some(reply_after(values, i)),
        None => None,
    }
}

/// What the assistant said from an event on and before the next prompt.
fn gather(values: &Vec<Json>, from: usize) -> (r: String)
    requires
        from <= values@.len(),
    ensures
        r@ == reply(list_view(values@), from as int, next_prompt(list_view(values@), from as int)),
{
    let ghost all = list_view(values@);
    let mut out = String::new();
    let mut i: usize = from;
    while i < values.len()
        invariant
            from <= i <= values@.len(),
            all == list_view(values@),
            out@ == reply(all, from as int, i as int),
            forall|k: int| from <= k < i ==> typed_text(#[trigger] all[k]) is None,
        decreases values@.len() - i,
    {
        proof {
            assert(all[i as int] == values@[i as int]@);
        }
        if user_typed_text(&values[i]).is_some() {
            proof {
                lemma_no_prompt_between(all, from as int, i as int);
                assert(next_prompt(all, i as int) == i);
            }
            return out;
        }
        if is_block(&values[i], "assistant") {
            append_assistant_blocks(&values[i], &mut out);
        }
        i = i + 1;
    }
    proof {
        lemma_no_prompt_between(all, from as int, i as int);
    }
    out
}

/// What the assistant said after the user event with the given uuid and before the next prompt,
/// where there is such an event. What tools gave back and injected events in between are passed
/// over.
pub fn extract_response_by_uuid(values: &Vec<Json>, target_uuid: &str) -> (r: Option<String>)
    ensures
        maybe(r) == reply_to_uuid(list_view(values@), target_uuid@),
{
    let ghost all = list_view(values@);
    let mut i: usize = 0;
    let mut found: Option<usize> = None;
    while i < values.len()
        invariant
            i <= values@.len(),
            all == list_view(values@),
            found matches Some(x) ==> x < i && first_user_event(
                all.take(i as int),
                target_uuid@,
            ) == Some(x as int),
            found is None ==> first_user_event(all.take(i as int), target_uuid@) is None,
        decreases values@.len() - i,
    {
        proof {
            assert(all.take(i + 1).drop_last() =~= all.take(i as int));
            assert(all.take(i + 1).last() == values@[i as int]@);
        }
        if found.is_none() && is_block(&values[i], "user") {
            match values[i].text_of("uuid") {
                Some(u) => {
                    if text_eq(u, target_uuid) {
                        found = Some(i);
                    }
                },
                None => {},
            }
        }
        i = i + 1;
    }
    proof {
        assert(all.take(all.len() as int) =~= all);
    }
    match found {
        Some(x) => Some(gather(values, x + 1)),
        None => None,
    }
}

/// What the assistant said to the first prompt that is alike the given text, where there is one.
/// This is for prompts that nothing better finds.
pub fn extract_response_from_jsonl(values: &Vec<Json>, target_prompt: &str) -> (r: Option<String>)
    ensures
        maybe(r) == reply_to_text(list_view(values@), target_prompt@),
{
    let ghost all = list_view(values@);
    let target = norm(target_prompt);
    let mut i: usize = 0;
    let mut found: Option<usize> = None;
    while i < values.len()
        invariant
            i <= values@.len(),
            all == list_view(values@),
            target@ == normal(target_prompt@),
            found matches Some(x) ==> x < i && first_alike(all.take(i as int), target_prompt@)
                == Some(x as int),
            found is None ==> first_alike(all.take(i as int), target_prompt@) is None,
        decreases values@.len() - i,
    {
        proof {
            assert(all.take(i + 1).drop_last() =~= all.take(i as int));
            assert(all.take(i + 1).last() == values@[i as int]@);
        }
        if found.is_none() {
            match user_typed_text(&values[i]) {
                Some(text) => {
                    let t = norm(text.as_str());
                    if !target.as_str().is_empty() && (begins_with(t.as_str(), target.as_str())
                        || begins_with(target.as_str(), t.as_str())) {
                        found = Some(i);
                    }
                },
                None => {},
            }
        }
        i = i + 1;
    }
    proof {
        assert(all.take(all.len() as int) =~= all);
    }
    match found {
        Some(x) => Some(gather(values, x + 1)),
        None => None,
    }
}

// ---------------------------------------------------------------------------------------------
// Recovering a response
// ---------------------------------------------------------------------------------------------

/// A logged prompt whose response is looked for.
#[derive(Debug)]
pub struct LoggedPrompt {
    pub session_id: Option<String>,
    pub cwd: Option<String>,
    pub prompt: String,
    pub created_at: String,
    /// The event that an earlier run found for the prompt.
    pub msg_uuid: Option<String>,
}

/// A response that was found in a transcript, and the uuid of its prompt where that is known.
#[derive(Debug)]
pub struct Recovered {
    pub response: String,
    pub uuid: Option<String>,
}

/// A reply that is more than white space.
pub open spec fn not_blank(reply: Option<Seq<char>>) -> Option<Seq<char>> {
    match reply {
        Some(s) => if blank(s) {
            None
        } else {
            Some(s)
        },
        None => None,
    }
}

/// The response to a prompt, with the uuid of its event: the event that an earlier run found comes
/// first, then the one that time and text point to, then the first prompt with such a text. A
/// reply of nothing but white space is none.
pub open spec fn recovered(
    values: Seq<JsonView>,
    prompt: Seq<char>,
    created_at: Seq<char>,
    msg_uuid: Option<Seq<char>>,
    offset: int,
) -> Option<(Seq<char>, Option<Seq<char>>)> {
    let cached = match msg_uuid {
        Some(u) => not_blank(reply_to_uuid(values, u)),
        None => None,
    };
    let resolved = resolved_uuid(turns_in(values), created_at, prompt, offset);
    let by_time = match resolved {
        Some(u) => not_blank(reply_to_uuid(values, u)),
        None => None,
    };
    match (cached, by_time, not_blank(reply_to_text(values, prompt))) {
        (Some(r), _, _) => Some((r, msg_uuid)),
        (None, Some(r), _) => Some((r, resolved)),
        (None, None, Some(r)) => Some((r, msg_uuid)),
        (None, None, None) => None,
    }
}

/// What a recovered response says.
pub open spec fn recovered_view(r: Option<Recovered>) -> Option<(Seq<char>, Option<Seq<char>>)> {
    match r {
        Some(x) => Some((x.response@, maybe(x.uuid))),
        None => None,
    }
}

/// A reply that is more than white space.
fn unless_blank(reply: Option<String>) -> (r: Option<String>)
    ensures
        maybe(r) == not_blank(maybe(reply)),
{
    match reply {
        Some(s) => {
            if is_blank(s.as_str()) {
                None
            } else {
                Some(s)
            }
        },
        None => None,
    }
}

/// The times of a transcript and of a logged prompt are so near that the seconds between them fit.
pub(crate) proof fn lemma_seconds_fit(turns: Seq<UserTurn>, created_at: Seq<char>, offset: i64)
    requires
        epochs_fit(turns),
        -OFFSET_LIMIT <= offset <= OFFSET_LIMIT,
    ensures
        seconds_fit(user_turns_view(turns), created_at, offset as int),
{
    epochs_are_bounded(created_at);
    let view = user_turns_view(turns);
    match epoch_of(created_at) {
        Some(e) => {
            assert forall|i: int| 0 <= i < view.len() implies seconds_between(
                #[trigger] view[i],
                e - offset,
            ) <= i64::MAX by {
                assert(-EPOCH_LIMIT <= turns[i].epoch <= EPOCH_LIMIT);
            }
        },
        None => {},
    }
}

/// The response to a prompt in a transcript, where there is one.
pub fn recover_response(
    values: &Vec<Json>,
    prompt: &str,
    created_at: &str,
    msg_uuid: &Option<String>,
    offset: i64,
) -> (r: Option<Recovered>)
    requires
        -OFFSET_LIMIT <= offset <= OFFSET_LIMIT,
    ensures
        recovered_view(r) == recovered(
            list_view(values@),
            prompt@,
            created_at@,
            maybe(*msg_uuid),
            offset as int,
        ),
{
    match msg_uuid {
        Some(u) => match unless_blank(extract_response_by_uuid(values, u.as_str())) {
            Some(response) => {
                return Some(Recovered { response, uuid: msg_uuid.clone() });
            },
            None => {},
        },
        None => {},
    }
    let turns = build_user_turns(values);
    proof {
        lemma_seconds_fit(turns@, created_at@, offset);
    }
    match resolve_uuid(&turns, created_at, prompt, offset) {
        Some(u) => match unless_blank(extract_response_by_uuid(values, u.as_str())) {
            Some(response) => {
                return Some(Recovered { response, uuid: Some(u) });
            },
            None => {},
        },
        None => {},
    }
    match unless_blank(extract_response_from_jsonl(values, prompt)) {
        Some(response) => Some(Recovered { response, uuid: msg_uuid.clone() }),
        None => None,
    }
}

/// Whether the turn of a prompt is in a transcript: by the event that an earlier run found, by time
/// and text, or by text alone.
pub open spec fn turn_found(values: Seq<JsonView>, row: LoggedPrompt, offset: int) -> bool {
    ||| (maybe(row.msg_uuid) matches Some(u) && reply_to_uuid(values, u) is Some)
    ||| resolved_uuid(turns_in(values), row.created_at@, row.prompt@, offset) is Some
    ||| first_alike(values, row.prompt@) is Some
}

/// Whether the turn of a prompt is in a transcript.
pub fn has_turn(values: &Vec<Json>, row: &LoggedPrompt, offset: i64) -> (r: bool)
    requires
        -OFFSET_LIMIT <= offset <= OFFSET_LIMIT,
    ensures
        r == turn_found(list_view(values@), *row, offset as int),
{
    match &row.msg_uuid {
        Some(u) => {
            if extract_response_by_uuid(values, u.as_str()).is_some() {
                return true;
            }
        },
        None => {},
    }
    let turns = build_user_turns(values);
    proof {
        lemma_seconds_fit(turns@, row.created_at@, offset);
    }
    if resolve_uuid(&turns, row.created_at.as_str(), row.prompt.as_str(), offset).is_some() {
        return true;
    }
    extract_response_from_jsonl(values, row.prompt.as_str()).is_some()
}

/// What a transcript that was read says of the response to a prompt.
#[derive(Debug)]
pub enum Fetched {
    /// This is the response.
    Response(Recovered),
    /// The turn of the prompt is there, and has no response.
    Empty,
    /// The turn of the prompt was not found, so nothing can be told of its response.
    NoTurn,
}

/// What a transcript that was read says of the response to a prompt, over texts.
pub ghost enum FetchedView {
    Response(Seq<char>, Option<Seq<char>>),
    Empty,
    NoTurn,
}

impl View for Fetched {
    type V = FetchedView;

    open spec fn view(&self) -> FetchedView {
        match *self {
            Fetched::Response(r) => FetchedView::Response(r.response@, maybe(r.uuid)),
            Fetched::Empty => FetchedView::Empty,
            Fetched::NoTurn => FetchedView::NoTurn,
        }
    }
}

impl Fetched {
    /// The response, where there is one.
    pub fn response(self) -> (r: Option<Recovered>)
        ensures
            r == (match self {
                Fetched::Response(x) => Some(x),
                _ => None,
            }),
    {
        match self {
            Fetched::Response(x) => Some(x),
            _ => None,
        }
    }
}

/// What it says where a prompt was logged without a session.
pub const NO_SESSION: &'static str = "session_id가 없어 JSONL을 찾을 수 없음";

/// What it says where a prompt was logged without a working directory.
pub const NO_CWD: &'static str = "cwd가 없어 JSONL을 찾을 수 없음";

/// The session and the working directory by which the transcript of a prompt is found, or why it
/// cannot be found.
pub open spec fn transcript_key(row: LoggedPrompt) -> Result<(Seq<char>, Seq<char>), Seq<char>> {
    match (maybe(row.session_id), maybe(row.cwd)) {
        (None, _) => Err(NO_SESSION@),
        (Some(_), None) => Err(NO_CWD@),
        (Some(session_id), Some(cwd)) => Ok((session_id, cwd)),
    }
}

/// What it says where there is no transcript.
pub open spec fn missing_message(session_id: Seq<char>, cwd: Seq<char>) -> Seq<char> {
    "JSONL 파일이 없음 (session_id="@ + session_id + ", cwd="@ + cwd + ")"@
}

/// What looking for the response to a prompt comes to: what its transcript says, or why it cannot be
/// told. It can be told only where the transcript was found, and that there is no response only where
/// the turn of the prompt was found in it.
pub open spec fn fetched(
    row: LoggedPrompt,
    transcript: Option<Seq<JsonView>>,
    offset: int,
) -> Result<FetchedView, Seq<char>> {
    match transcript_key(row) {
        Err(why) => Err(why),
        Ok((session_id, cwd)) => match transcript {
            None => Err(missing_message(session_id, cwd)),
            Some(values) => Ok(
                match recovered(
                    values,
                    row.prompt@,
                    row.created_at@,
                    maybe(row.msg_uuid),
                    offset,
                ) {
                    Some((response, uuid)) => FetchedView::Response(response, uuid),
                    None => if turn_found(values, row, offset) {
                        FetchedView::Empty
                    } else {
                        FetchedView::NoTurn
                    },
                },
            ),
        },
    }
}

/// What the outcome of looking for a response says.
pub open spec fn fetched_view(r: Result<Fetched, String>) -> Result<FetchedView, Seq<char>> {
    match r {
        Ok(x) => Ok(x@),
        Err(why) => Err(why@),
    }
}

/// The session and the working directory by which the transcript of a prompt is found, or why it
/// cannot be found.
pub fn locate_transcript(row: &LoggedPrompt) -> (r: Result<(&str, &str), String>)
    ensures
        match r {
            Ok(k) => transcript_key(*row) == Ok::<(Seq<char>, Seq<char>), Seq<char>>(
                (k.0@, k.1@),
            ),
            Err(why) => transcript_key(*row) == Err::<(Seq<char>, Seq<char>), Seq<char>>(why@),
        },
{
    match &row.session_id {
        Some(session_id) => match &row.cwd {
            Some(cwd) => Ok((session_id.as_str(), cwd.as_str())),
            None => Err(own(NO_CWD)),
        },
        None => Err(own(NO_SESSION)),
    }
}

/// Looks for the response to a prompt in the JSON values of its transcript, `None` where there is
/// no transcript.
pub fn fetch_response_in(
    row: &LoggedPrompt,
    transcript: Option<&Vec<Json>>,
    offset: i64,
) -> (r: Result<Fetched, String>)
    requires
        -OFFSET_LIMIT <= offset <= OFFSET_LIMIT,
    ensures
        fetched_view(r) == fetched(
            *row,
            match transcript {
                Some(values) => Some(list_view(values@)),
                None => None,
            },
            offset as int,
        ),
{
    match locate_transcript(row) {
        Ok((session_id, cwd)) => match transcript {
            Some(values) => match recover_response(
                values,
                row.prompt.as_str(),
                row.created_at.as_str(),
                &row.msg_uuid,
                offset,
            ) {
                Some(found) => Ok(Fetched::Response(found)),
                None => {
                    if has_turn(values, row, offset) {
                        Ok(Fetched::Empty)
                    } else {
                        Ok(Fetched::NoTurn)
                    }
                },
            },
            None => {
                let mut why = own("JSONL 파일이 없음 (session_id=");
                why.append(session_id);
                why.append(", cwd=");
                why.append(cwd);
                why.append(")");
                Err(why)
            },
        },
        Err(why) => Err(why),
    }
}

/// Looks for the response to a prompt in the lines of its transcript, `None` where there is no
/// transcript.
pub fn fetch_response(
    row: &LoggedPrompt,
    transcript: Option<&Vec<String>>,
    offset: i64,
) -> (r: Result<Fetched, String>)
    requires
        -OFFSET_LIMIT <= offset <= OFFSET_LIMIT,
    ensures
        fetched_view(r) == fetched(
            *row,
            match transcript {
                Some(lines) => Some(values_in(texts(lines@))),
                None => None,
            },
            offset as int,
        ),
{
    match transcript {
        Some(lines) => {
            let values = parse_lines(lines);
            fetch_response_in(row, Some(&values), offset)
        },
        None => fetch_response_in(row, None, offset),
    }
}

/// The uuid that is kept, given the one that was known and the one that was found: one is kept only
/// where none was known.
pub open spec fn uuid_to_keep(known: Option<Seq<char>>, found: Option<Seq<char>>) -> Option<
    Seq<char>,
> {
    if known is None || known == Some(Seq::<char>::empty()) {
        found
    } else {
        None
    }
}

/// The uuid that looking for the response taught: one is kept only where none was kept before.
pub fn learned_uuid(row: &LoggedPrompt, found: &Recovered) -> (r: Option<String>)
    ensures
        maybe(r) == (if maybe(row.msg_uuid) is None || maybe(row.msg_uuid) == Some(
            Seq::<char>::empty(),
        ) {
            maybe(found.uuid)
        } else {
            None
        }),
        maybe(r) == uuid_to_keep(maybe(row.msg_uuid), maybe(found.uuid)),
{
    match &row.msg_uuid {
        Some(u) => {
            if u.as_str().is_empty() {
                proof {
                    assert(u@ =~= Seq::<char>::empty());
                }
                found.uuid.clone()
            } else {
                None
            }
        },
        None => found.uuid.clone(),
    }
}

// ---------------------------------------------------------------------------------------------
// Showing a response
// ---------------------------------------------------------------------------------------------

/// A response as it is shown.
#[derive(Debug)]
pub struct PromptResponse {
    pub response: String,
    pub fetched_at: String,
    pub source: String,
}

/// Where the response to a prompt comes from.
#[derive(Debug)]
pub enum ResponseStep {
    /// It is stored with the prompt.
    Show(PromptResponse),
    /// It is in the older cache, from where it is stored with the prompt.
    Adopt(String),
    /// It has to be looked for in the transcript.
    Recover,
}

/// A response that is stored with its prompt.
pub fn stored_response(response: String, fetched_at: String) -> (r: PromptResponse)
    ensures
        r.response == response,
        r.fetched_at == fetched_at,
        r.source@ == "saved"@,
{
    PromptResponse { response, fetched_at, source: own("saved") }
}

/// Whether a response comes from where it should, given whether it is asked for anew, what is stored
/// with the prompt, and what the older cache holds.
pub open spec fn is_step_for(
    refresh: Option<bool>,
    saved: Option<(Option<String>, String)>,
    cached: Option<String>,
    r: ResponseStep,
) -> bool {
    if refresh == Some(true) {
        r is Recover
    } else {
        match saved {
            Some((Some(response), created_at)) => r matches ResponseStep::Show(p) && p.response
                == response && p.fetched_at == created_at && p.source@ == "saved"@,
            _ => match cached {
                Some(response) => r == ResponseStep::Adopt(response),
                None => r is Recover,
            },
        }
    }
}

/// Where the response to a prompt comes from, given what is stored with the prompt, its time of
/// creation, and what the older cache holds. A stored response is shown as it is, an empty one
/// too; what is stored is passed over only where the response is asked for anew.
pub fn get_response(
    refresh: Option<bool>,
    saved: Option<(Option<String>, String)>,
    cached: Option<String>,
) -> (r: ResponseStep)
    ensures
        refresh == Some(true) ==> r is Recover,
        refresh != Some(true) ==> match saved {
            Some((Some(response), created_at)) => r matches ResponseStep::Show(p) && p.response
                == response && p.fetched_at == created_at && p.source@ == "saved"@,
            _ => match cached {
                Some(response) => r == ResponseStep::Adopt(response),
                None => r is Recover,
            },
        },
        is_step_for(refresh, saved, cached, r),
{
    if refresh == Some(true) {
        return ResponseStep::Recover;
    }
    match saved {
        Some((Some(response), created_at)) => ResponseStep::Show(
            stored_response(response, created_at),
        ),
        _ => match cached {
            Some(response) => ResponseStep::Adopt(response),
            None => ResponseStep::Recover,
        },
    }
}

// ---------------------------------------------------------------------------------------------
// Laws
// ---------------------------------------------------------------------------------------------

/// The first user event with a uuid is the only one.
proof fn lemma_only_user_event(values: Seq<JsonView>, i: int, uuid: Seq<char>)
    requires
        0 <= i < values.len(),
        is_user_event(values[i], uuid),
        forall|j: int| 0 <= j < values.len() && j != i ==> !is_user_event(#[trigger] values[j], uuid),
    ensures
        first_user_event(values, uuid) == Some(i),
    decreases values.len(),
{
    let front = values.drop_last();
    if i < values.len() - 1 {
        assert(front[i] == values[i]);
        assert forall|j: int| 0 <= j < front.len() && j != i implies !is_user_event(
            #[trigger] front[j],
            uuid,
        ) by {
            assert(front[j] == values[j]);
        }
        lemma_only_user_event(front, i, uuid);
    } else {
        assert forall|j: int| 0 <= j < front.len() implies !is_user_event(
            #[trigger] front[j],
            uuid,
        ) by {
            assert(front[j] == values[j]);
        }
        lemma_no_user_event(front, uuid);
    }
}

/// Where no event is a user event with the uuid, none is the first.
proof fn lemma_no_user_event(values: Seq<JsonView>, uuid: Seq<char>)
    requires
        forall|j: int| 0 <= j < values.len() ==> !is_user_event(#[trigger] values[j], uuid),
    ensures
        first_user_event(values, uuid) is None,
    decreases values.len(),
{
    if values.len() > 0 {
        let front = values.drop_last();
        assert(!is_user_event(values[values.len() - 1], uuid));
        assert forall|j: int| 0 <= j < front.len() implies !is_user_event(
            #[trigger] front[j],
            uuid,
        ) by {
            assert(front[j] == values[j]);
        }
        lemma_no_user_event(front, uuid);
    }
}

/// A prompt is a user event with its uuid.
proof fn lemma_prompt_is_user_event(json: JsonView)
    ensures
        turn_in(json) matches Some(t) ==> is_user_event(json, t.uuid),
{
}

/// The index of a session gives the same reply as extracting it alone, for every prompt whose uuid
/// no other user event has.
pub proof fn index_agrees_with_extraction(values: Seq<JsonView>, i: int)
    requires
        0 <= i < values.len(),
        turn_in(values[i]) is Some,
        forall|j: int|
            0 <= j < values.len() && j != i ==> !is_user_event(
                #[trigger] values[j],
                turn_in(values[i])->0.uuid,
            ),
    ensures
        ({
            let uuid = turn_in(values[i])->0.uuid;
            let replies = replies_to(values, values.len() as int);
            &&& replies.dom().contains(uuid)
            &&& reply_to_uuid(values, uuid) == Some(replies[uuid])
        }),
{
    let uuid = turn_in(values[i])->0.uuid;
    lemma_prompt_is_user_event(values[i]);
    lemma_only_user_event(values, i, uuid);
    lemma_kept_in_index(values, i, values.len() as int);
}

/// The index keeps the reply to a prompt whose uuid no later prompt has.
proof fn lemma_kept_in_index(values: Seq<JsonView>, i: int, n: int)
    requires
        0 <= i < n <= values.len(),
        turn_in(values[i]) is Some,
        forall|j: int|
            0 <= j < values.len() && j != i ==> !is_user_event(
                #[trigger] values[j],
                turn_in(values[i])->0.uuid,
            ),
    ensures
        replies_to(values, n).dom().contains(turn_in(values[i])->0.uuid),
        replies_to(values, n)[turn_in(values[i])->0.uuid] == reply_after(values, i),
    decreases n,
{
    if i < n - 1 {
        lemma_kept_in_index(values, i, n - 1);
        lemma_prompt_is_user_event(values[n - 1]);
        assert(!is_user_event(values[n - 1], turn_in(values[i])->0.uuid));
    }
}

} // verus!
