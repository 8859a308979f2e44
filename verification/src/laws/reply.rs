//! Laws of prompts and replies: what was typed, and what the assistant said to it.

use vstd::prelude::*;

use crate::answer::{
    next_prompt, replies_to, reply, reply_after, turn_in, turns_in,
    typed_parts, typed_text, with_block, with_blocks, with_event, UserTurnView,
};
use crate::clock::epoch_of;
use crate::json::JsonView;
use crate::text::contains;
use crate::laws::text::{holding_is_having_as_a_part, joining_separates};

verus! {

// ---------------------------------------------------------------------------------------------
// What was typed
// ---------------------------------------------------------------------------------------------

/// The names of the kinds of blocks differ.
proof fn lemma_kinds()
    ensures
        "text"@ != "tool_use"@,
        "text"@ != "tool_result"@,
        "text"@ != "image"@,
        "tool_use"@ != "tool_result"@,
        "tool_use"@ != "image"@,
        "tool_result"@ != "image"@,
        "user"@ != "assistant"@,
{
    reveal_strlit("text");
    reveal_strlit("tool_use");
    reveal_strlit("tool_result");
    reveal_strlit("image");
    reveal_strlit("user");
    reveal_strlit("assistant");
    assert("text"@.len() == 4);
    assert("tool_use"@.len() == 8);
    assert("tool_result"@.len() == 11);
    assert("image"@.len() == 5);
    assert("user"@.len() == 4);
    assert("assistant"@.len() == 9);
}

/// Whether a block says something that was typed: a text, or an image.
pub open spec fn is_typed(block: JsonView) -> bool {
    let kind = block.text_member("type"@);
    (kind == Some("text"@) && block.text_member("text"@) is Some) || kind == Some("image"@)
}

/// What was typed in two lists of blocks one after the other, and in one block.
proof fn lemma_typed_add(a: Seq<JsonView>, b: Seq<JsonView>)
    ensures
        typed_parts(a + b) == typed_parts(a) + typed_parts(b),
    decreases b.len(),
{
    if b.len() == 0 {
        assert(a + b =~= a);
        assert(typed_parts(a) + typed_parts(b) =~= typed_parts(a));
    } else {
        assert((a + b).drop_last() =~= a + b.drop_last());
        lemma_typed_add(a, b.drop_last());
        assert(typed_parts(a + b) =~= typed_parts(a) + typed_parts(b));
    }
}

/// What one block says.
proof fn lemma_typed_one(block: JsonView)
    ensures
        typed_parts(seq![block]).len() == 1 <==> is_typed(block),
        typed_parts(seq![block]).len() <= 1,
        block.text_member("type"@) == Some("text"@) && block.text_member("text"@) is Some
            ==> typed_parts(seq![block]) == seq![block.text_member("text"@)->0],
        block.text_member("type"@) == Some("image"@) ==> typed_parts(seq![block]) == seq![
            "[Image]"@,
        ],
{
    lemma_kinds();
    assert(seq![block].drop_last() =~= Seq::<JsonView>::empty());
    assert(typed_parts(Seq::<JsonView>::empty()) =~= Seq::<Seq<char>>::empty());
    let none = Seq::<Seq<char>>::empty();
    if block.text_member("type"@) == Some("text"@) && block.text_member("text"@) is Some {
        assert(none.push(block.text_member("text"@)->0) =~= seq![block.text_member("text"@)->0]);
    }
    if block.text_member("type"@) == Some("image"@) {
        assert(none.push("[Image]"@) =~= seq!["[Image]"@]);
    }
}

/// Something was typed exactly where some block says so.
proof fn lemma_typed_some(blocks: Seq<JsonView>)
    ensures
        typed_parts(blocks).len() > 0 <==> exists|i: int|
            0 <= i < blocks.len() && is_typed(#[trigger] blocks[i]),
    decreases blocks.len(),
{
    lemma_kinds();
    if blocks.len() > 0 {
        let front = blocks.drop_last();
        lemma_typed_some(front);
        if typed_parts(front).len() > 0 {
            let i = choose|i: int| 0 <= i < front.len() && is_typed(#[trigger] front[i]);
            assert(blocks[i] == front[i]);
        }
        if is_typed(blocks.last()) {
            assert(blocks[blocks.len() - 1] == blocks.last());
        }
        if exists|i: int| 0 <= i < blocks.len() && is_typed(#[trigger] blocks[i]) {
            let i = choose|i: int| 0 <= i < blocks.len() && is_typed(#[trigger] blocks[i]);
            if i < front.len() {
                assert(front[i] == blocks[i]);
            }
        }
    }
}

/// Only a user event that is neither injected nor a subagent's is a prompt.
pub proof fn only_the_user_types(json: JsonView)
    requires
        json.text_member("type"@) != Some("user"@) || json.member("isMeta"@) == Some(
            JsonView::Bool(true),
        ) || json.member("isSidechain"@) == Some(JsonView::Bool(true)),
    ensures
        typed_text(json) is None,
{
}

/// Whether an event can be a prompt by what it says of itself.
pub open spec fn is_from_the_user(json: JsonView) -> bool {
    json.text_member("type"@) == Some("user"@) && json.member("isMeta"@) != Some(
        JsonView::Bool(true),
    ) && json.member("isSidechain"@) != Some(JsonView::Bool(true))
}

/// A user event with a text is a prompt, and says just that text. One with blocks is a prompt unless
/// it holds nothing but what tools gave back; one with other content, or none, is not.
pub proof fn what_is_typed_is_a_prompt(json: JsonView)
    requires
        is_from_the_user(json),
    ensures
        match json.member2("message"@, "content"@) {
            Some(JsonView::Text(s)) => typed_text(json) == Some(s),
            Some(JsonView::List(blocks)) => typed_text(json) is None <==> (exists|i: int|
                0 <= i < blocks.len() && (#[trigger] blocks[i]).text_member("type"@) == Some(
                    "tool_result"@,
                )) && (forall|i: int| 0 <= i < blocks.len() ==> !is_typed(#[trigger] blocks[i])),
            _ => typed_text(json) is None,
        },
{
    match json.member2("message"@, "content"@) {
        Some(JsonView::List(blocks)) => {
            lemma_typed_some(blocks);
        },
        _ => {},
    }
}

/// A prompt of two parts that both say something says the one, a line break, and the other.
pub proof fn prompts_say_each_part_on_its_own_line(
    json: JsonView,
    first: JsonView,
    second: JsonView,
    a: Seq<JsonView>,
    b: Seq<JsonView>,
)
    requires
        is_from_the_user(json),
        is_from_the_user(first),
        is_from_the_user(second),
        json.member2("message"@, "content"@) == Some(JsonView::List(a + b)),
        first.member2("message"@, "content"@) == Some(JsonView::List(a)),
        second.member2("message"@, "content"@) == Some(JsonView::List(b)),
        exists|i: int| 0 <= i < a.len() && is_typed(#[trigger] a[i]),
        exists|i: int| 0 <= i < b.len() && is_typed(#[trigger] b[i]),
    ensures
        typed_text(json) == Some(typed_text(first)->0 + seq!['\n'] + typed_text(second)->0),
{
    lemma_typed_some(a);
    lemma_typed_some(b);
    lemma_typed_add(a, b);
    reveal_strlit("\n");
    assert("\n"@ =~= seq!['\n']);
    joining_separates(typed_parts(a), typed_parts(b), "\n"@, "\n"@);
}

/// A prompt with one text says that text, and one with an image that it is there, whatever other
/// blocks stand around it.
pub proof fn a_prompt_of_one_part_says_that_part(json: JsonView, blocks: Seq<JsonView>, i: int)
    requires
        is_from_the_user(json),
        json.member2("message"@, "content"@) == Some(JsonView::List(blocks)),
        0 <= i < blocks.len(),
        is_typed(blocks[i]),
        forall|j: int| 0 <= j < blocks.len() && j != i ==> !is_typed(#[trigger] blocks[j]),
    ensures
        blocks[i].text_member("type"@) == Some("text"@) ==> typed_text(json)
            == blocks[i].text_member("text"@),
        blocks[i].text_member("type"@) == Some("image"@) ==> typed_text(json) == Some("[Image]"@),
{
    lemma_kinds();
    let a = blocks.take(i);
    let b = blocks.skip(i + 1);
    let one = seq![blocks[i]];
    assert(blocks =~= a + one + b);
    lemma_typed_add(a + one, b);
    lemma_typed_add(a, one);
    lemma_typed_some(a);
    lemma_typed_some(b);
    lemma_typed_one(blocks[i]);
    assert forall|j: int| 0 <= j < a.len() implies !is_typed(#[trigger] a[j]) by {
        assert(a[j] == blocks[j]);
    }
    assert forall|j: int| 0 <= j < b.len() implies !is_typed(#[trigger] b[j]) by {
        assert(b[j] == blocks[i + 1 + j]);
    }
    assert(typed_parts(a) =~= Seq::empty());
    assert(typed_parts(b) =~= Seq::empty());
    assert(typed_parts(blocks) =~= typed_parts(one));
    let t = typed_parts(one)[0];
    assert(typed_parts(one) =~= seq![t]);
    joining_separates(Seq::empty(), Seq::empty(), t, "\n"@);
}

// ---------------------------------------------------------------------------------------------
// Replies
// ---------------------------------------------------------------------------------------------

/// Blocks are put behind a reply one after the other.
proof fn lemma_blocks_add(r: Seq<char>, a: Seq<JsonView>, b: Seq<JsonView>)
    ensures
        with_blocks(r, a + b) == with_blocks(with_blocks(r, a), b),
    decreases b.len(),
{
    if b.len() == 0 {
        assert(a + b =~= a);
    } else {
        assert((a + b).drop_last() =~= a + b.drop_last());
        lemma_blocks_add(r, a, b.drop_last());
    }
}

/// A block makes one step.
proof fn lemma_blocks_one(r: Seq<char>, block: JsonView)
    ensures
        with_blocks(r, seq![block]) == with_block(r, block),
{
    assert(seq![block].drop_last() =~= Seq::<JsonView>::empty());
    assert(with_blocks(r, Seq::<JsonView>::empty()) == r);
}

/// What a block adds to a reply. A text is added whole, as a paragraph of its own; a tool call as a
/// line that names the tool; anything else adds nothing. Nothing that was said before is lost.
pub proof fn blocks_are_added_whole(r: Seq<char>, block: JsonView, t: Seq<char>)
    requires
        r.len() > 0,
    ensures
        ({
            let none = Seq::<char>::empty();
            let kind = block.text_member("type"@);
            let name = block.text_member("name"@);
            &&& kind == Some("text"@) && block.text_member("text"@) == Some(t) ==> with_blocks(
                none,
                seq![block],
            ) == t && with_blocks(r, seq![block]) == r + seq!['\n', '\n'] + t
            &&& kind == Some("tool_use"@) && (name == Some(t) || (name is None && t == "?"@))
                ==> with_blocks(none, seq![block]) == "[tool: "@ + t + "]"@ && with_blocks(
                r,
                seq![block],
            ) == r + seq!['\n'] + ("[tool: "@ + t + "]"@)
            &&& kind != Some("text"@) && kind != Some("tool_use"@) ==> with_blocks(
                none,
                seq![block],
            ) == none && with_blocks(r, seq![block]) == r
        }),
{
    lemma_kinds();
    lemma_blocks_one(r, block);
    lemma_blocks_one(Seq::empty(), block);
    reveal_strlit("\n");
    reveal_strlit("\n\n");
    assert("\n"@ =~= seq!['\n']);
    assert("\n\n"@ =~= seq!['\n', '\n']);
    assert(r + seq!['\n'] + ("[tool: "@ + t + "]"@) =~= r + "\n"@ + "[tool: "@ + t + "]"@);
}

/// Blocks are added in their order.
pub proof fn blocks_are_added_in_order(r: Seq<char>, a: Seq<JsonView>, b: Seq<JsonView>)
    ensures
        with_blocks(r, Seq::empty()) == r,
        with_blocks(r, a + b) == with_blocks(with_blocks(r, a), b),
{
    lemma_blocks_add(r, a, b);
}

/// The event of the assistant adds its blocks, and an event without blocks nothing.
pub proof fn an_event_adds_its_blocks(r: Seq<char>, json: JsonView)
    ensures
        match json.member2("message"@, "content"@) {
            Some(JsonView::List(blocks)) => with_event(r, json) == with_blocks(r, blocks),
            _ => with_event(r, json) == r,
        },
{
}

/// What was said stays at the beginning.
proof fn lemma_kept(r: Seq<char>, blocks: Seq<JsonView>)
    ensures
        r.is_prefix_of(with_blocks(r, blocks)),
    decreases blocks.len(),
{
    if blocks.len() > 0 {
        lemma_kept(r, blocks.drop_last());
        let before = with_blocks(r, blocks.drop_last());
        let after = with_blocks(r, blocks);
        assert(r =~= before.subrange(0, r.len() as int));
        assert(before =~= after.subrange(0, before.len() as int));
        assert(r =~= after.subrange(0, r.len() as int));
    } else {
        assert(r =~= r.subrange(0, r.len() as int));
    }
}

/// A part of a beginning is a part of the whole.
proof fn lemma_part(r: Seq<char>, whole: Seq<char>, t: Seq<char>)
    requires
        r.is_prefix_of(whole),
        contains(r, t),
    ensures
        contains(whole, t),
{
    holding_is_having_as_a_part(r, t);
    holding_is_having_as_a_part(whole, t);
    let (a, b) = choose|a: Seq<char>, b: Seq<char>| r == #[trigger] (a + t + b);
    let rest = whole.skip(r.len() as int);
    assert(whole =~= a + t + (b + rest)) by {
        assert(r =~= whole.subrange(0, r.len() as int));
        assert(whole =~= r + rest);
    }
}

/// What is said from one event on goes on with what comes later.
proof fn lemma_reply_kept(values: Seq<JsonView>, from: int, m: int, to: int)
    requires
        from <= m <= to,
    ensures
        reply(values, from, m).is_prefix_of(reply(values, from, to)),
    decreases to - m,
{
    let r = reply(values, from, m);
    if m < to {
        lemma_reply_kept(values, from, m, to - 1);
        let before = reply(values, from, to - 1);
        let after = reply(values, from, to);
        match values[to - 1].member2("message"@, "content"@) {
            Some(JsonView::List(blocks)) => {
                lemma_kept(before, blocks);
            },
            _ => {},
        }
        assert(before =~= after.subrange(0, before.len() as int));
        assert(r =~= before.subrange(0, r.len() as int));
        assert(r =~= after.subrange(0, r.len() as int));
    } else {
        assert(r =~= r.subrange(0, r.len() as int));
    }
}

/// Every text of the assistant between two places is in the reply, unchanged.
pub proof fn replies_hold_every_text(
    values: Seq<JsonView>,
    from: int,
    to: int,
    m: int,
    blocks: Seq<JsonView>,
    i: int,
    t: Seq<char>,
)
    requires
        from <= m < to,
        values[m].text_member("type"@) == Some("assistant"@),
        values[m].member2("message"@, "content"@) == Some(JsonView::List(blocks)),
        0 <= i < blocks.len(),
        blocks[i].text_member("type"@) == Some("text"@),
        blocks[i].text_member("text"@) == Some(t),
    ensures
        contains(reply(values, from, to), t),
{
    let before = reply(values, from, m);
    let some = with_blocks(before, blocks.take(i));
    let more = with_blocks(before, blocks.take(i + 1));
    assert(blocks.take(i + 1).drop_last() =~= blocks.take(i));
    assert(more == with_block(some, blocks[i]));
    holding_is_having_as_a_part(more, t);
    let none = Seq::<char>::empty();
    if some.len() == 0 {
        assert(more =~= none + t + none);
    } else {
        assert(more =~= (some + "\n\n"@) + t + none);
    }
    assert(contains(more, t));
    assert(blocks =~= blocks.take(i + 1) + blocks.skip(i + 1));
    lemma_blocks_add(before, blocks.take(i + 1), blocks.skip(i + 1));
    lemma_kept(more, blocks.skip(i + 1));
    lemma_part(more, reply(values, from, m + 1), t);
    lemma_reply_kept(values, from, m + 1, to);
    lemma_part(reply(values, from, m + 1), reply(values, from, to), t);
}

/// A reply goes on event by event; only the assistant's events count.
pub proof fn only_the_assistant_replies(values: Seq<JsonView>, from: int, m: int, to: int)
    requires
        from <= m <= to,
    ensures
        reply(values, from, from) == Seq::<char>::empty(),
        (forall|j: int|
            m <= j < to ==> (#[trigger] values[j]).text_member("type"@) != Some("assistant"@))
            ==> reply(values, from, to) == reply(values, from, m),
        to == m + 1 && values[m].text_member("type"@) == Some("assistant"@) ==> reply(
            values,
            from,
            to,
        ) == with_event(reply(values, from, m), values[m]),
    decreases to - m,
{
    if m < to {
        only_the_assistant_replies(values, from, m, to - 1);
        if forall|j: int|
            m <= j < to ==> (#[trigger] values[j]).text_member("type"@) != Some("assistant"@) {
            assert(values[to - 1].text_member("type"@) != Some("assistant"@));
            assert(forall|j: int|
                m <= j < to - 1 ==> (#[trigger] values[j]).text_member("type"@) != Some(
                    "assistant"@,
                ));
        }
    }
}

/// The reply to an event goes on until the next prompt, or to the end where there is none.
pub proof fn replies_end_at_the_next_prompt(values: Seq<JsonView>, i: int, n: int)
    requires
        0 <= i < n <= values.len(),
        forall|j: int| i < j < n ==> typed_text(#[trigger] values[j]) is None,
        n < values.len() ==> typed_text(values[n]) is Some,
    ensures
        reply_after(values, i) == reply(values, i + 1, n),
{
    lemma_next(values, i + 1, n);
}

/// The next prompt is the first one.
proof fn lemma_next(values: Seq<JsonView>, from: int, n: int)
    requires
        0 <= from <= n <= values.len(),
        forall|j: int| from <= j < n ==> typed_text(#[trigger] values[j]) is None,
        n < values.len() ==> typed_text(values[n]) is Some,
    ensures
        next_prompt(values, from) == n,
    decreases n - from,
{
    if from < n {
        assert(typed_text(values[from]) is None);
        lemma_next(values, from + 1, n);
    }
}

// ---------------------------------------------------------------------------------------------
// The prompts of a transcript
// ---------------------------------------------------------------------------------------------

/// Whether an event is a prompt with a uuid, typed at the given time with the given text.
pub open spec fn is_prompt(json: JsonView, t: UserTurnView) -> bool {
    &&& typed_text(json) == Some(t.text)
    &&& json.text_member("uuid"@) == Some(t.uuid)
    &&& t.uuid.len() > 0
    &&& match json.text_member("timestamp"@) {
        Some(ts) => match epoch_of(ts) {
            Some(e) => t.epoch == e,
            None => t.epoch == 0,
        },
        None => t.epoch == 0,
    }
}

/// The prompt that an event is.
proof fn lemma_turn(json: JsonView, t: UserTurnView)
    ensures
        turn_in(json) == Some(t) <==> is_prompt(json, t),
{
}

/// Every prompt with a uuid is among the prompts of its transcript, and nothing else is; they keep
/// their order.
pub proof fn every_prompt_is_a_turn(values: Seq<JsonView>, t: UserTurnView)
    ensures
        turns_in(values).contains(t) <==> exists|i: int|
            0 <= i < values.len() && is_prompt(#[trigger] values[i], t),
    decreases values.len(),
{
    if values.len() > 0 {
        let front = values.drop_last();
        let before = turns_in(front);
        let all = turns_in(values);
        every_prompt_is_a_turn(front, t);
        lemma_turn(values.last(), t);
        if before.contains(t) {
            let a = choose|a: int| 0 <= a < before.len() && before[a] == t;
            assert(all[a] == t);
            let i = choose|i: int| 0 <= i < front.len() && is_prompt(#[trigger] front[i], t);
            assert(values[i] == front[i]);
        }
        if is_prompt(values.last(), t) {
            assert(all[all.len() - 1] == t);
            assert(values[values.len() - 1] == values.last());
        }
        if all.contains(t) && !before.contains(t) {
            let a = choose|a: int| 0 <= a < all.len() && all[a] == t;
            if a < before.len() {
                assert(before[a] == t);
            }
            assert(turn_in(values.last()) == Some(t));
        }
        if exists|i: int| 0 <= i < values.len() && is_prompt(#[trigger] values[i], t) {
            let i = choose|i: int| 0 <= i < values.len() && is_prompt(#[trigger] values[i], t);
            if i < front.len() {
                assert(front[i] == values[i]);
            }
        }
    }
}

/// The prompts of a transcript keep their order: those of its beginning come before those of the
/// rest.
pub proof fn turns_keep_their_order(a: Seq<JsonView>, b: Seq<JsonView>)
    ensures
        turns_in(a + b) == turns_in(a) + turns_in(b),
        turns_in(a).len() <= a.len(),
    decreases b.len(), a.len(),
{
    if b.len() == 0 {
        assert(a + b =~= a);
        assert(turns_in(a) + turns_in(b) =~= turns_in(a));
        if a.len() > 0 {
            turns_keep_their_order(a.drop_last(), b);
        }
    } else {
        assert((a + b).drop_last() =~= a + b.drop_last());
        turns_keep_their_order(a, b.drop_last());
        assert(turns_in(a + b) =~= turns_in(a) + turns_in(b));
    }
}

/// The index of a transcript holds, for the last prompt with a uuid, what was said after it.
pub proof fn the_index_holds_the_last_reply(
    values: Seq<JsonView>,
    i: int,
    n: int,
    uuid: Seq<char>,
)
    requires
        0 <= i < n <= values.len(),
        is_turn_of(values[i], uuid),
        forall|j: int| i < j < n ==> !is_turn_of(#[trigger] values[j], uuid),
    ensures
        replies_to(values, n).dom().contains(uuid),
        replies_to(values, n)[uuid] == reply_after(values, i),
    decreases n,
{
    if i < n - 1 {
        assert(!is_turn_of(values[n - 1], uuid));
        the_index_holds_the_last_reply(values, i, n - 1, uuid);
    }
}

/// The index of a transcript holds nothing for a uuid that no prompt has.
pub proof fn the_index_holds_prompts_only(values: Seq<JsonView>, n: int, uuid: Seq<char>)
    requires
        0 <= n <= values.len(),
        forall|j: int| 0 <= j < n ==> !is_turn_of(#[trigger] values[j], uuid),
    ensures
        !replies_to(values, n).dom().contains(uuid),
    decreases n,
{
    if n > 0 {
        assert(!is_turn_of(values[n - 1], uuid));
        the_index_holds_prompts_only(values, n - 1, uuid);
    }
}

/// Whether an event is a prompt with the given uuid.
pub open spec fn is_turn_of(json: JsonView, uuid: Seq<char>) -> bool {
    uuid.len() > 0 && json.text_member("uuid"@) == Some(uuid) && typed_text(json) is Some
}

} // verus!
