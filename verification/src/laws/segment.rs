//! Laws of segments and of the prose.

use vstd::prelude::*;

use crate::json::{pretty_text, JsonView};
use crate::segment::{
    block_segment, block_segments, call_line, injected_label, narrative, paragraphs, segments,
    SegmentView,
};
use crate::text::{
    blank, byte_count, contains, join, line_count, preview, starts_with, trim_start,
};
use crate::transcript::{content_text, EvView};
use crate::laws::text::joining_separates;

verus! {

// ---------------------------------------------------------------------------------------------
// What becomes a segment
// ---------------------------------------------------------------------------------------------

/// A block that has a segment has it among those of its event.
proof fn lemma_block_is_kept(ev: EvView, blocks: Seq<JsonView>, is_owner: bool, i: int)
    requires
        0 <= i < blocks.len(),
        block_segment(ev, i, blocks[i], is_owner) is Some,
    ensures
        block_segments(ev, blocks, is_owner).contains(
            block_segment(ev, i, blocks[i], is_owner)->0,
        ),
    decreases blocks.len(),
{
    let front = blocks.drop_last();
    let before = block_segments(ev, front, is_owner);
    let all = block_segments(ev, blocks, is_owner);
    let s = block_segment(ev, i, blocks[i], is_owner)->0;
    if i < front.len() {
        assert(front[i] == blocks[i]);
        lemma_block_is_kept(ev, front, is_owner, i);
        let a = choose|a: int| 0 <= a < before.len() && before[a] == s;
        assert(all[a] == s);
    } else {
        assert(all[all.len() - 1] == s);
    }
}

/// A segment of an event is that of one of its blocks, and later segments are of later blocks.
proof fn lemma_block_of(ev: EvView, blocks: Seq<JsonView>, is_owner: bool, a: int) -> (i: int)
    requires
        0 <= a < block_segments(ev, blocks, is_owner).len(),
    ensures
        0 <= i < blocks.len(),
        block_segment(ev, i, blocks[i], is_owner) == Some(block_segments(ev, blocks, is_owner)[a]),
    decreases blocks.len(),
{
    let front = blocks.drop_last();
    let before = block_segments(ev, front, is_owner);
    if a < before.len() {
        assert(block_segments(ev, blocks, is_owner)[a] == before[a]);
        let i = lemma_block_of(ev, front, is_owner, a);
        assert(front[i] == blocks[i]);
        i
    } else {
        blocks.len() - 1
    }
}

/// Segments stand in the order of their blocks.
proof fn lemma_blocks_rise(ev: EvView, blocks: Seq<JsonView>, is_owner: bool)
    requires
        blocks.len() <= i64::MAX,
    ensures
        forall|a: int, b: int|
            0 <= a < b < block_segments(ev, blocks, is_owner).len() ==> (#[trigger] block_segments(
                ev,
                blocks,
                is_owner,
            )[a]).block_idx < (#[trigger] block_segments(ev, blocks, is_owner)[b]).block_idx,
        forall|a: int|
            0 <= a < block_segments(ev, blocks, is_owner).len() ==> 0 <= (
            #[trigger] block_segments(ev, blocks, is_owner)[a]).block_idx < blocks.len(),
    decreases blocks.len(),
{
    if blocks.len() > 0 {
        let before = block_segments(ev, blocks.drop_last(), is_owner);
        let all = block_segments(ev, blocks, is_owner);
        lemma_blocks_rise(ev, blocks.drop_last(), is_owner);
        assert forall|a: int, b: int| 0 <= a < b < all.len() implies (#[trigger] all[a]).block_idx < (
        #[trigger] all[b]).block_idx by {
            assert(all[a] == before[a]);
            if b < before.len() {
                assert(all[b] == before[b]);
            }
        }
        assert forall|a: int| 0 <= a < all.len() implies 0 <= (#[trigger] all[a]).block_idx
            < blocks.len() by {
            if a < before.len() {
                assert(all[a] == before[a]);
            }
        }
    }
}

/// Every text of the assistant is kept whole, however long it is, with the event and the block that
/// it comes from.
pub proof fn assistant_text_is_kept_whole(
    ev: EvView,
    blocks: Seq<JsonView>,
    i: int,
    text: Seq<char>,
    is_owner: bool,
)
    requires
        ev.etype == "assistant"@,
        ev.content == JsonView::List(blocks),
        0 <= i < blocks.len() <= i64::MAX,
        blocks[i].text_member("type"@) == Some("text"@),
        blocks[i].text_member("text"@) == Some(text),
        text.len() > 0,
    ensures
        segments(ev, is_owner).contains(
            SegmentView {
                src_uuid: ev.uuid,
                block_idx: i as i64,
                kind: "text"@,
                name: None,
                tool_id: None,
                preview: preview(text, 200),
                body: text,
                nbytes: byte_count(text),
                nlines: line_count(text),
                is_error: false,
                ts: ev.ts,
            },
        ),
{
    lemma_block_is_kept(ev, blocks, is_owner, i);
}

/// Every tool call is kept with the tool's name, the call's id and all its arguments as they are
/// printed; a call without arguments has none, and one without a name a question mark.
pub proof fn tool_calls_are_kept_whole(
    ev: EvView,
    blocks: Seq<JsonView>,
    i: int,
    name: Seq<char>,
    input: JsonView,
    is_owner: bool,
)
    requires
        ev.etype == "assistant"@,
        ev.content == JsonView::List(blocks),
        0 <= i < blocks.len() <= i64::MAX,
        blocks[i].text_member("type"@) == Some("tool_use"@),
        blocks[i].text_member("name"@) == Some(name) || (blocks[i].text_member("name"@) is None
            && name == "?"@),
        blocks[i].member("input"@) == Some(input) || (blocks[i].member("input"@) is None && input
            == JsonView::Object(Map::empty())),
    ensures
        segments(ev, is_owner).contains(
            SegmentView {
                src_uuid: ev.uuid,
                block_idx: i as i64,
                kind: "tool_use"@,
                name: Some(name),
                tool_id: blocks[i].text_member("id"@),
                preview: call_line(name, input),
                body: pretty_text(input),
                nbytes: byte_count(pretty_text(input)),
                nlines: line_count(pretty_text(input)),
                is_error: false,
                ts: ev.ts,
            },
        ),
{
    lemma_kinds();
    lemma_block_is_kept(ev, blocks, is_owner, i);
}

/// The names of the kinds of blocks differ.
proof fn lemma_kinds()
    ensures
        "text"@ != "tool_use"@,
        "text"@ != "tool_result"@,
        "text"@ != "image"@,
        "tool_use"@ != "tool_result"@,
        "tool_use"@ != "image"@,
        "tool_result"@ != "image"@,
        "assistant"@ != "user"@,
{
    reveal_strlit("text");
    reveal_strlit("tool_use");
    reveal_strlit("tool_result");
    reveal_strlit("image");
    reveal_strlit("assistant");
    reveal_strlit("user");
    assert("text"@.len() == 4);
    assert("tool_use"@.len() == 8);
    assert("tool_result"@.len() == 11);
    assert("image"@.len() == 5);
    assert("assistant"@.len() == 9);
    assert("user"@.len() == 4);
}

/// Everything that a tool gave back is kept whole, with the call that it answers and whether it is an
/// error, in the event that owns the turn too.
pub proof fn tool_results_are_kept_whole(
    ev: EvView,
    blocks: Seq<JsonView>,
    i: int,
    body: Seq<char>,
    is_owner: bool,
)
    requires
        ev.etype == "user"@,
        ev.content == JsonView::List(blocks),
        0 <= i < blocks.len() <= i64::MAX,
        blocks[i].text_member("type"@) == Some("tool_result"@),
        match blocks[i].member("content"@) {
            Some(JsonView::Text(s)) => body == s,
            Some(v) => body == content_text(v),
            None => body == Seq::<char>::empty(),
        },
    ensures
        segments(ev, is_owner).contains(
            SegmentView {
                src_uuid: ev.uuid,
                block_idx: i as i64,
                kind: "tool_result"@,
                name: None,
                tool_id: blocks[i].text_member("tool_use_id"@),
                preview: preview(body, 200),
                body,
                nbytes: byte_count(body),
                nlines: line_count(body),
                is_error: blocks[i].member("is_error"@) == Some(JsonView::Bool(true)),
                ts: ev.ts,
            },
        ),
{
    lemma_kinds();
    lemma_block_is_kept(ev, blocks, is_owner, i);
}

/// Every text of a user event that does not own the turn is kept whole, whatever label it gets: as a
/// block, or as the content of the event.
pub proof fn injected_text_is_kept_whole(ev: EvView, i: int, text: Seq<char>)
    requires
        ev.etype == "user"@,
        text.len() > 0,
        ev.content == JsonView::Text(text) && i == 0 || (ev.content matches JsonView::List(blocks)
            && 0 <= i < blocks.len() <= i64::MAX && blocks[i].text_member("type"@) == Some("text"@)
            && blocks[i].text_member("text"@) == Some(text)),
    ensures
        segments(ev, false).contains(
            SegmentView {
                src_uuid: ev.uuid,
                block_idx: i as i64,
                kind: injected_label(ev, text).0,
                name: injected_label(ev, text).1,
                tool_id: None,
                preview: preview(text, 200),
                body: text,
                nbytes: byte_count(text),
                nlines: line_count(text),
                is_error: false,
                ts: ev.ts,
            },
        ),
{
    lemma_kinds();
    match ev.content {
        JsonView::List(blocks) => {
            lemma_block_is_kept(ev, blocks, false, i);
        },
        _ => {
            assert(segments(ev, false)[0].body == text);
        },
    }
}

/// Every image of a user event that does not own the turn leaves a mark.
pub proof fn images_leave_a_mark(ev: EvView, blocks: Seq<JsonView>, i: int)
    requires
        ev.etype == "user"@,
        ev.content == JsonView::List(blocks),
        0 <= i < blocks.len() <= i64::MAX,
        blocks[i].text_member("type"@) == Some("image"@),
    ensures
        segments(ev, false).contains(
            SegmentView {
                src_uuid: ev.uuid,
                block_idx: i as i64,
                kind: "image"@,
                name: None,
                tool_id: None,
                preview: "[Image]"@,
                body: Seq::empty(),
                nbytes: byte_count(Seq::empty()),
                nlines: line_count(Seq::empty()),
                is_error: false,
                ts: ev.ts,
            },
        ),
{
    lemma_kinds();
    lemma_block_is_kept(ev, blocks, false, i);
}

/// Whether a block may have a segment: what the assistant writes and calls; what tools gave back to
/// the user; and what else the user's event holds, where it is not the prompt itself.
pub open spec fn may_show(ev: EvView, block: JsonView, is_owner: bool) -> bool {
    let kind = block.text_member("type"@);
    let has_text = block.text_member("text"@) matches Some(t) && t.len() > 0;
    if ev.etype == "assistant"@ {
        (kind == Some("text"@) && has_text) || kind == Some("tool_use"@)
    } else {
        kind == Some("tool_result"@) || (!is_owner && ((kind == Some("text"@) && has_text) || kind
            == Some("image"@)))
    }
}

/// Nothing else becomes a segment, and nothing twice: each segment is of a block of its own that may
/// have one, in the order of the blocks. The text of the prompt itself is no segment.
pub proof fn segments_are_of_blocks(ev: EvView, blocks: Seq<JsonView>, is_owner: bool)
    requires
        ev.content == JsonView::List(blocks),
        blocks.len() <= i64::MAX,
    ensures
        forall|a: int|
            0 <= a < segments(ev, is_owner).len() ==> 0 <= (#[trigger] segments(
                ev,
                is_owner,
            )[a]).block_idx < blocks.len() && may_show(
                ev,
                blocks[segments(ev, is_owner)[a].block_idx as int],
                is_owner,
            ),
        forall|a: int, b: int|
            0 <= a < b < segments(ev, is_owner).len() ==> (#[trigger] segments(
                ev,
                is_owner,
            )[a]).block_idx < (#[trigger] segments(ev, is_owner)[b]).block_idx,
        ev.etype != "assistant"@ && ev.etype != "user"@ ==> segments(ev, is_owner).len() == 0,
{
    lemma_kinds();
    lemma_blocks_rise(ev, blocks, is_owner);
    let all = segments(ev, is_owner);
    assert forall|a: int| 0 <= a < all.len() implies 0 <= (#[trigger] all[a]).block_idx
        < blocks.len() && may_show(ev, blocks[all[a].block_idx as int], is_owner) by {
        let i = lemma_block_of(ev, blocks, is_owner, a);
        assert(all[a].block_idx == i);
    }
}

/// An event whose content is no list of blocks has at most the one segment of its text, and none
/// where it is the assistant's or owns the turn.
pub proof fn plain_events_have_one_segment_at_most(ev: EvView, is_owner: bool)
    requires
        !(ev.content is List),
    ensures
        segments(ev, is_owner).len() <= 1,
        segments(ev, is_owner).len() == 1 <==> ev.etype == "user"@ && !is_owner && (ev.content
            matches JsonView::Text(t) && t.len() > 0),
{
    lemma_kinds();
}

// ---------------------------------------------------------------------------------------------
// Labels and lines
// ---------------------------------------------------------------------------------------------

/// What was folded into a turn is labelled by what it says and where it comes from: an interruption
/// first, then a notification of a background task, a command, a shell line, and other injected
/// text.
pub proof fn labels_say_what_was_folded(ev: EvView, text: Seq<char>)
    ensures
        ({
            let t = trim_start(text);
            let interrupted = contains(text, "[Request interrupted by user"@);
            let task = ev.origin_kind == Some("task-notification"@);
            let command = starts_with(t, "<command-name>"@) || starts_with(
                t,
                "<command-message>"@,
            ) || starts_with(t, "<local-command"@);
            let bash = starts_with(t, "<bash-input>"@) || starts_with(t, "<bash-stdout>"@);
            let (kind, name) = injected_label(ev, text);
            &&& kind == "interrupt"@ <==> interrupted
            &&& !interrupted ==> kind == "injected"@
            &&& name == Some("task-notification"@) <==> !interrupted && task
            &&& name == Some("command"@) <==> !interrupted && !task && command
            &&& name == Some("bash"@) <==> !interrupted && !task && !command && bash
            &&& name == Some("meta"@) <==> !interrupted && !task && !command && !bash && ev.is_meta
            &&& name is None <==> interrupted || (!task && !command && !bash && !ev.is_meta)
        }),
{
    reveal_strlit("interrupt");
    reveal_strlit("injected");
    reveal_strlit("task-notification");
    reveal_strlit("command");
    reveal_strlit("bash");
    reveal_strlit("meta");
    assert("interrupt"@.len() == 9);
    assert("injected"@.len() == 8);
    assert("task-notification"@.len() == 17);
    assert("command"@.len() == 7);
    assert("bash"@[0] == 'b');
    assert("meta"@[0] == 'm');
}

/// The line of a tool call names the tool and shows the argument that tells what the call is about:
/// the command, the file, the pattern, the task, the address or the skill, by the tool.
pub proof fn call_lines_show_the_telling_argument(tool: Seq<char>, input: JsonView, h: Seq<char>)
    requires
        ({
            ||| (tool == "Bash"@ || tool == "BashOutput"@) && input.text_member("command"@) == Some(
                h,
            )
            ||| (tool == "Read"@ || tool == "Write"@ || tool == "NotebookEdit"@ || tool == "Edit"@)
                && input.text_member("file_path"@) == Some(h)
            ||| (tool == "Grep"@ || tool == "Glob"@) && input.text_member("pattern"@) == Some(h)
            ||| (tool == "Agent"@ || tool == "Task"@) && input.text_member("description"@) == Some(
                h,
            )
            ||| (tool == "WebFetch"@ || tool == "WebSearch"@) && input.text_member("url"@) == Some(
                h,
            )
            ||| tool == "Skill"@ && input.text_member("skill"@) == Some(h)
        }),
    ensures
        call_line(tool, input) == tool + seq![' '] + preview(h, 100),
{
    lemma_tools();
    reveal_strlit(" ");
    assert(" "@ =~= seq![' ']);
}

/// The names of the tools differ.
proof fn lemma_tools()
    ensures
        "Read"@ != "Bash"@ && "Read"@ != "BashOutput"@,
        "Write"@ != "Bash"@ && "Write"@ != "BashOutput"@,
        "NotebookEdit"@ != "Bash"@ && "NotebookEdit"@ != "BashOutput"@,
        "Edit"@ != "Bash"@ && "Edit"@ != "BashOutput"@,
        forall|t: Seq<char>|
            #![trigger first_letter(t)]
            t == "Grep"@ || t == "Glob"@ || t == "Agent"@ || t == "Task"@ || t == "WebFetch"@ || t
                == "WebSearch"@ || t == "Skill"@ ==> first_letter(t) != 'B' && first_letter(t) != 'R'
                && first_letter(t) != 'N' && first_letter(t) != 'E' && t != "Write"@,
        first_letter("Agent"@) == 'A' && first_letter("Task"@) == 'T' && first_letter("Skill"@)
            == 'S' && first_letter("Grep"@) == 'G' && first_letter("Glob"@) == 'G',
        first_letter("WebFetch"@) == 'W' && first_letter("WebSearch"@) == 'W',
        first_letter("Bash"@) == 'B' && first_letter("BashOutput"@) == 'B',
        first_letter("Read"@) == 'R' && first_letter("NotebookEdit"@) == 'N' && first_letter(
            "Edit"@,
        ) == 'E',
{
    reveal_strlit("Bash");
    reveal_strlit("BashOutput");
    reveal_strlit("Read");
    reveal_strlit("Write");
    reveal_strlit("NotebookEdit");
    reveal_strlit("Edit");
    reveal_strlit("Grep");
    reveal_strlit("Glob");
    reveal_strlit("Agent");
    reveal_strlit("Task");
    reveal_strlit("WebFetch");
    reveal_strlit("WebSearch");
    reveal_strlit("Skill");
    assert("Write"@[0] == 'W');
    assert("Write"@.len() == 5);
    assert("WebFetch"@.len() == 8);
    assert("WebSearch"@.len() == 9);
    assert("Bash"@[0] == 'B');
    assert("BashOutput"@[0] == 'B');
    assert("Read"@[0] == 'R');
    assert("NotebookEdit"@[0] == 'N');
    assert("Edit"@[0] == 'E');
}

/// The first character of a text.
spec fn first_letter(t: Seq<char>) -> char {
    t[0]
}

/// Where the telling argument of a tool is missing, the line shows the query, then the description,
/// and else the tool alone, whatever other arguments there are. The same holds of other tools.
pub proof fn call_lines_fall_back(tool: Seq<char>, input: JsonView)
    requires
        ({
            let shell = tool == "Bash"@ || tool == "BashOutput"@;
            let file = tool == "Read"@ || tool == "Write"@ || tool == "NotebookEdit"@ || tool
                == "Edit"@;
            let search = tool == "Grep"@ || tool == "Glob"@;
            let task = tool == "Agent"@ || tool == "Task"@;
            let web = tool == "WebFetch"@ || tool == "WebSearch"@;
            let skill = tool == "Skill"@;
            &&& shell ==> input.text_member("command"@) is None
            &&& file ==> input.text_member("file_path"@) is None
            &&& search ==> input.text_member("pattern"@) is None
            &&& task ==> input.text_member("description"@) is None
            &&& web ==> input.text_member("url"@) is None
            &&& skill ==> input.text_member("skill"@) is None
            &&& shell || file || search || task || web || skill || input.text_member(""@) is None
        }),
    ensures
        input.text_member("query"@) is Some ==> call_line(tool, input) == tool + seq![' ']
            + preview(input.text_member("query"@)->0, 100),
        input.text_member("query"@) is None && input.text_member("description"@) is Some
            ==> call_line(tool, input) == tool + seq![' '] + preview(
            input.text_member("description"@)->0,
            100,
        ),
        input.text_member("query"@) is None && input.text_member("description"@) is None
            ==> call_line(tool, input) == tool,
{
    lemma_tools();
    reveal_strlit(" ");
    assert(" "@ =~= seq![' ']);
}

// ---------------------------------------------------------------------------------------------
// The prose
// ---------------------------------------------------------------------------------------------

/// The paragraphs of two lists of segments one after the other.
proof fn lemma_paragraphs_add(a: Seq<SegmentView>, b: Seq<SegmentView>)
    ensures
        paragraphs(a + b) == paragraphs(a) + paragraphs(b),
    decreases b.len(),
{
    if b.len() == 0 {
        assert(a + b =~= a);
        assert(paragraphs(a) + paragraphs(b) =~= paragraphs(a));
    } else {
        assert((a + b).drop_last() =~= a + b.drop_last());
        lemma_paragraphs_add(a, b.drop_last());
        assert(paragraphs(a + b) =~= paragraphs(a) + paragraphs(b));
    }
}

/// The prose of two parts of a response is the prose of the one and that of the other, with an empty
/// line between them unless one of them has no prose. So the prose of each segment stands in it
/// unchanged and in order.
pub proof fn prose_adds_up(a: Seq<SegmentView>, b: Seq<SegmentView>)
    ensures
        narrative(a + b) == if narrative(a).len() == 0 {
            narrative(b)
        } else if narrative(b).len() == 0 {
            narrative(a)
        } else {
            narrative(a) + seq!['\n', '\n'] + narrative(b)
        },
{
    reveal_strlit("\n\n");
    assert("\n\n"@ =~= seq!['\n', '\n']);
    lemma_paragraphs_add(a, b);
    crate::segment::lemma_paragraphs(a);
    crate::segment::lemma_paragraphs(b);
    crate::text::lemma_join_empty(paragraphs(a), "\n\n"@);
    crate::text::lemma_join_empty(paragraphs(b), "\n\n"@);
    joining_separates(paragraphs(a), paragraphs(b), "\n\n"@, "\n\n"@);
    if paragraphs(a).len() == 0 {
        assert(paragraphs(a) + paragraphs(b) =~= paragraphs(b));
    }
    if paragraphs(b).len() == 0 {
        assert(paragraphs(a) + paragraphs(b) =~= paragraphs(a));
    }
}

/// What is said of a segment is said of its fields.
pub proof fn a_segment_is_its_fields(s: crate::segment::Segment)
    ensures
        s@.src_uuid == s.src_uuid@,
        s@.block_idx == s.block_idx,
        s@.kind == s.kind@,
        s@.name is Some == s.name is Some,
        s.name is Some ==> s@.name == Some((s.name->0)@),
        s@.tool_id is Some == s.tool_id is Some,
        s.tool_id is Some ==> s@.tool_id == Some((s.tool_id->0)@),
        s@.preview == s.preview@,
        s@.body == s.body@,
        s@.nbytes == s.nbytes,
        s@.nlines == s.nlines,
        s@.is_error == s.is_error,
        s@.ts is Some == s.ts is Some,
        s.ts is Some ==> s@.ts == Some((s.ts->0)@),
{
}

/// What the prose says for one segment: text as it is, whatever its preview; a tool call by its line;
/// an interruption; a task, a command or a shell line that was folded in by its beginning; and
/// nothing for anything else, in particular for what a tool gave back.
pub proof fn prose_of_one_segment(s: SegmentView)
    ensures
        narrative(Seq::empty()) == Seq::<char>::empty(),
        s.kind == "text"@ && !blank(s.body) ==> narrative(seq![s]) == s.body,
        s.kind == "text"@ && blank(s.body) ==> narrative(seq![s]) == Seq::<char>::empty(),
        s.kind == "tool_use"@ ==> narrative(seq![s]) == "[tool: "@ + s.preview + "]"@,
        s.kind == "tool_result"@ || s.kind == "image"@ ==> narrative(seq![s])
            == Seq::<char>::empty(),
        s.kind == "interrupt"@ ==> narrative(seq![s]) == "[사용자가 중단함]"@,
        s.kind == "injected"@ && s.name == Some("task-notification"@) ==> narrative(seq![s])
            == "[백그라운드 작업: "@ + preview(s.preview, 80) + "]"@,
        s.kind == "injected"@ && s.name == Some("command"@) ==> narrative(seq![s])
            == "[커맨드: "@ + preview(s.preview, 80) + "]"@,
        s.kind == "injected"@ && s.name == Some("bash"@) ==> narrative(seq![s]) == "[bash: "@
            + preview(s.preview, 80) + "]"@,
        s.kind == "injected"@ && s.name != Some("task-notification"@) && s.name != Some("command"@)
            && s.name != Some("bash"@) ==> narrative(seq![s]) == Seq::<char>::empty(),
{
    lemma_kinds();
    reveal_strlit("interrupt");
    reveal_strlit("injected");
    reveal_strlit("text");
    reveal_strlit("tool_use");
    reveal_strlit("tool_result");
    reveal_strlit("image");
    assert("interrupt"@.len() == 9);
    assert("injected"@.len() == 8);
    assert("injected"@[0] == 'i');
    assert("tool_use"@[0] == 't');
    assert("tool_use"@.len() == 8);
    assert("tool_result"@.len() == 11);
    assert("image"@.len() == 5);
    assert("text"@.len() == 4);
    reveal_strlit("task-notification");
    reveal_strlit("command");
    reveal_strlit("bash");
    assert("task-notification"@.len() == 17);
    assert("command"@.len() == 7);
    assert("bash"@.len() == 4);
    let one = seq![s];
    assert(one.drop_last() =~= Seq::<SegmentView>::empty());
    assert(paragraphs(one.drop_last()) =~= Seq::<Seq<char>>::empty());
    assert(join(Seq::<Seq<char>>::empty(), "\n\n"@) =~= Seq::<char>::empty());
    reveal_strlit("[tool: ");
    reveal_strlit("[사용자가 중단함]");
    reveal_strlit("[백그라운드 작업: ");
    reveal_strlit("[커맨드: ");
    reveal_strlit("[bash: ");
    let t1 = "[tool: "@ + s.preview + "]"@;
    let t2 = "[백그라운드 작업: "@ + preview(s.preview, 80) + "]"@;
    let t3 = "[커맨드: "@ + preview(s.preview, 80) + "]"@;
    let t4 = "[bash: "@ + preview(s.preview, 80) + "]"@;
    assert(t1[0] == '[' && !crate::text::is_white(t1[0]));
    assert(t2[0] == '[' && !crate::text::is_white(t2[0]));
    assert(t3[0] == '[' && !crate::text::is_white(t3[0]));
    assert(t4[0] == '[' && !crate::text::is_white(t4[0]));
    assert("[사용자가 중단함]"@[0] == '[' && !crate::text::is_white("[사용자가 중단함]"@[0]));
    match crate::segment::prose_of(s) {
        Some(p) => {
            if !blank(p) {
                assert(paragraphs(one) =~= seq![p]);
            }
        },
        None => {},
    }
}

} // verus!
