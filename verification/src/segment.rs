//! Segments: the pieces of a response, and the prose that stands for them.

use vstd::prelude::*;

use crate::json::{list_view, pretty, pretty_text, Json, JsonView};
use crate::text::{
    begins_with, blank, byte_count, contains, count_lines, has_text, is_blank, is_text, join,
    lemma_join_empty, line_count, maybe, own, own_maybe, preview, preview_of, starts_with, text_eq,
    trim_start, without_leading_space,
};
use crate::transcript::{content_text, is_block, text_of_content, Ev, EvView};

verus! {

broadcast use crate::json::lemma_list_view;

/// One piece of a response: prose, a tool call, what a tool gave back, or an event that was folded
/// into the turn.
#[derive(Debug, Clone)]
pub struct Segment {
    pub src_uuid: String,
    pub block_idx: i64,
    /// `text`, `tool_use`, `tool_result`, `injected`, `interrupt` or `image`.
    pub kind: String,
    pub name: Option<String>,
    pub tool_id: Option<String>,
    pub preview: String,
    pub body: String,
    pub nbytes: i64,
    pub nlines: i64,
    pub is_error: bool,
    pub ts: Option<String>,
}

/// What a segment says.
pub struct SegmentView {
    pub src_uuid: Seq<char>,
    pub block_idx: i64,
    pub kind: Seq<char>,
    pub name: Option<Seq<char>>,
    pub tool_id: Option<Seq<char>>,
    pub preview: Seq<char>,
    pub body: Seq<char>,
    pub nbytes: i64,
    pub nlines: i64,
    pub is_error: bool,
    pub ts: Option<Seq<char>>,
}

impl View for Segment {
    type V = SegmentView;

    open spec fn view(&self) -> SegmentView {
        SegmentView {
            src_uuid: self.src_uuid@,
            block_idx: self.block_idx,
            kind: self.kind@,
            name: maybe(self.name),
            tool_id: maybe(self.tool_id),
            preview: self.preview@,
            body: self.body@,
            nbytes: self.nbytes,
            nlines: self.nlines,
            is_error: self.is_error,
            ts: maybe(self.ts),
        }
    }
}

/// What the segments of a list say.
pub open spec fn segs_view(segs: Seq<Segment>) -> Seq<SegmentView> {
    segs.map_values(|s: Segment| s@)
}

// ---------------------------------------------------------------------------------------------
// From events to segments
// ---------------------------------------------------------------------------------------------

/// The longest preview of a segment, in characters.
pub const PREVIEW_MAX: usize = 200;

/// The longest hint after the name of a tool, in characters.
pub const HINT_MAX: usize = 100;

/// The longest note on a folded event in the prose, in characters.
pub const NOTE_MAX: usize = 80;

/// The argument that says best what a call of the tool is about.
pub open spec fn telling_argument(tool: Seq<char>) -> Seq<char> {
    if tool == "Bash"@ || tool == "BashOutput"@ {
        "command"@
    } else if tool == "Read"@ || tool == "Write"@ || tool == "NotebookEdit"@ || tool == "Edit"@ {
        "file_path"@
    } else if tool == "Grep"@ || tool == "Glob"@ {
        "pattern"@
    } else if tool == "Agent"@ || tool == "Task"@ {
        "description"@
    } else if tool == "WebFetch"@ || tool == "WebSearch"@ {
        "url"@
    } else if tool == "Skill"@ {
        "skill"@
    } else {
        ""@
    }
}

/// The argument that hints at what a call is about: the telling one, else `query`, else
/// `description`, of those that are texts.
pub open spec fn hint(tool: Seq<char>, input: JsonView) -> Option<Seq<char>> {
    match input.text_member(telling_argument(tool)) {
        Some(h) => Some(h),
        None => match input.text_member("query"@) {
            Some(h) => Some(h),
            None => input.text_member("description"@),
        },
    }
}

/// One line for a tool call: the tool's name, and the hint where there is one.
pub open spec fn call_line(tool: Seq<char>, input: JsonView) -> Seq<char> {
    match hint(tool, input) {
        Some(h) => tool + " "@ + preview(h, HINT_MAX as int),
        None => tool,
    }
}

/// The kind and the name of a segment for an event that was folded into a turn.
pub open spec fn injected_label(ev: EvView, text: Seq<char>) -> (Seq<char>, Option<Seq<char>>) {
    let t = trim_start(text);
    if contains(text, "[Request interrupted by user"@) {
        ("interrupt"@, None)
    } else if ev.origin_kind == Some("task-notification"@) {
        ("injected"@, Some("task-notification"@))
    } else if starts_with(t, "<command-name>"@) || starts_with(t, "<command-message>"@)
        || starts_with(t, "<local-command"@) {
        ("injected"@, Some("command"@))
    } else if starts_with(t, "<bash-input>"@) || starts_with(t, "<bash-stdout>"@) {
        ("injected"@, Some("bash"@))
    } else if ev.is_meta {
        ("injected"@, Some("meta"@))
    } else {
        ("injected"@, None)
    }
}

/// The segment of an event's block.
pub open spec fn segment(
    ev: EvView,
    block_idx: int,
    kind: Seq<char>,
    name: Option<Seq<char>>,
    tool_id: Option<Seq<char>>,
    line: Seq<char>,
    body: Seq<char>,
    is_error: bool,
) -> SegmentView {
    SegmentView {
        src_uuid: ev.uuid,
        block_idx: block_idx as i64,
        kind,
        name,
        tool_id,
        preview: line,
        body,
        nbytes: byte_count(body),
        nlines: line_count(body),
        is_error,
        ts: ev.ts,
    }
}

/// The segment for a text that was folded into a turn.
pub open spec fn folded(ev: EvView, block_idx: int, text: Seq<char>) -> SegmentView {
    let (kind, name) = injected_label(ev, text);
    segment(ev, block_idx, kind, name, None, preview(text, PREVIEW_MAX as int), text, false)
}

/// The text of a block, empty where it has none.
pub open spec fn block_text(block: JsonView) -> Seq<char> {
    match block.text_member("text"@) {
        Some(t) => t,
        None => Seq::empty(),
    }
}

/// The arguments of a tool call, no arguments where it has none.
pub open spec fn call_input(block: JsonView) -> JsonView {
    match block.member("input"@) {
        Some(v) => v,
        None => JsonView::Object(Map::empty()),
    }
}

/// The name of the tool of a call, `?` where it has none.
pub open spec fn call_name(block: JsonView) -> Seq<char> {
    match block.text_member("name"@) {
        Some(n) => n,
        None => "?"@,
    }
}

/// What a tool gave back.
pub open spec fn result_text(block: JsonView) -> Seq<char> {
    match block.member("content"@) {
        Some(v) => content_text(v),
        None => Seq::empty(),
    }
}

/// The segment of a block of an assistant's message: prose and tool calls have one. Thinking has
/// none: transcripts keep no text of it.
pub open spec fn assistant_segment(ev: EvView, i: int, block: JsonView) -> Option<SegmentView> {
    let kind = block.text_member("type"@);
    if kind == Some("text"@) {
        let t = block_text(block);
        if t.len() == 0 {
            None
        } else {
            Some(segment(ev, i, "text"@, None, None, preview(t, PREVIEW_MAX as int), t, false))
        }
    } else if kind == Some("tool_use"@) {
        let name = call_name(block);
        let input = call_input(block);
        Some(
            segment(
                ev,
                i,
                "tool_use"@,
                Some(name),
                block.text_member("id"@),
                call_line(name, input),
                pretty_text(input),
                false,
            ),
        )
    } else {
        None
    }
}

/// The segment of a block of a user's message. What a tool gave back always has one; texts and
/// images have one unless the event owns the turn: there they are the prompt itself.
pub open spec fn user_segment(ev: EvView, i: int, block: JsonView, is_owner: bool) -> Option<
    SegmentView,
> {
    let kind = block.text_member("type"@);
    if kind == Some("tool_result"@) {
        let body = result_text(block);
        Some(
            segment(
                ev,
                i,
                "tool_result"@,
                None,
                block.text_member("tool_use_id"@),
                preview(body, PREVIEW_MAX as int),
                body,
                block.flag("is_error"@),
            ),
        )
    } else if is_owner {
        None
    } else if kind == Some("text"@) {
        let t = block_text(block);
        if t.len() == 0 {
            None
        } else {
            Some(folded(ev, i, t))
        }
    } else if kind == Some("image"@) {
        Some(segment(ev, i, "image"@, None, None, "[Image]"@, Seq::empty(), false))
    } else {
        None
    }
}

/// The segment of block `i` of an event, where it has one.
pub open spec fn block_segment(ev: EvView, i: int, block: JsonView, is_owner: bool) -> Option<
    SegmentView,
> {
    if ev.etype == "assistant"@ {
        assistant_segment(ev, i, block)
    } else {
        user_segment(ev, i, block, is_owner)
    }
}

/// The segments of the first blocks of an event, in order.
pub open spec fn block_segments(ev: EvView, blocks: Seq<JsonView>, is_owner: bool) -> Seq<
    SegmentView,
>
    decreases blocks.len(),
{
    if blocks.len() == 0 {
        Seq::empty()
    } else {
        let before = block_segments(ev, blocks.drop_last(), is_owner);
        match block_segment(ev, blocks.len() - 1, blocks.last(), is_owner) {
            Some(s) => before.push(s),
            None => before,
        }
    }
}

/// The segments of an event. The text of the event that owns a turn is the prompt and not among
/// them.
pub open spec fn segments(ev: EvView, is_owner: bool) -> Seq<SegmentView> {
    if ev.etype == "assistant"@ || ev.etype == "user"@ {
        match ev.content {
            JsonView::List(blocks) => block_segments(ev, blocks, is_owner),
            JsonView::Text(t) => if ev.etype == "assistant"@ || is_owner || t.len() == 0 {
                Seq::empty()
            } else {
                seq![folded(ev, 0, t)]
            },
            _ => Seq::empty(),
        }
    } else {
        Seq::empty()
    }
}

/// The argument that says best what a call of the tool is about.
fn telling_argument_of(tool: &str) -> (r: &'static str)
    ensures
        r@ == telling_argument(tool@),
{
    if text_eq(tool, "Bash") || text_eq(tool, "BashOutput") {
        "command"
    } else if text_eq(tool, "Read") || text_eq(tool, "Write") || text_eq(tool, "NotebookEdit")
        || text_eq(tool, "Edit") {
        "file_path"
    } else if text_eq(tool, "Grep") || text_eq(tool, "Glob") {
        "pattern"
    } else if text_eq(tool, "Agent") || text_eq(tool, "Task") {
        "description"
    } else if text_eq(tool, "WebFetch") || text_eq(tool, "WebSearch") {
        "url"
    } else if text_eq(tool, "Skill") {
        "skill"
    } else {
        ""
    }
}

/// One line for a tool call, such as `Bash cargo test`.
pub fn tool_preview(name: &str, input: &Json) -> (r: String)
    ensures
        r@ == call_line(name@, input@),
{
    let key = telling_argument_of(name);
    let found = match input.text_of(key) {
        Some(h) => Some(h),
        None => match input.text_of("query") {
            Some(h) => Some(h),
            None => input.text_of("description"),
        },
    };
    let mut out = own(name);
    match found {
        Some(h) => {
            out.append(" ");
            out.append(preview_of(h, HINT_MAX).as_str());
        },
        None => {},
    }
    out
}

/// The kind and the name of a segment for an event that was folded into a turn. They are labels
/// for the reader: whatever they say, the segment's body is the whole text.
pub fn injected_name(ev: &Ev, text: &str) -> (r: (String, Option<String>))
    ensures
        (r.0@, maybe(r.1)) == injected_label(ev@, text@),
{
    if has_text(text, "[Request interrupted by user") {
        return (own("interrupt"), None);
    }
    if is_text(&ev.origin_kind, "task-notification") {
        return (own("injected"), Some(own("task-notification")));
    }
    let t = without_leading_space(text);
    let t = t.as_str();
    if begins_with(t, "<command-name>") || begins_with(t, "<command-message>") || begins_with(
        t,
        "<local-command",
    ) {
        return (own("injected"), Some(own("command")));
    }
    if begins_with(t, "<bash-input>") || begins_with(t, "<bash-stdout>") {
        return (own("injected"), Some(own("bash")));
    }
    if ev.is_meta {
        return (own("injected"), Some(own("meta")));
    }
    (own("injected"), None)
}

/// The segment of an event's block.
pub fn seg(
    ev: &Ev,
    block_idx: i64,
    kind: &str,
    name: Option<String>,
    tool_id: Option<String>,
    preview: String,
    body: String,
    is_error: bool,
) -> (r: Segment)
    ensures
        r@ == segment(
            ev@,
            block_idx as int,
            kind@,
            maybe(name),
            maybe(tool_id),
            preview@,
            body@,
            is_error,
        ),
{
    let nbytes: i64 = body.as_str().len() as i64;
    let nlines: i64 = count_lines(body.as_str());
    Segment {
        src_uuid: ev.uuid.clone(),
        block_idx,
        kind: own(kind),
        name,
        tool_id,
        preview,
        body,
        nbytes,
        nlines,
        is_error,
        ts: ev.ts.clone(),
    }
}

/// The segment for a text that was folded into a turn.
fn folded_segment(ev: &Ev, block_idx: i64, text: &str) -> (r: Segment)
    ensures
        r@ == folded(ev@, block_idx as int, text@),
{
    let (kind, name) = injected_name(ev, text);
    seg(ev, block_idx, kind.as_str(), name, None, preview_of(text, PREVIEW_MAX), own(text), false)
}

/// The segment of block `i` of an assistant's message, where it has one.
fn segment_of_assistant(ev: &Ev, i: usize, block: &Json) -> (r: Option<Segment>)
    ensures
        r is Some == assistant_segment(ev@, i as int, block@) is Some,
        r matches Some(s) ==> assistant_segment(ev@, i as int, block@) == Some(s@),
{
    let at: i64 = i as i64;
    if is_block(block, "text") {
        match block.text_of("text") {
            Some(t) => {
                if t.is_empty() {
                    None
                } else {
                    Some(seg(ev, at, "text", None, None, preview_of(t, PREVIEW_MAX), own(t), false))
                }
            },
            None => None,
        }
    } else if is_block(block, "tool_use") {
        let name = match block.text_of("name") {
            Some(n) => n,
            None => "?",
        };
        let nothing = Json::Object(Vec::new());
        let input = match block.get("input") {
            Some(v) => v,
            None => &nothing,
        };
        let id = own_maybe(block.text_of("id"));
        let body = pretty(input);
        Some(
            seg(ev, at, "tool_use", Some(own(name)), id, tool_preview(name, input), body, false),
        )
    } else {
        None
    }
}

/// The segment of block `i` of a user's message, where it has one.
fn segment_of_user(ev: &Ev, i: usize, block: &Json, is_owner: bool) -> (r: Option<Segment>)
    ensures
        r is Some == user_segment(ev@, i as int, block@, is_owner) is Some,
        r matches Some(s) ==> user_segment(ev@, i as int, block@, is_owner) == Some(s@),
{
    let at: i64 = i as i64;
    if is_block(block, "tool_result") {
        let body = match block.get("content") {
            Some(v) => text_of_content(v),
            None => String::new(),
        };
        let id = own_maybe(block.text_of("tool_use_id"));
        let is_error = block.is_set("is_error");
        let line = preview_of(body.as_str(), PREVIEW_MAX);
        Some(seg(ev, at, "tool_result", None, id, line, body, is_error))
    } else if is_owner {
        None
    } else if is_block(block, "text") {
        match block.text_of("text") {
            Some(t) => {
                if t.is_empty() {
                    None
                } else {
                    Some(folded_segment(ev, at, t))
                }
            },
            None => None,
        }
    } else if is_block(block, "image") {
        Some(seg(ev, at, "image", None, None, own("[Image]"), String::new(), false))
    } else {
        None
    }
}

/// The segments of an event. With `is_owner` the event's text is the prompt itself and becomes no
/// segment.
pub fn segments_of(ev: &Ev, is_owner: bool) -> (r: Vec<Segment>)
    ensures
        segs_view(r@) == segments(ev@, is_owner),
{
    let mut out: Vec<Segment> = Vec::new();
    let assistant = text_eq(ev.etype.as_str(), "assistant");
    if !assistant && !text_eq(ev.etype.as_str(), "user") {
        proof {
            assert(segs_view(out@) =~= Seq::empty());
        }
        return out;
    }
    match &ev.content {
        Json::List(blocks) => {
            let ghost all = list_view(blocks@);
            let mut i: usize = 0;
            proof {
                assert(segs_view(out@) =~= block_segments(ev@, all.take(0), is_owner));
            }
            while i < blocks.len()
                invariant
                    i <= blocks@.len(),
                    all == list_view(blocks@),
                    assistant == (ev@.etype == "assistant"@),
                    segs_view(out@) == block_segments(ev@, all.take(i as int), is_owner),
                decreases blocks@.len() - i,
            {
                proof {
                    assert(all.take(i + 1).drop_last() =~= all.take(i as int));
                    assert(all.take(i + 1).last() == blocks@[i as int]@);
                }
                let piece = if assistant {
                    segment_of_assistant(ev, i, &blocks[i])
                } else {
                    segment_of_user(ev, i, &blocks[i], is_owner)
                };
                match piece {
                    Some(s) => {
                        let ghost before = segs_view(out@);
                        out.push(s);
                        proof {
                            assert(segs_view(out@) =~= before.push(s@));
                        }
                    },
                    None => {},
                }
                i = i + 1;
            }
            proof {
                assert(all.take(all.len() as int) =~= all);
            }
        },
        Json::Text(t) => {
            if !assistant && !is_owner && !t.as_str().is_empty() {
                let s = folded_segment(ev, 0, t.as_str());
                out.push(s);
                proof {
                    assert(segs_view(out@) =~= seq![s@]);
                }
            } else {
                proof {
                    assert(segs_view(out@) =~= Seq::empty());
                }
            }
        },
        _ => {
            proof {
                assert(segs_view(out@) =~= Seq::empty());
            }
        },
    }
    out
}

// ---------------------------------------------------------------------------------------------
// The prose
// ---------------------------------------------------------------------------------------------

/// What the prose says for a segment: prose as it is, a tool call or a folded event as a note in
/// brackets, and nothing for what a tool gave back.
pub open spec fn prose_of(s: SegmentView) -> Option<Seq<char>> {
    if s.kind == "text"@ {
        Some(s.body)
    } else if s.kind == "tool_use"@ {
        Some("[tool: "@ + s.preview + "]"@)
    } else if s.kind == "tool_result"@ {
        None
    } else if s.kind == "interrupt"@ {
        Some("[사용자가 중단함]"@)
    } else if s.kind == "injected"@ {
        let note = preview(s.preview, NOTE_MAX as int);
        if s.name == Some("task-notification"@) {
            Some("[백그라운드 작업: "@ + note + "]"@)
        } else if s.name == Some("command"@) {
            Some("[커맨드: "@ + note + "]"@)
        } else if s.name == Some("bash"@) {
            Some("[bash: "@ + note + "]"@)
        } else {
            None
        }
    } else {
        None
    }
}

/// The paragraphs of the prose: what it says for each segment, where that is more than white
/// space.
pub open spec fn paragraphs(segs: Seq<SegmentView>) -> Seq<Seq<char>>
    decreases segs.len(),
{
    if segs.len() == 0 {
        Seq::empty()
    } else {
        let before = paragraphs(segs.drop_last());
        match prose_of(segs.last()) {
            Some(p) => if blank(p) {
                before
            } else {
                before.push(p)
            },
            None => before,
        }
    }
}

/// The prose of a response: its paragraphs with an empty line between each two.
pub open spec fn narrative(segs: Seq<SegmentView>) -> Seq<char> {
    join(paragraphs(segs), "\n\n"@)
}

/// No paragraph is blank, so none is empty.
pub proof fn lemma_paragraphs(segs: Seq<SegmentView>)
    ensures
        forall|k: int|
            0 <= k < paragraphs(segs).len() ==> (#[trigger] paragraphs(segs)[k]).len() > 0
                && !blank(paragraphs(segs)[k]),
    decreases segs.len(),
{
    if segs.len() > 0 {
        let before = paragraphs(segs.drop_last());
        lemma_paragraphs(segs.drop_last());
        assert forall|k: int| 0 <= k < paragraphs(segs).len() implies (#[trigger] paragraphs(
            segs,
        )[k]).len() > 0 && !blank(paragraphs(segs)[k]) by {
            if k < before.len() {
                assert(paragraphs(segs)[k] == before[k]);
            }
        }
    }
}

/// A text in brackets behind a label.
fn bracketed(label: &str, text: &str) -> (r: String)
    ensures
        r@ == label@ + text@ + "]"@,
{
    let mut out = own(label);
    out.append(text);
    out.append("]");
    out
}

/// What the prose says for a segment.
fn prose_for(s: &Segment) -> (r: Option<String>)
    ensures
        maybe(r) == prose_of(s@),
{
    let kind = s.kind.as_str();
    if text_eq(kind, "text") {
        Some(s.body.clone())
    } else if text_eq(kind, "tool_use") {
        Some(bracketed("[tool: ", s.preview.as_str()))
    } else if text_eq(kind, "tool_result") {
        None
    } else if text_eq(kind, "interrupt") {
        Some(own("[사용자가 중단함]"))
    } else if text_eq(kind, "injected") {
        let note = preview_of(s.preview.as_str(), NOTE_MAX);
        if is_text(&s.name, "task-notification") {
            Some(bracketed("[백그라운드 작업: ", note.as_str()))
        } else if is_text(&s.name, "command") {
            Some(bracketed("[커맨드: ", note.as_str()))
        } else if is_text(&s.name, "bash") {
            Some(bracketed("[bash: ", note.as_str()))
        } else {
            None
        }
    } else {
        None
    }
}

/// The prose of a response: what search, previews and hand edits work on. Tool calls are folded
/// into one line each, and what tools gave back is left out.
pub fn narrative_of(segs: &[Segment]) -> (r: String)
    ensures
        r@ == narrative(segs_view(segs@)),
{
    let mut out = String::new();
    let ghost all = segs_view(segs@);
    let mut i: usize = 0;
    while i < segs.len()
        invariant
            i <= segs@.len(),
            all == segs_view(segs@),
            out@ == narrative(all.take(i as int)),
        decreases segs@.len() - i,
    {
        let ghost done = all.take(i as int);
        proof {
            assert(all.take(i + 1).drop_last() =~= done);
            assert(all.take(i + 1).last() == segs@[i as int]@);
            lemma_paragraphs(done);
            lemma_join_empty(paragraphs(done), "\n\n"@);
        }
        match prose_for(&segs[i]) {
            Some(line) => {
                if !is_blank(line.as_str()) {
                    proof {
                        assert(paragraphs(done).push(line@).drop_last() =~= paragraphs(done));
                        if paragraphs(done).len() == 0 {
                            assert(out@ + line@ =~= line@);
                        }
                    }
                    if !out.as_str().is_empty() {
                        out.append("\n\n");
                    }
                    out.append(line.as_str());
                }
            },
            None => {},
        }
        i = i + 1;
    }
    proof {
        assert(all.take(all.len() as int) =~= all);
    }
    out
}

} // verus!
