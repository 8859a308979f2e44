//! The events of a session transcript: one JSON object per line.

use vstd::prelude::*;

use crate::json::{list_view, parse_lines, values_in, Json, JsonView};
use crate::text::{is_blank, blank, join, joined, maybe, own, own_maybe, text_eq, texts};

verus! {

broadcast use crate::json::lemma_list_view;

/// One event of a transcript.
#[derive(Debug)]
pub struct Ev {
    pub etype: String,
    pub uuid: String,
    /// The transcript's `promptId`. It names a turn, not a prompt.
    pub turn_id: Option<String>,
    pub origin_kind: Option<String>,
    pub is_meta: bool,
    pub ts: Option<String>,
    /// The `content` of the event's `message`.
    pub content: Json,
}

/// What an event says.
pub struct EvView {
    pub etype: Seq<char>,
    pub uuid: Seq<char>,
    pub turn_id: Option<Seq<char>>,
    pub origin_kind: Option<Seq<char>>,
    pub is_meta: bool,
    pub ts: Option<Seq<char>>,
    pub content: JsonView,
}

impl View for Ev {
    type V = EvView;

    open spec fn view(&self) -> EvView {
        EvView {
            etype: self.etype@,
            uuid: self.uuid@,
            turn_id: maybe(self.turn_id),
            origin_kind: maybe(self.origin_kind),
            is_meta: self.is_meta,
            ts: maybe(self.ts),
            content: self.content@,
        }
    }
}

/// What the events of a list say.
pub open spec fn evs_view(evs: Seq<Ev>) -> Seq<EvView> {
    evs.map_values(|e: Ev| e@)
}

/// The text, or the empty text where there is none.
pub open spec fn or_empty(text: Option<Seq<char>>) -> Seq<char> {
    match text {
        Some(s) => s,
        None => Seq::empty(),
    }
}

/// The event that a JSON object describes. What is missing or of another type is left empty.
pub open spec fn event_in(json: JsonView) -> EvView {
    EvView {
        etype: or_empty(json.text_member("type"@)),
        uuid: or_empty(json.text_member("uuid"@)),
        turn_id: json.text_member("promptId"@),
        origin_kind: match json.member2("origin"@, "kind"@) {
            Some(v) => v.text(),
            None => None,
        },
        is_meta: json.flag("isMeta"@),
        ts: json.text_member("timestamp"@),
        content: match json.member2("message"@, "content"@) {
            Some(v) => v,
            None => JsonView::Null,
        },
    }
}

/// The events that a list of JSON objects describes. Events of subagents are not among them.
pub open spec fn events_in(values: Seq<JsonView>) -> Seq<EvView>
    decreases values.len(),
{
    if values.len() == 0 {
        Seq::empty()
    } else {
        let before = events_in(values.drop_last());
        if values.last().flag("isSidechain"@) {
            before
        } else {
            before.push(event_in(values.last()))
        }
    }
}

/// The text, or the empty text where there is none.
fn text_or_empty(text: Option<&str>) -> (r: String)
    ensures
        text is None ==> r@ == Seq::<char>::empty(),
        text matches Some(s) ==> r@ == s@,
{
    match text {
        Some(s) => own(s),
        None => String::new(),
    }
}

/// The event that a JSON object describes.
pub fn event_of(json: Json) -> (r: Ev)
    ensures
        r@ == event_in(json@),
{
    let etype = text_or_empty(json.text_of("type"));
    let uuid = text_or_empty(json.text_of("uuid"));
    let turn_id = own_maybe(json.text_of("promptId"));
    let origin_kind = match json.get("origin") {
        Some(origin) => own_maybe(origin.text_of("kind")),
        None => None,
    };
    let is_meta = json.is_set("isMeta");
    let ts = own_maybe(json.text_of("timestamp"));
    let content = match json.into_member("message") {
        Some(message) => match message.into_member("content") {
            Some(content) => content,
            None => Json::Null,
        },
        None => Json::Null,
    };
    Ev { etype, uuid, turn_id, origin_kind, is_meta, ts, content }
}

/// The events that a list of JSON objects describes, in order. Events of subagents belong to
/// another transcript and are passed over.
pub fn events_of(values: Vec<Json>) -> (r: Vec<Ev>)
    ensures
        evs_view(r@) == events_in(list_view(values@)),
{
    let mut out: Vec<Ev> = Vec::new();
    let ghost all = list_view(values@);
    for json in it: values
        invariant
            all == list_view(values@),
            all.len() == values@.len(),
            it.seq() == values@,
            evs_view(out@) == events_in(all.take(it.index())),
    {
        proof {
            assert(all[it.index()] == values@[it.index()]@);
            assert(all.take(it.index() + 1).drop_last() =~= all.take(it.index()));
        }
        if !json.is_set("isSidechain") {
            let ghost before = evs_view(out@);
            let ev = event_of(json);
            out.push(ev);
            proof {
                assert(evs_view(out@) =~= before.push(ev@));
            }
        }
    }
    proof {
        assert(all.take(all.len() as int) =~= all);
    }
    out
}

/// The events that the lines of a transcript describe, in order. Lines that are no JSON and events
/// of subagents are passed over.
pub fn parse_events(lines: &Vec<String>) -> (r: Vec<Ev>)
    ensures
        evs_view(r@) == events_in(values_in(texts(lines@))),
{
    events_of(parse_lines(lines))
}

// ---------------------------------------------------------------------------------------------
// The text of a message
// ---------------------------------------------------------------------------------------------

/// The texts of the text blocks among `blocks`, in order.
pub open spec fn block_texts(blocks: Seq<JsonView>) -> Seq<Seq<char>>
    decreases blocks.len(),
{
    if blocks.len() == 0 {
        Seq::empty()
    } else {
        let before = block_texts(blocks.drop_last());
        let b = blocks.last();
        match b.text_member("text"@) {
            Some(t) => if b.text_member("type"@) == Some("text"@) {
                before.push(t)
            } else {
                before
            },
            None => before,
        }
    }
}

/// The text of a message: the text itself, or its text blocks on lines of their own.
pub open spec fn content_text(content: JsonView) -> Seq<char> {
    match content {
        JsonView::Text(s) => s,
        JsonView::List(blocks) => join(block_texts(blocks), "\n"@),
        _ => Seq::empty(),
    }
}

/// Whether a block says of itself that it is of the given type.
pub fn is_block(block: &Json, kind: &str) -> (r: bool)
    ensures
        r == (block@.text_member("type"@) == Some(kind@)),
{
    match block.text_of("type") {
        Some(t) => text_eq(t, kind),
        None => false,
    }
}

/// The text of a message: the text itself, or its text blocks on lines of their own.
pub fn text_of_content(content: &Json) -> (r: String)
    ensures
        r@ == content_text(content@),
{
    match content {
        Json::Text(s) => own(s.as_str()),
        Json::List(blocks) => {
            let mut parts: Vec<String> = Vec::new();
            let ghost all = list_view(blocks@);
            let mut i: usize = 0;
            while i < blocks.len()
                invariant
                    i <= blocks@.len(),
                    all == list_view(blocks@),
                    texts(parts@) == block_texts(all.take(i as int)),
                decreases blocks@.len() - i,
            {
                proof {
                    assert(all.take(i + 1).drop_last() =~= all.take(i as int));
                    assert(all.take(i + 1).last() == blocks@[i as int]@);
                }
                if is_block(&blocks[i], "text") {
                    match blocks[i].text_of("text") {
                        Some(t) => {
                            let ghost before = texts(parts@);
                            parts.push(own(t));
                            proof {
                                assert(texts(parts@) =~= before.push(t@));
                            }
                        },
                        None => {},
                    }
                }
                i = i + 1;
            }
            proof {
                assert(all.take(all.len() as int) =~= all);
            }
            joined(&parts, "\n")
        },
        _ => String::new(),
    }
}

/// Whether a user event looks like a prompt: it holds text and not tool results alone.
pub open spec fn prompt_like(ev: EvView) -> bool {
    &&& ev.etype == "user"@
    &&& match ev.content {
        JsonView::Text(s) => !blank(s),
        JsonView::List(blocks) => exists|i: int|
            0 <= i < blocks.len() && (#[trigger] blocks[i]).text_member("type"@) == Some("text"@),
        _ => false,
    }
}

/// Whether a user event looks like a prompt: it holds text and not tool results alone.
pub fn is_prompt_like(ev: &Ev) -> (r: bool)
    ensures
        r == prompt_like(ev@),
{
    if !text_eq(ev.etype.as_str(), "user") {
        return false;
    }
    match &ev.content {
        Json::Text(s) => !is_blank(s.as_str()),
        Json::List(blocks) => {
            let ghost all = list_view(blocks@);
            let mut i: usize = 0;
            while i < blocks.len()
                invariant
                    i <= blocks@.len(),
                    all == list_view(blocks@),
                    ev@.content == JsonView::List(all),
                    ev@.etype == "user"@,
                    forall|k: int|
                        0 <= k < i ==> (#[trigger] all[k]).text_member("type"@) != Some("text"@),
                decreases blocks@.len() - i,
            {
                proof {
                    assert(all[i as int] == blocks@[i as int]@);
                }
                if is_block(&blocks[i], "text") {
                    return true;
                }
                i = i + 1;
            }
            false
        },
        _ => false,
    }
}

} // verus!
