//! Laws of transcripts: what is read of JSON values and of events.

use vstd::prelude::*;

use crate::json::{json_in_text, list_view, members_view, values_in, Json, JsonView};
use crate::text::{blank, maybe};
use crate::transcript::{
    block_texts, content_text, event_in, events_in, evs_view, prompt_like, Ev, EvView,
};
use crate::laws::text::joining_separates;

verus! {

broadcast use crate::json::lemma_list_view;

// ---------------------------------------------------------------------------------------------
// JSON
// ---------------------------------------------------------------------------------------------

/// A value stands for what it holds: items keep their places.
pub proof fn a_value_stands_for_what_it_holds(json: Json, i: int)
    ensures
        json is Null ==> json@ == JsonView::Null,
        json matches Json::Bool(b) ==> json@ == JsonView::Bool(b),
        json matches Json::Number(n) ==> json@ == JsonView::Number(n),
        json matches Json::Text(s) ==> json@ == JsonView::Text(s@),
        json is List ==> json@ is List && json@->List_0.len() == json->List_0@.len(),
        json is List && 0 <= i < json->List_0@.len() ==> json@->List_0[i] == json->List_0@[i]@,
        json is Object ==> json@ is Object,
{
    match json {
        Json::List(items) => {
            assert(list_view(items@).len() == items@.len());
            if 0 <= i < items@.len() {
                assert(list_view(items@)[i] == items@[i]@);
            }
        },
        _ => {},
    }
}

/// The member of a name is the last that was written under it, and there is none where none was.
pub proof fn the_last_member_of_a_name_counts(
    members: Seq<(String, Json)>,
    i: int,
    name: Seq<char>,
)
    requires
        forall|j: int| i < j < members.len() ==> (#[trigger] members[j]).0@ != name,
        i == -1 || (0 <= i < members.len() && members[i].0@ == name),
    ensures
        i == -1 <==> JsonView::Object(members_view(members)).member(name) is None,
        i >= 0 ==> JsonView::Object(members_view(members)).member(name) == Some(members[i].1@),
    decreases members.len(),
{
    if members.len() > 0 {
        let front = members.drop_last();
        let last = members.len() - 1;
        if i < last {
            assert(members[last].0@ != name);
            assert forall|j: int| i < j < front.len() implies (#[trigger] front[j]).0@ != name by {
                assert(front[j] == members[j]);
            }
            if i >= 0 {
                assert(front[i] == members[i]);
            }
            the_last_member_of_a_name_counts(front, i, name);
        }
    }
}

/// Members are looked up in objects only; a text member is a member that is a text, and a flag is set
/// only where the member is `true`.
pub proof fn members_are_read_as_they_are(
    json: JsonView,
    name: Seq<char>,
    inner: Seq<char>,
    s: Seq<char>,
)
    ensures
        json matches JsonView::Object(m) ==> (json.member(name) is Some <==> m.dom().contains(
            name,
        )) && (m.dom().contains(name) ==> json.member(name) == Some(m[name])),
        !(json is Object) ==> json.member(name) is None,
        json.text_member(name) == Some(s) <==> json.member(name) == Some(JsonView::Text(s)),
        json.flag(name) <==> json.member(name) == Some(JsonView::Bool(true)),
        json.member2(name, inner) == (if json.member(name) is Some {
            (json.member(name)->0).member(inner)
        } else {
            None
        }),
        json.text() is Some <==> json is Text,
        json == JsonView::Text(s) ==> json.text() == Some(s),
        json.items() is Some <==> json is List,
        json matches JsonView::List(items) ==> json.items() == Some(items),
{
}

/// Lines that are JSON give their values, in order; other lines give nothing.
pub proof fn lines_give_their_values(a: Seq<Seq<char>>, b: Seq<Seq<char>>, line: Seq<char>)
    ensures
        values_in(a + b) == values_in(a) + values_in(b),
        json_in_text(line) is None ==> values_in(seq![line]) == Seq::<JsonView>::empty(),
        json_in_text(line) is Some ==> values_in(seq![line]) == seq![json_in_text(line)->0],
    decreases b.len(),
{
    assert(seq![line].drop_last() =~= Seq::<Seq<char>>::empty());
    assert(values_in(seq![line].drop_last()) =~= Seq::<JsonView>::empty());
    if json_in_text(line) is Some {
        assert(values_in(seq![line]) =~= seq![json_in_text(line)->0]);
    }
    if b.len() == 0 {
        assert(a + b =~= a);
        assert(values_in(a) + values_in(b) =~= values_in(a));
    } else {
        assert((a + b).drop_last() =~= a + b.drop_last());
        lines_give_their_values(a, b.drop_last(), line);
        assert(values_in(a + b) =~= values_in(a) + values_in(b));
    }
}

// ---------------------------------------------------------------------------------------------
// Events
// ---------------------------------------------------------------------------------------------

/// What is said of an event is said of its fields.
pub proof fn an_event_is_its_fields(ev: Ev, evs: Seq<Ev>, i: int)
    ensures
        ev@.etype == ev.etype@,
        ev@.uuid == ev.uuid@,
        ev@.turn_id == maybe(ev.turn_id),
        ev@.origin_kind == maybe(ev.origin_kind),
        ev@.is_meta == ev.is_meta,
        ev@.ts == maybe(ev.ts),
        ev@.content == ev.content@,
        evs_view(evs).len() == evs.len(),
        0 <= i < evs.len() ==> evs_view(evs)[i] == evs[i]@,
{
}

/// Each field of an event is the member of its name, and empty where that is missing or of another
/// type.
pub proof fn events_are_read_member_by_member(json: JsonView, s: Seq<char>, v: JsonView)
    ensures
        json.text_member("type"@) == Some(s) ==> event_in(json).etype == s,
        json.text_member("type"@) is None ==> event_in(json).etype.len() == 0,
        json.text_member("uuid"@) == Some(s) ==> event_in(json).uuid == s,
        json.text_member("uuid"@) is None ==> event_in(json).uuid.len() == 0,
        event_in(json).turn_id == json.text_member("promptId"@),
        event_in(json).origin_kind == Some(s) <==> json.member2("origin"@, "kind"@) == Some(
            JsonView::Text(s),
        ),
        event_in(json).is_meta <==> json.member("isMeta"@) == Some(JsonView::Bool(true)),
        event_in(json).ts == json.text_member("timestamp"@),
        json.member2("message"@, "content"@) == Some(v) ==> event_in(json).content == v,
        json.member2("message"@, "content"@) is None ==> event_in(json).content == JsonView::Null,
{
}

/// Events keep their order, and only those of subagents are left out.
pub proof fn events_keep_their_order(a: Seq<JsonView>, b: Seq<JsonView>, json: JsonView)
    ensures
        events_in(a + b) == events_in(a) + events_in(b),
        json.member("isSidechain"@) == Some(JsonView::Bool(true)) ==> events_in(seq![json])
            == Seq::<EvView>::empty(),
        json.member("isSidechain"@) != Some(JsonView::Bool(true)) ==> events_in(seq![json])
            == seq![event_in(json)],
    decreases b.len(),
{
    assert(seq![json].drop_last() =~= Seq::<JsonView>::empty());
    assert(events_in(seq![json].drop_last()) =~= Seq::<EvView>::empty());
    if json.member("isSidechain"@) != Some(JsonView::Bool(true)) {
        assert(events_in(seq![json]) =~= seq![event_in(json)]);
    }
    if b.len() == 0 {
        assert(a + b =~= a);
        assert(events_in(a) + events_in(b) =~= events_in(a));
    } else {
        assert((a + b).drop_last() =~= a + b.drop_last());
        events_keep_their_order(a, b.drop_last(), json);
        assert(events_in(a + b) =~= events_in(a) + events_in(b));
    }
}

// ---------------------------------------------------------------------------------------------
// The text of a message
// ---------------------------------------------------------------------------------------------

/// Whether a block is a text.
pub open spec fn is_text_block(block: JsonView) -> bool {
    block.text_member("type"@) == Some("text"@) && block.text_member("text"@) is Some
}

/// The texts of blocks side by side.
proof fn lemma_texts_add(a: Seq<JsonView>, b: Seq<JsonView>)
    ensures
        block_texts(a + b) == block_texts(a) + block_texts(b),
    decreases b.len(),
{
    if b.len() == 0 {
        assert(a + b =~= a);
        assert(block_texts(a) + block_texts(b) =~= block_texts(a));
    } else {
        assert((a + b).drop_last() =~= a + b.drop_last());
        lemma_texts_add(a, b.drop_last());
        assert(block_texts(a + b) =~= block_texts(a) + block_texts(b));
    }
}

/// Blocks have texts exactly where one of them is a text.
proof fn lemma_some_text(blocks: Seq<JsonView>)
    ensures
        block_texts(blocks).len() > 0 <==> exists|i: int|
            0 <= i < blocks.len() && is_text_block(#[trigger] blocks[i]),
    decreases blocks.len(),
{
    if blocks.len() > 0 {
        let front = blocks.drop_last();
        lemma_some_text(front);
        if block_texts(front).len() > 0 {
            let i = choose|i: int| 0 <= i < front.len() && is_text_block(#[trigger] front[i]);
            assert(blocks[i] == front[i]);
        }
        if is_text_block(blocks.last()) {
            assert(blocks[blocks.len() - 1] == blocks.last());
        }
        if exists|i: int| 0 <= i < blocks.len() && is_text_block(#[trigger] blocks[i]) {
            let i = choose|i: int| 0 <= i < blocks.len() && is_text_block(#[trigger] blocks[i]);
            if i < front.len() {
                assert(front[i] == blocks[i]);
            }
        }
    }
}

/// The text of a message that is a text is that text; of two lists of blocks that both hold texts it is
/// the one, a line break, and the other; a list without texts has none, and neither has any other value.
pub proof fn the_text_of_a_message_is_its_texts(
    a: Seq<JsonView>,
    b: Seq<JsonView>,
    s: Seq<char>,
    v: JsonView,
)
    ensures
        content_text(JsonView::Text(s)) == s,
        !(v is Text) && !(v is List) ==> content_text(v) == Seq::<char>::empty(),
        (forall|i: int| 0 <= i < a.len() ==> !is_text_block(#[trigger] a[i])) ==> content_text(
            JsonView::List(a),
        ) == Seq::<char>::empty() && content_text(JsonView::List(a + b)) == content_text(
            JsonView::List(b),
        ) && content_text(JsonView::List(b + a)) == content_text(JsonView::List(b)),
        (exists|i: int| 0 <= i < a.len() && is_text_block(#[trigger] a[i])) && (exists|i: int|
            0 <= i < b.len() && is_text_block(#[trigger] b[i])) ==> content_text(
            JsonView::List(a + b),
        ) == content_text(JsonView::List(a)) + seq!['\n'] + content_text(JsonView::List(b)),
{
    lemma_texts_add(a, b);
    lemma_texts_add(b, a);
    lemma_some_text(a);
    lemma_some_text(b);
    reveal_strlit("\n");
    assert("\n"@ =~= seq!['\n']);
    joining_separates(block_texts(a), block_texts(b), "\n"@, "\n"@);
    if block_texts(a).len() == 0 {
        assert(block_texts(a) + block_texts(b) =~= block_texts(b));
        assert(block_texts(b) + block_texts(a) =~= block_texts(b));
        assert(block_texts(a) =~= Seq::empty());
    }
}

/// A message of one text block says that text.
pub proof fn the_text_of_one_block_is_its_text(block: JsonView)
    requires
        is_text_block(block),
    ensures
        content_text(JsonView::List(seq![block])) == block.text_member("text"@)->0,
{
    let t = block.text_member("text"@)->0;
    assert(seq![block].drop_last() =~= Seq::<JsonView>::empty());
    assert(block_texts(seq![block].drop_last()) =~= Seq::<Seq<char>>::empty());
    assert(block_texts(seq![block]) =~= seq![t]);
}

/// An event looks like a prompt where it is the user's and has a text that is not blank, or a block that
/// is a text; what tools gave back does not look like one.
pub proof fn prompts_are_told_by_their_text(ev: EvView, blocks: Seq<JsonView>, i: int, s: Seq<char>)
    ensures
        ev.etype != "user"@ ==> !prompt_like(ev),
        ev.etype == "user"@ && ev.content == JsonView::Text(s) ==> (prompt_like(ev) <==> !blank(s)),
        ev.etype == "user"@ && ev.content == JsonView::List(blocks) && 0 <= i < blocks.len()
            && blocks[i].text_member("type"@) == Some("text"@) ==> prompt_like(ev),
        ev.content == JsonView::List(blocks) && (forall|j: int|
            0 <= j < blocks.len() ==> (#[trigger] blocks[j]).text_member("type"@) != Some(
                "text"@,
            )) ==> !prompt_like(ev),
        !(ev.content is Text) && !(ev.content is List) ==> !prompt_like(ev),
{
}

} // verus!
