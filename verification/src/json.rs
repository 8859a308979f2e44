//! JSON values as the transcript logic reads them.

use vstd::prelude::*;

use crate::text::{text_eq, texts};

verus! {

/// `serde_json::Number`: a JSON number. It is carried from a transcript line to the printed
/// arguments of a tool call and never looked into.
#[verifier::external_type_specification]
#[verifier::external_body]
pub struct ExNumber(serde_json::Number);

/// `serde_json::Value`: what the JSON parser hands out and the JSON printer takes.
#[verifier::external_type_specification]
#[verifier::external_body]
pub struct ExValue(serde_json::Value);

/// A JSON value.
#[derive(Debug)]
pub enum Json {
    Null,
    Bool(bool),
    Number(serde_json::Number),
    Text(String),
    List(Vec<Json>),
    /// The members in any order. Where a name occurs twice, the later member counts.
    Object(Vec<(String, Json)>),
}

/// What a JSON value is, whatever order an object's members were written in.
pub enum JsonView {
    Null,
    Bool(bool),
    Number(serde_json::Number),
    Text(Seq<char>),
    List(Seq<JsonView>),
    Object(Map<Seq<char>, JsonView>),
}

/// The value that `json` stands for.
pub open spec fn json_view(json: Json) -> JsonView
    decreases json,
{
    match json {
        Json::Null => JsonView::Null,
        Json::Bool(b) => JsonView::Bool(b),
        Json::Number(n) => JsonView::Number(n),
        Json::Text(s) => JsonView::Text(s@),
        Json::List(items) => JsonView::List(list_view(items@)),
        Json::Object(members) => JsonView::Object(members_view(members@)),
    }
}

/// The values that the items of a list stand for.
pub open spec fn list_view(items: Seq<Json>) -> Seq<JsonView>
    decreases items,
{
    if items.len() == 0 {
        Seq::empty()
    } else {
        list_view(items.drop_last()).push(json_view(items.last()))
    }
}

/// The mapping that the members of an object stand for.
pub open spec fn members_view(members: Seq<(String, Json)>) -> Map<Seq<char>, JsonView>
    decreases members,
{
    if members.len() == 0 {
        Map::empty()
    } else {
        members_view(members.drop_last()).insert(members.last().0@, json_view(members.last().1))
    }
}

impl View for Json {
    type V = JsonView;

    open spec fn view(&self) -> JsonView {
        json_view(*self)
    }
}

impl JsonView {
    /// The member called `name`, where this is an object that has one.
    pub open spec fn member(self, name: Seq<char>) -> Option<JsonView> {
        match self {
            JsonView::Object(members) => if members.dom().contains(name) {
                Some(members[name])
            } else {
                None
            },
            _ => None,
        }
    }

    /// The text, where this is one.
    pub open spec fn text(self) -> Option<Seq<char>> {
        match self {
            JsonView::Text(s) => Some(s),
            _ => None,
        }
    }

    /// The items, where this is a list.
    pub open spec fn items(self) -> Option<Seq<JsonView>> {
        match self {
            JsonView::List(items) => Some(items),
            _ => None,
        }
    }

    /// The text of the member called `name`, where there is one and it is a text.
    pub open spec fn text_member(self, name: Seq<char>) -> Option<Seq<char>> {
        match self.member(name) {
            Some(v) => v.text(),
            None => None,
        }
    }

    /// Whether the member called `name` is there and is `true`.
    pub open spec fn flag(self, name: Seq<char>) -> bool {
        self.member(name) == Some(JsonView::Bool(true))
    }

    /// The member `inner` of the member `outer`.
    pub open spec fn member2(self, outer: Seq<char>, inner: Seq<char>) -> Option<JsonView> {
        match self.member(outer) {
            Some(v) => v.member(inner),
            None => None,
        }
    }
}

/// The items of a list stand for what its view holds at the same places.
pub broadcast proof fn lemma_list_view(items: Seq<Json>)
    ensures
        #![trigger list_view(items)]
        list_view(items).len() == items.len(),
        forall|i: int| #![trigger list_view(items)[i]] #![trigger items[i]]
            0 <= i < items.len() ==> list_view(items)[i] == items[i]@,
    decreases items.len(),
{
    if items.len() > 0 {
        lemma_list_view(items.drop_last());
        assert forall|i: int| 0 <= i < items.len() implies list_view(items)[i] == items[i]@ by {
            if i < items.len() - 1 {
                assert(items.drop_last()[i] == items[i]);
                assert(list_view(items.drop_last())[i] == items.drop_last()[i]@);
            }
        }
    }
}

/// What `serde_json::from_str` reads in a text: the value written there, or nothing where the text
/// is no JSON.
pub uninterp spec fn json_in_text(text: Seq<char>) -> Option<JsonView>;

/// What a `serde_json::Value` holds.
pub uninterp spec fn json_in_value(value: serde_json::Value) -> JsonView;

/// What `serde_json::to_string_pretty` prints for a value.
pub uninterp spec fn pretty_text(value: JsonView) -> Seq<char>;

/// `serde_json::from_str` for a `serde_json::Value`: the value written in `text`, or nothing where
/// it returns an error. The claim is that the outcome depends on the text alone.
#[verifier::external_body]
fn parse_value(text: &str) -> (r: Option<serde_json::Value>)
    ensures
        match r {
            Some(v) => json_in_text(text@) == Some(json_in_value(v)),
            None => json_in_text(text@) is None,
        },
{
    serde_json::from_str::<serde_json::Value>(text).ok()
}

/// Unpacks a `serde_json::Value`, variant by variant. The claim is that the unpacked value stands
/// for what the packed one holds.
#[verifier::external_body]
fn json_of_value(value: serde_json::Value) -> (r: Json)
    ensures
        r@ == json_in_value(value),
{
    match value {
        serde_json::Value::Null => Json::Null,
        serde_json::Value::Bool(b) => Json::Bool(b),
        serde_json::Value::Number(n) => Json::Number(n),
        serde_json::Value::String(s) => Json::Text(s),
        serde_json::Value::Array(a) => Json::List(a.into_iter().map(json_of_value).collect()),
        serde_json::Value::Object(m) => Json::Object(
            m.into_iter().map(|(k, v)| (k, json_of_value(v))).collect(),
        ),
    }
}

/// Packs a JSON value into a `serde_json::Value`, variant by variant; the members of an object go
/// in one by one through `serde_json::Map::insert`, where a later member replaces an earlier one
/// of the same name. The claim is that the packed value holds what the unpacked one stands for.
#[verifier::external_body]
fn value_of_json(json: &Json) -> (r: serde_json::Value)
    ensures
        json_in_value(r) == json@,
{
    match json {
        Json::Null => serde_json::Value::Null,
        Json::Bool(b) => serde_json::Value::Bool(*b),
        Json::Number(n) => serde_json::Value::Number(n.clone()),
        Json::Text(s) => serde_json::Value::String(s.clone()),
        Json::List(a) => serde_json::Value::Array(a.iter().map(value_of_json).collect()),
        Json::Object(m) => {
            let mut map = serde_json::Map::new();
            for (k, v) in m {
                map.insert(k.clone(), value_of_json(v));
            }
            serde_json::Value::Object(map)
        },
    }
}

/// `serde_json::to_string_pretty` for a `serde_json::Value`, or the empty text where it returns an
/// error. The claim is that what is printed depends on what the value holds alone: objects are
/// kept sorted by name, so the order in which members came does not show.
#[verifier::external_body]
fn pretty_value(value: &serde_json::Value) -> (r: String)
    ensures
        r@ == pretty_text(json_in_value(*value)),
{
    serde_json::to_string_pretty(value).unwrap_or_default()
}

/// The JSON value written in `text`, or nothing where the text is no JSON.
pub fn parse_json(text: &str) -> (r: Option<Json>)
    ensures
        match r {
            Some(json) => json_in_text(text@) == Some(json@),
            None => json_in_text(text@) is None,
        },
{
    match parse_value(text) {
        Some(value) => Some(json_of_value(value)),
        None => None,
    }
}

/// The value printed over several lines, with indentation.
pub fn pretty(json: &Json) -> (r: String)
    ensures
        r@ == pretty_text(json@),
{
    let value = value_of_json(json);
    pretty_value(&value)
}

/// The values written in the lines that are JSON, in order.
pub open spec fn values_in(lines: Seq<Seq<char>>) -> Seq<JsonView>
    decreases lines.len(),
{
    if lines.len() == 0 {
        Seq::empty()
    } else {
        let before = values_in(lines.drop_last());
        match json_in_text(lines.last()) {
            Some(v) => before.push(v),
            None => before,
        }
    }
}

/// The values written in the lines that are JSON, in order. Other lines are passed over.
pub fn parse_lines(lines: &Vec<String>) -> (r: Vec<Json>)
    ensures
        list_view(r@) == values_in(texts(lines@)),
{
    let mut out: Vec<Json> = Vec::new();
    let mut i: usize = 0;
    while i < lines.len()
        invariant
            i <= lines@.len(),
            list_view(out@) == values_in(texts(lines@).take(i as int)),
        decreases lines@.len() - i,
    {
        proof {
            assert(texts(lines@).take(i + 1).drop_last() =~= texts(lines@).take(i as int));
        }
        match parse_json(lines[i].as_str()) {
            Some(json) => {
                let ghost before = out@;
                out.push(json);
                proof {
                    assert(out@.drop_last() =~= before);
                }
            },
            None => {},
        }
        i = i + 1;
    }
    proof {
        assert(texts(lines@).take(lines@.len() as int) =~= texts(lines@));
    }
    out
}

impl Json {
    /// The member called `name`, where this is an object that has one.
    pub fn get(&self, name: &str) -> (r: Option<&Json>)
        ensures
            r is Some == self@.member(name@) is Some,
            r matches Some(v) ==> self@.member(name@) == Some(v@),
    {
        match self {
            Json::Object(members) => {
                let mut i: usize = members.len();
                proof {
                    assert(members@.take(i as int) =~= members@);
                }
                while i > 0
                    invariant
                        i <= members@.len(),
                        self@ == JsonView::Object(members_view(members@)),
                        self@.member(name@) == JsonView::Object(
                            members_view(members@.take(i as int)),
                        ).member(name@),
                    decreases i,
                {
                    i = i - 1;
                    proof {
                        assert(members@.take(i + 1).drop_last() =~= members@.take(i as int));
                    }
                    if text_eq(members[i].0.as_str(), name) {
                        return Some(&members[i].1);
                    }
                }
                None
            },
            _ => None,
        }
    }

    /// The member called `name`, taken out of this value.
    pub fn into_member(self, name: &str) -> (r: Option<Json>)
        ensures
            r is Some == self@.member(name@) is Some,
            r matches Some(v) ==> self@.member(name@) == Some(v@),
    {
        let ghost whole = self@;
        match self {
            Json::Object(members) => {
                let mut rest = members;
                while rest.len() > 0
                    invariant
                        whole == self@,
                        whole.member(name@) == JsonView::Object(members_view(rest@)).member(name@),
                    decreases rest@.len(),
                {
                    match rest.pop() {
                        Some((key, value)) => {
                            if text_eq(key.as_str(), name) {
                                return Some(value);
                            }
                        },
                        None => {},
                    }
                }
                None
            },
            _ => None,
        }
    }

    /// The text, where this is one.
    pub fn as_text(&self) -> (r: Option<&str>)
        ensures
            r is Some == self@.text() is Some,
            r matches Some(s) ==> self@.text() == Some(s@),
    {
        match self {
            Json::Text(s) => Some(s.as_str()),
            _ => None,
        }
    }

    /// The items, where this is a list.
    pub fn as_list(&self) -> (r: Option<&Vec<Json>>)
        ensures
            r is Some == self@.items() is Some,
            r matches Some(items) ==> self@.items() == Some(list_view(items@)),
    {
        match self {
            Json::List(items) => Some(items),
            _ => None,
        }
    }

    /// The text of the member called `name`, where there is one and it is a text.
    pub fn text_of(&self, name: &str) -> (r: Option<&str>)
        ensures
            r is Some == self@.text_member(name@) is Some,
            r matches Some(s) ==> self@.text_member(name@) == Some(s@),
    {
        match self.get(name) {
            Some(v) => v.as_text(),
            None => None,
        }
    }

    /// Whether the member called `name` is there and is `true`.
    pub fn is_set(&self, name: &str) -> (r: bool)
        ensures
            r == self@.flag(name@),
    {
        match self.get(name) {
            Some(Json::Bool(b)) => *b,
            _ => false,
        }
    }
}

} // verus!
