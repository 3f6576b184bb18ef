//! JSON values: what the controller sends, and what is sent to it.

use vstd::prelude::*;
use vstd::utf8::encode_utf8;
use crate::text::optional_str;

verus! {

/// A value of the `serde_json` crate.
#[verifier::external_type_specification]
#[verifier::external_body]
pub struct ExValue(serde_json::Value);

/// Why the `serde_json` crate could not read a text.
#[verifier::external_type_specification]
#[verifier::external_body]
pub struct ExJsonError(serde_json::Error);

/// A JSON value. Of two members of an object with the same name the later one counts.
#[derive(Debug)]
pub enum Json {
    Null,
    Bool(bool),
    /// A number, and its value where that is an integer that is not negative and fits in 64
    /// bits.
    Number(Option<u64>),
    Text(String),
    Array(Vec<Json>),
    Object(Vec<(String, Json)>),
}

/// A JSON value as contracts see it.
pub enum JsonView {
    Null,
    Bool(bool),
    Number(Option<u64>),
    Text(Seq<char>),
    Array(Seq<JsonView>),
    Object(Seq<(Seq<char>, JsonView)>),
}

/// What a JSON value is.
pub open spec fn json_view(json: Json) -> JsonView
    decreases json,
{
    match json {
        Json::Null => JsonView::Null,
        Json::Bool(value) => JsonView::Bool(value),
        Json::Number(value) => JsonView::Number(value),
        Json::Text(text) => JsonView::Text(text@),
        Json::Array(items) => JsonView::Array(json_items(items@)),
        Json::Object(members) => JsonView::Object(json_members(members@)),
    }
}

/// What the items of an array are.
pub open spec fn json_items(items: Seq<Json>) -> Seq<JsonView>
    decreases items,
{
    Seq::new(
        items.len(),
        |i: int|
            if 0 <= i < items.len() {
                json_view(items[i])
            } else {
                JsonView::Null
            },
    )
}

/// What the members of an object are, with their names.
pub open spec fn json_members(members: Seq<(String, Json)>) -> Seq<(Seq<char>, JsonView)>
    decreases members,
{
    Seq::new(
        members.len(),
        |i: int|
            if 0 <= i < members.len() {
                (members[i].0@, json_view(members[i].1))
            } else {
                (Seq::<char>::empty(), JsonView::Null)
            },
    )
}

impl View for Json {
    type V = JsonView;

    open spec fn view(&self) -> JsonView {
        json_view(*self)
    }
}

/// What a value of the `serde_json` crate holds.
pub uninterp spec fn value_content(value: serde_json::Value) -> JsonView;

/// The value that the `serde_json` crate reads from some bytes, or what it says of them where
/// they are not JSON.
pub uninterp spec fn parsed_json(bytes: Seq<u8>) -> Result<JsonView, Seq<char>>;

/// The `serde_json` crate reads `json` from `bytes`.
pub open spec fn reads_as(bytes: Seq<u8>, json: JsonView) -> bool {
    parsed_json(bytes) == Ok::<JsonView, Seq<char>>(json)
}

/// The `serde_json` crate finds no JSON in `bytes`, and says `problem` of them.
pub open spec fn fails_with(bytes: Seq<u8>, problem: Seq<char>) -> bool {
    parsed_json(bytes) == Err::<JsonView, Seq<char>>(problem)
}

/// What an error of the `serde_json` crate says.
pub uninterp spec fn error_content(error: serde_json::Error) -> Seq<char>;

/// `serde_json::from_slice`, named by [`parsed_json`].
#[verifier::external_body]
fn parse_value(bytes: &[u8]) -> (result: Result<serde_json::Value, serde_json::Error>)
    ensures
        match result {
            Ok(value) => parsed_json(bytes@) == Ok::<JsonView, Seq<char>>(value_content(value)),
            Err(error) => parsed_json(bytes@) == Err::<JsonView, Seq<char>>(error_content(error)),
        },
{
    serde_json::from_slice(bytes)
}

/// `serde_json::Error::to_string`, named by [`error_content`].
#[verifier::external_body]
fn error_text(error: &serde_json::Error) -> (text: String)
    ensures
        text@ == error_content(*error),
{
    error.to_string()
}

/// The value of a `serde_json::Value`, variant by variant; of a number, what
/// `serde_json::Number::as_u64` gives.
#[verifier::external_body]
fn json_from_value(value: serde_json::Value) -> (json: Json)
    ensures
        json@ == value_content(value),
{
    match value {
        serde_json::Value::Null => Json::Null,
        serde_json::Value::Bool(value) => Json::Bool(value),
        serde_json::Value::Number(value) => Json::Number(value.as_u64()),
        serde_json::Value::String(text) => Json::Text(text),
        serde_json::Value::Array(items) => {
            Json::Array(items.into_iter().map(json_from_value).collect())
        },
        serde_json::Value::Object(members) => Json::Object(
            members.into_iter().map(|(name, member)| (name, json_from_value(member))).collect(),
        ),
    }
}

/// The JSON value that some bytes write, or what is wrong with them.
pub fn parse_json(bytes: &[u8]) -> (result: Result<Json, String>)
    ensures
        match result {
            Ok(json) => reads_as(bytes@, json@),
            Err(problem) => fails_with(bytes@, problem@),
        },
{
    match parse_value(bytes) {
        Ok(value) => Ok(json_from_value(value)),
        Err(error) => Err(error_text(&error)),
    }
}

/// The member of a list that goes by `name`: the last one, where there are several.
pub open spec fn last_named(members: Seq<(Seq<char>, JsonView)>, name: Seq<char>) -> Option<
    JsonView,
>
    decreases members.len(),
{
    if members.len() == 0 {
        None
    } else if members.last().0 == name {
        Some(members.last().1)
    } else {
        last_named(members.drop_last(), name)
    }
}

impl JsonView {
    /// The member of an object that goes by `name`.
    pub open spec fn member(self, name: Seq<char>) -> Option<JsonView> {
        match self {
            JsonView::Object(members) => last_named(members, name),
            _ => None,
        }
    }

    /// The value of a number that is an integer of 64 bits without a sign.
    pub open spec fn number(self) -> Option<u64> {
        match self {
            JsonView::Number(value) => value,
            _ => None,
        }
    }

    /// The text of a text.
    pub open spec fn text(self) -> Option<Seq<char>> {
        match self {
            JsonView::Text(text) => Some(text),
            _ => None,
        }
    }

    /// The number that a member holds.
    pub open spec fn number_at(self, name: Seq<char>) -> Option<u64> {
        match self.member(name) {
            Some(member) => member.number(),
            None => None,
        }
    }

    /// The text that a member holds.
    pub open spec fn text_at(self, name: Seq<char>) -> Option<Seq<char>> {
        match self.member(name) {
            Some(member) => member.text(),
            None => None,
        }
    }
}

/// An optional borrowed value as contracts see it.
pub open spec fn optional_json(json: Option<&Json>) -> Option<JsonView> {
    match json {
        Some(json) => Some(json@),
        None => None,
    }
}

impl Json {
    /// The member of an object that goes by a name.
    pub fn get(&self, name: &str) -> (member: Option<&Json>)
        ensures
            optional_json(member) == self@.member(name@),
    {
        match self {
            Json::Object(members) => {
                let ghost all = self@->Object_0;
                let mut i: usize = members.len();
                assert(all.take(all.len() as int) == all);
                while i > 0
                    invariant
                        i <= members@.len(),
                        self@ == JsonView::Object(all),
                        all == json_members(members@),
                        last_named(all, name@) == last_named(all.take(i as int), name@),
                    decreases i,
                {
                    i -= 1;
                    assert(all.take(i + 1).drop_last() == all.take(i as int));
                    assert(all.take(i + 1).last() == all[i as int]);
                    if *members[i].0.as_str() == *name {
                        return Some(&members[i].1);
                    }
                }
                None
            },
            _ => None,
        }
    }

    /// The value of a number that is an integer of 64 bits without a sign.
    pub fn as_u64(&self) -> (value: Option<u64>)
        ensures
            value == self@.number(),
    {
        match self {
            Json::Number(value) => *value,
            _ => None,
        }
    }

    /// The text of a text.
    pub fn as_str(&self) -> (text: Option<&str>)
        ensures
            optional_str(text) == self@.text(),
    {
        match self {
            Json::Text(text) => Some(text.as_str()),
            _ => None,
        }
    }

    /// The number that a member holds.
    pub fn number_at(&self, name: &str) -> (value: Option<u64>)
        ensures
            value == self@.number_at(name@),
    {
        match self.get(name) {
            Some(member) => member.as_u64(),
            None => None,
        }
    }

    /// The text that a member holds.
    pub fn text_at(&self, name: &str) -> (text: Option<&str>)
        ensures
            optional_str(text) == self@.text_at(name@),
    {
        match self.get(name) {
            Some(member) => member.as_str(),
            None => None,
        }
    }
}

/// The hexadecimal digit with the value `digit`, in lower case.
pub open spec fn hex_char(digit: nat) -> char {
    if digit < 10 {
        (48 + digit) as char
    } else {
        (87 + digit) as char
    }
}

/// `ch` between the quotation marks of a JSON text: quotation marks, backslashes and control
/// characters are escaped.
pub open spec fn json_char(ch: char) -> Seq<char> {
    if ch == '"' || ch == '\\' {
        seq!['\\', ch]
    } else if ch == '\u{8}' {
        seq!['\\', 'b']
    } else if ch == '\t' {
        seq!['\\', 't']
    } else if ch == '\n' {
        seq!['\\', 'n']
    } else if ch == '\u{c}' {
        seq!['\\', 'f']
    } else if ch == '\r' {
        seq!['\\', 'r']
    } else if ' ' > ch {
        seq!['\\', 'u', '0', '0', hex_char(ch as nat / 16), hex_char(ch as nat % 16)]
    } else {
        seq![ch]
    }
}

/// `text` as it stands between the quotation marks of a JSON text.
pub open spec fn json_chars(text: Seq<char>) -> Seq<char>
    decreases text.len(),
{
    if text.len() == 0 {
        Seq::empty()
    } else {
        json_chars(text.drop_last()) + json_char(text.last())
    }
}

/// The JSON text for an object with one member, which is a text.
pub open spec fn object_written(name: Seq<char>, value: Seq<char>) -> Seq<char> {
    "{\""@ + json_chars(name) + "\":\""@ + json_chars(value) + "\"}"@
}

/// `serde_json::Value::to_string` on an object with one member, which is a text. The result has
/// no spaces between its parts, and `serde_json::from_slice` reads the object back from it.
#[verifier::external_body]
pub(crate) fn object_text(name: &str, value: &str) -> (text: String)
    ensures
        text@ == object_written(name@, value@),
        reads_as(
            encode_utf8(text@),
            JsonView::Object(seq![(name@, JsonView::Text(value@))]),
        ),
{
    let mut members = serde_json::Map::new();
    members.insert(name.to_owned(), serde_json::Value::String(value.to_owned()));
    serde_json::Value::Object(members).to_string()
}

/// Under a name stands the last member of an object that goes by it, and nothing where no member
/// does. What is no object has no members.
pub proof fn last_member_counts(members: Seq<(Seq<char>, JsonView)>, at: int, name: Seq<char>)
    ensures
        0 <= at < members.len() && members[at].0 == name && (forall|k: int|
            at < k < members.len() ==> (#[trigger] members[k]).0 != name) ==> JsonView::Object(
            members,
        ).member(name) == Some(members[at].1),
        (forall|k: int| 0 <= k < members.len() ==> (#[trigger] members[k]).0 != name)
            ==> JsonView::Object(members).member(name) is None,
        forall|json: JsonView|
            !(json is Object) ==> (#[trigger] json.member(name)) is None,
    decreases members.len(),
{
    if members.len() > 0 {
        let front = members.drop_last();
        let end = members.len() - 1;
        last_member_counts(front, at, name);
        assert(members[end] == members.last());
        if members[end].0 != name {
            if forall|k: int| 0 <= k < members.len() ==> (#[trigger] members[k]).0 != name {
                assert forall|k: int| 0 <= k < front.len() implies (#[trigger] front[k]).0
                    != name by {
                    assert(members[k].0 != name);
                }
            }
            if 0 <= at < front.len() && (forall|k: int|
                at < k < members.len() ==> (#[trigger] members[k]).0 != name) {
                assert(front[at] == members[at]);
                assert forall|k: int| at < k < front.len() implies (#[trigger] front[k]).0
                    != name by {
                    assert(members[k].0 != name);
                }
            }
        }
    }
}

/// A member is read as a number only where it is one, and as a text only where it is one. Then
/// its value is that of the member.
pub proof fn members_are_read_by_their_kind(json: JsonView, name: Seq<char>)
    ensures
        match json.member(name) {
            Some(JsonView::Number(value)) => json.number_at(name) == value && json.text_at(
                name,
            ) is None,
            Some(JsonView::Text(text)) => json.text_at(name) == Some(text) && json.number_at(
                name,
            ) is None,
            _ => json.number_at(name) is None && json.text_at(name) is None,
        },
{
}

/// A value is seen with all that it holds.
pub proof fn values_are_seen_as_they_are(
    flag: bool,
    number: Option<u64>,
    text: String,
    items: Vec<Json>,
    members: Vec<(String, Json)>,
    i: int,
)
    ensures
        Json::Null@ == JsonView::Null,
        Json::Bool(flag)@ == JsonView::Bool(flag),
        Json::Number(number)@ == JsonView::Number(number),
        Json::Text(text)@ == JsonView::Text(text@),
        Json::Array(items)@ matches JsonView::Array(seen) && seen.len() == items@.len() && (0 <= i
            < seen.len() ==> seen[i] == items@[i]@),
        Json::Object(members)@ matches JsonView::Object(seen) && seen.len() == members@.len() && (0
            <= i < seen.len() ==> seen[i] == (members@[i].0@, members@[i].1@)),
{
}

} // verus!
