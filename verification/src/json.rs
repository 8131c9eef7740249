//! JSON values.
use vstd::prelude::*;

use crate::text;

verus! {

/// A JSON value. A number is kept as text: of a value that was parsed, as the
/// parser prints the number that it read. An object keeps its members in order.
#[derive(Debug, PartialEq, Eq)]
pub enum Json {
    Null,
    Bool(bool),
    Number(String),
    Text(String),
    List(Vec<Json>),
    Object(Vec<(String, Json)>),
}

/// A [`Json`] by its contents.
pub enum JsonView {
    Null,
    Bool(bool),
    Number(Seq<char>),
    Text(Seq<char>),
    List(Seq<JsonView>),
    Object(Seq<(Seq<char>, JsonView)>),
}

/// The contents of a value.
pub open spec fn json_view(j: Json) -> JsonView
    decreases j,
{
    match j {
        Json::Null => JsonView::Null,
        Json::Bool(b) => JsonView::Bool(b),
        Json::Number(n) => JsonView::Number(n@),
        Json::Text(s) => JsonView::Text(s@),
        Json::List(v) => JsonView::List(Seq::new(v@.len(), |i: int| if 0 <= i < v@.len() {
            json_view(v@[i])
        } else {
            JsonView::Null
        })),
        Json::Object(v) => JsonView::Object(Seq::new(v@.len(), |i: int| if 0 <= i < v@.len() {
            (v@[i].0@, json_view(v@[i].1))
        } else {
            (Seq::empty(), JsonView::Null)
        })),
    }
}

impl View for Json {
    type V = JsonView;

    open spec fn view(&self) -> JsonView {
        json_view(*self)
    }
}

/// The values in `list`.
pub open spec fn items(list: Seq<Json>) -> Seq<JsonView> {
    Seq::new(list.len(), |i: int| list[i]@)
}

/// The members in `list`.
pub open spec fn members(list: Seq<(String, Json)>) -> Seq<(Seq<char>, JsonView)> {
    Seq::new(list.len(), |i: int| (list[i].0@, list[i].1@))
}

pub proof fn lemma_view_list(v: Vec<Json>)
    ensures
        (Json::List(v))@ == JsonView::List(items(v@)),
{
    assert((Json::List(v))@->List_0 =~= items(v@));
}

pub proof fn lemma_view_object(v: Vec<(String, Json)>)
    ensures
        (Json::Object(v))@ == JsonView::Object(members(v@)),
{
    assert((Json::Object(v))@->Object_0 =~= members(v@));
}

impl Json {
    /// The same value once more.
    pub fn duplicate(&self) -> (r: Json)
        ensures
            r@ == self@,
        decreases *self,
    {
        match self {
            Json::Null => Json::Null,
            Json::Bool(b) => Json::Bool(*b),
            Json::Number(n) => Json::Number(n.as_str().to_owned()),
            Json::Text(s) => Json::Text(s.as_str().to_owned()),
            Json::List(v) => {
                let mut out: Vec<Json> = Vec::new();
                let mut i: usize = 0;
                while i < v.len()
                    invariant
                        i <= v.len(),
                        *self == Json::List(*v),
                        items(out@) == items(v@).take(i as int),
                    decreases v.len() - i,
                {
                    let ghost before = items(out@);
                    proof {
                        assert(decreases_to!(*self => self->List_0));
                        assert(decreases_to!(*v => v@));
                        assert(decreases_to!(v@ => v@[i as int]));
                    }
                    out.push(v[i].duplicate());
                    i = i + 1;
                    proof {
                        assert(items(out@) =~= before.push(v@[i as int - 1]@));
                        assert(items(v@).take(i as int) =~= before.push(v@[i as int - 1]@));
                    }
                }
                proof {
                    assert(items(v@).take(i as int) =~= items(v@));
                    lemma_view_list(out);
                    lemma_view_list(*v);
                }
                Json::List(out)
            },
            Json::Object(v) => {
                let mut out: Vec<(String, Json)> = Vec::new();
                let mut i: usize = 0;
                while i < v.len()
                    invariant
                        i <= v.len(),
                        *self == Json::Object(*v),
                        members(out@) == members(v@).take(i as int),
                    decreases v.len() - i,
                {
                    let ghost before = members(out@);
                    let name: String = v[i].0.as_str().to_owned();
                    proof {
                        assert(decreases_to!(*self => self->Object_0));
                        assert(decreases_to!(*v => v@));
                        assert(decreases_to!(v@ => v@[i as int]));
                        assert(decreases_to!(v@[i as int] => v@[i as int].1));
                    }
                    let value: Json = v[i].1.duplicate();
                    out.push((name, value));
                    i = i + 1;
                    proof {
                        let m = (v@[i as int - 1].0@, v@[i as int - 1].1@);
                        assert(members(out@) =~= before.push(m));
                        assert(members(v@).take(i as int) =~= before.push(m));
                    }
                }
                proof {
                    assert(members(v@).take(i as int) =~= members(v@));
                    lemma_view_object(out);
                    lemma_view_object(*v);
                }
                Json::Object(out)
            },
        }
    }
}

impl Clone for Json {
    fn clone(&self) -> (r: Json)
        ensures
            r@ == self@,
    {
        self.duplicate()
    }
}

// ------------------------------------------------------------------- reading

/// The value of the last member named `key`.
pub open spec fn member(members: Seq<(Seq<char>, JsonView)>, key: Seq<char>) -> Option<JsonView>
    decreases members.len(),
{
    if members.len() == 0 {
        None
    } else if members.last().0 == key {
        Some(members.last().1)
    } else {
        member(members.drop_last(), key)
    }
}

impl JsonView {
    /// The value of a member, of an object that has it.
    pub open spec fn get(self, key: Seq<char>) -> Option<JsonView> {
        match self {
            JsonView::Object(m) => member(m, key),
            _ => None,
        }
    }

    /// The items of a list.
    pub open spec fn list(self) -> Option<Seq<JsonView>> {
        match self {
            JsonView::List(v) => Some(v),
            _ => None,
        }
    }

    /// The characters of a text.
    pub open spec fn text(self) -> Option<Seq<char>> {
        match self {
            JsonView::Text(s) => Some(s),
            _ => None,
        }
    }
}

impl Json {
    /// The value of a member, of an object that has it.
    pub fn get(&self, key: &str) -> (r: Option<&Json>)
        ensures
            match self@.get(key@) {
                Some(v) => r matches Some(j) && j@ == v,
                None => r is None,
            },
    {
        match self {
            Json::Object(v) => {
                proof {
                    lemma_view_object(*v);
                }
                let ghost all = members(v@);
                let wanted: String = key.to_owned();
                let mut i: usize = v.len();
                proof {
                    assert(all.take(i as int) =~= all);
                }
                while i > 0
                    invariant
                        i <= v.len(),
                        all == members(v@),
                        wanted@ == key@,
                        self@ == JsonView::Object(all),
                        member(all, key@) == member(all.take(i as int), key@),
                    decreases i,
                {
                    proof {
                        assert(all.take(i as int).drop_last() =~= all.take(i as int - 1));
                        assert(all.take(i as int).last() == all[i as int - 1]);
                    }
                    i = i - 1;
                    if v[i].0 == wanted {
                        return Some(&v[i].1);
                    }
                }
                None
            },
            _ => None,
        }
    }

    /// The items of a list.
    pub fn as_list(&self) -> (r: Option<&Vec<Json>>)
        ensures
            match self@.list() {
                Some(s) => r matches Some(v) && items(v@) == s,
                None => r is None,
            },
    {
        match self {
            Json::List(v) => {
                proof {
                    lemma_view_list(*v);
                }
                Some(v)
            },
            _ => None,
        }
    }

    /// The characters of a text.
    pub fn as_text(&self) -> (r: Option<&str>)
        ensures
            match self@.text() {
                Some(s) => r matches Some(t) && t@ == s,
                None => r is None,
            },
    {
        match self {
            Json::Text(s) => Some(s.as_str()),
            _ => None,
        }
    }
}

// ------------------------------------------------------------------ building

/// The text `s`.
pub fn text_value(s: &str) -> (r: Json)
    ensures
        r@ == JsonView::Text(s@),
{
    Json::Text(s.to_owned())
}

/// The list `v`.
pub fn list_value(v: Vec<Json>) -> (r: Json)
    ensures
        r@ == JsonView::List(items(v@)),
{
    proof {
        lemma_view_list(v);
    }
    Json::List(v)
}

/// An object of one member.
pub fn object1(a: &str, x: Json) -> (r: Json)
    ensures
        r@ == JsonView::Object(seq![(a@, x@)]),
{
    let mut v: Vec<(String, Json)> = Vec::new();
    v.push((a.to_owned(), x));
    proof {
        lemma_view_object(v);
        assert(members(v@) =~= seq![(a@, x@)]);
    }
    Json::Object(v)
}

/// An object of two members.
pub fn object2(a: &str, x: Json, b: &str, y: Json) -> (r: Json)
    ensures
        r@ == JsonView::Object(seq![(a@, x@), (b@, y@)]),
{
    let mut v: Vec<(String, Json)> = Vec::new();
    v.push((a.to_owned(), x));
    v.push((b.to_owned(), y));
    proof {
        lemma_view_object(v);
        assert(members(v@) =~= seq![(a@, x@), (b@, y@)]);
    }
    Json::Object(v)
}

/// An object of three members.
pub fn object3(a: &str, x: Json, b: &str, y: Json, c: &str, z: Json) -> (r: Json)
    ensures
        r@ == JsonView::Object(seq![(a@, x@), (b@, y@), (c@, z@)]),
{
    let mut v: Vec<(String, Json)> = Vec::new();
    v.push((a.to_owned(), x));
    v.push((b.to_owned(), y));
    v.push((c.to_owned(), z));
    proof {
        lemma_view_object(v);
        assert(members(v@) =~= seq![(a@, x@), (b@, y@), (c@, z@)]);
    }
    Json::Object(v)
}

/// The number that a value is, where it is a natural number below `2^64`.
pub open spec fn natural(v: JsonView) -> Option<nat> {
    match v {
        JsonView::Number(n) => if n.len() > 0 && text::all_digits(n) && text::digits_value(n) <= u64::MAX {
            Some(text::digits_value(n))
        } else {
            None
        },
        _ => None,
    }
}

impl Json {
    /// The number that this value is, where it is a natural number below `2^64`.
    pub fn as_natural(&self) -> (r: Option<u64>)
        ensures
            match natural(self@) {
                Some(n) => r == Some(n as u64),
                None => r is None,
            },
    {
        match self {
            Json::Number(n) => {
                let chars: Vec<char> = text::chars_of(n.as_str());
                if chars.len() > 0 && chars[0] == '+' {
                    proof {
                        assert(!text::is_dec_digit(chars@[0]));
                    }
                    return None;
                }
                text::parse_unsigned(chars.as_slice(), u64::MAX)
            },
            _ => None,
        }
    }
}

// ------------------------------------------------------------------- parsing

/// The value that a JSON parser builds.
#[verifier::external_type_specification]
#[verifier::external_body]
pub struct ExValue(serde_json::Value);

/// What a text reads as: the value, or nothing where the text is no JSON.
pub uninterp spec fn parsed(text: Seq<char>) -> Option<JsonView>;

/// The contents of an optional value.
pub open spec fn opt_json(j: Option<Json>) -> Option<JsonView> {
    match j {
        Some(j) => Some(j@),
        None => None,
    }
}

/// Takes a `serde_json::Value` apart, variant by variant. A number is kept as
/// `serde_json::Number` prints it. Nothing is claimed of the result here; see
/// [`parse`].
#[verifier::external_body]
fn taken_apart(value: serde_json::Value) -> (r: Json) {
    match value {
        serde_json::Value::Null => Json::Null,
        serde_json::Value::Bool(b) => Json::Bool(b),
        serde_json::Value::Number(n) => Json::Number(n.to_string()),
        serde_json::Value::String(s) => Json::Text(s),
        serde_json::Value::Array(a) => Json::List(a.into_iter().map(taken_apart).collect()),
        serde_json::Value::Object(o) => Json::Object(
            o.into_iter().map(|m| (m.0, taken_apart(m.1))).collect(),
        ),
    }
}

/// Reads a text with `serde_json::from_str`. The claim is that what comes back
/// depends on the text alone.
#[verifier::external_body]
pub(crate) fn parse(text: &str) -> (r: Option<Json>)
    ensures
        opt_json(r) == parsed(text@),
{
    match serde_json::from_str::<serde_json::Value>(text) {
        Ok(value) => Some(taken_apart(value)),
        Err(_) => None,
    }
}

// ------------------------------------------------------------------- writing

/// What a value is written as.
pub uninterp spec fn text_of(value: JsonView) -> Seq<char>;

/// Puts a `serde_json::Value` together, variant by variant. A number whose text
/// is no number becomes null, and of members with one name the last stays.
/// Nothing is claimed of the result here; see [`written`].
#[verifier::external_body]
fn put_together(value: &Json) -> (r: serde_json::Value) {
    match value {
        Json::Null => serde_json::Value::Null,
        Json::Bool(b) => serde_json::Value::Bool(*b),
        Json::Number(n) => n.parse().ok().and_then(serde_json::Number::from_i128)
            .or_else(|| n.parse().ok().and_then(serde_json::Number::from_f64))
            .map_or(serde_json::Value::Null, serde_json::Value::Number),
        Json::Text(s) => serde_json::Value::String(s.clone()),
        Json::List(v) => serde_json::Value::Array(v.iter().map(put_together).collect()),
        Json::Object(v) => serde_json::Value::Object(
            v.iter().map(|m| (m.0.clone(), put_together(&m.1))).collect(),
        ),
    }
}

/// Writes a value with the `Display` of `serde_json::Value`. The claim is that
/// the text depends on the value alone.
#[verifier::external_body]
fn written(value: &Json) -> (r: String)
    ensures
        r@ == text_of(value@),
{
    put_together(value).to_string()
}

impl Json {
    /// The value as text, on one line and without spaces between its parts.
    pub fn to_text(&self) -> (r: String)
        ensures
            r@ == text_of(self@),
    {
        written(self)
    }
}

// -------------------------------------------------------------------- laws

/// A member is found by its name; of several with one name the last counts.
pub proof fn law_the_last_member_of_a_name_counts(
    members: Seq<(Seq<char>, JsonView)>,
    name: Seq<char>,
    value: JsonView,
    key: Seq<char>,
)
    ensures
        JsonView::Object(members.push((name, value))).get(name) == Some(value),
        key != name ==> JsonView::Object(members.push((name, value))).get(key) == JsonView::Object(
            members,
        ).get(key),
        JsonView::Object(Seq::empty()).get(key) is None,
{
    assert(members.push((name, value)).drop_last() =~= members);
}

/// Only an object has members, only a list has items, and only a text has
/// characters.
pub proof fn law_values_keep_to_their_kind(
    v: JsonView,
    key: Seq<char>,
    items: Seq<JsonView>,
    s: Seq<char>,
)
    ensures
        !(v is Object) ==> v.get(key) is None,
        v.list() == Some(items) <==> v == JsonView::List(items),
        v.text() == Some(s) <==> v == JsonView::Text(s),
{
}

/// A number below `2^64` that is written in decimal reads as that number; a larger
/// one, one with anything but digits, and what is no number do not.
pub proof fn law_naturals_read_back(n: nat, v: JsonView, i: int)
    ensures
        natural(JsonView::Number(text::decimal(n))) == (if n <= u64::MAX {
            Some(n)
        } else {
            None
        }),
        !(v is Number) ==> natural(v) is None,
        v matches JsonView::Number(s) ==> (0 <= i < s.len() && !('0' <= s[i] <= '9') ==> natural(v)
            is None),
{
    text::lemma_decimal_value(n);
}

/// The contents of a value are those of its parts.
pub proof fn law_a_value_is_its_parts(
    v: Json,
    b: bool,
    s: String,
    list: Vec<Json>,
    members: Vec<(String, Json)>,
    i: int,
)
    ensures
        (Json::Null)@ == JsonView::Null,
        (Json::Bool(b))@ == JsonView::Bool(b),
        (Json::Number(s))@ == JsonView::Number(s@),
        (Json::Text(s))@ == JsonView::Text(s@),
        ((Json::List(list))@ matches JsonView::List(l) && l.len() == list@.len() && (0 <= i
            < list@.len() ==> l[i] == list@[i]@)),
        ((Json::Object(members))@ matches JsonView::Object(m) && m.len() == members@.len() && (0
            <= i < members@.len() ==> m[i] == (members@[i].0@, members@[i].1@))),
{
    lemma_view_list(list);
    lemma_view_object(members);
}

} // verus!
