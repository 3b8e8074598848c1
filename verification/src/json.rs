//! JSON text as stored in leaves: the value `serde_json` reads from it, and
//! the lookups that reading a leaf makes in that value.
use vstd::prelude::*;

verus! {

#[verifier::external_type_specification]
#[verifier::external_body]
pub struct ExJsonError(serde_json::Error);

#[verifier::external_type_specification]
#[verifier::external_body]
pub struct ExJsonNumber(serde_json::Number);

#[verifier::external_type_specification]
#[verifier::external_body]
pub struct ExJsonValue(serde_json::Value);

#[verifier::external_type_specification]
#[verifier::external_body]
pub struct ExUtf8Error(std::str::Utf8Error);

/// A JSON value, variant for variant as `serde_json` reads it; the members of
/// an object in the order `serde_json` keeps them.
pub enum JsonValue {
    Null,
    Bool(bool),
    Number(serde_json::Number),
    Str(String),
    Array(Vec<JsonValue>),
    Object(Vec<(String, JsonValue)>),
}

/// What a JSON value stands for (numbers are not told apart).
pub enum JsonView {
    Null,
    Bool(bool),
    Number,
    Str(Seq<char>),
    Array(Seq<JsonView>),
    Object(Seq<(Seq<char>, JsonView)>),
}

/// What a JSON value stands for.
pub open spec fn json_view(v: JsonValue) -> JsonView
    decreases v, 0nat,
{
    match v {
        JsonValue::Null => JsonView::Null,
        JsonValue::Bool(b) => JsonView::Bool(b),
        JsonValue::Number(_) => JsonView::Number,
        JsonValue::Str(s) => JsonView::Str(s@),
        JsonValue::Array(a) => JsonView::Array(json_views(a@, a@.len())),
        JsonValue::Object(o) => JsonView::Object(json_members(o@, o@.len())),
    }
}

/// What the first `n` values stand for.
pub open spec fn json_views(s: Seq<JsonValue>, n: nat) -> Seq<JsonView>
    decreases s, n,
{
    if n == 0 || n > s.len() {
        Seq::empty()
    } else {
        json_views(s, (n - 1) as nat).push(json_view(s[n - 1]))
    }
}

/// What the first `n` members stand for.
pub open spec fn json_members(s: Seq<(String, JsonValue)>, n: nat) -> Seq<(Seq<char>, JsonView)>
    decreases s, n,
{
    if n == 0 || n > s.len() {
        Seq::empty()
    } else {
        json_members(s, (n - 1) as nat).push((s[n - 1].0@, json_view(s[n - 1].1)))
    }
}

impl View for JsonValue {
    type V = JsonView;

    open spec fn view(&self) -> JsonView {
        json_view(*self)
    }
}

/// The members stand for the members of the object, one for one.
proof fn lemma_json_members(s: Seq<(String, JsonValue)>, n: nat)
    requires
        n <= s.len(),
    ensures
        json_members(s, n).len() == n,
        forall|i: int| 0 <= i < n ==> #[trigger] json_members(s, n)[i] == (s[i].0@, json_view(s[i].1)),
    decreases n,
{
    if n > 0 {
        lemma_json_members(s, (n - 1) as nat);
    }
}

/// The value of the first member named `key`, among members.
pub open spec fn first_member(es: Seq<(Seq<char>, JsonView)>, key: Seq<char>) -> Option<JsonView>
    decreases es.len(),
{
    if es.len() == 0 {
        None
    } else if es[0].0 == key {
        Some(es[0].1)
    } else {
        first_member(es.drop_first(), key)
    }
}

/// The member named `key` of an object; nothing for any other value.
pub open spec fn json_member(v: JsonView, key: Seq<char>) -> Option<JsonView> {
    match v {
        JsonView::Object(es) => first_member(es, key),
        _ => None,
    }
}

/// The text of a string; nothing for any other value.
pub open spec fn json_text(v: JsonView) -> Option<Seq<char>> {
    match v {
        JsonView::Str(s) => Some(s),
        _ => None,
    }
}

impl JsonValue {
    /// The member named `key` of an object, as `Value::get` of `serde_json`
    /// finds it; nothing for any other value.
    pub fn get(&self, key: &str) -> (r: Option<&JsonValue>)
        ensures
            match r {
                Some(x) => json_member(self@, key@) == Some(x@),
                None => json_member(self@, key@) is None,
            },
    {
        match self {
            JsonValue::Object(members) => {
                let ghost es = json_members(members@, members@.len());
                proof {
                    lemma_json_members(members@, members@.len());
                }
                let name = key.to_owned();
                let mut i: usize = 0;
                proof {
                    assert(es.skip(0) =~= es);
                    assert(self@ == JsonView::Object(es));
                }
                while i < members.len()
                    invariant
                        i <= members@.len(),
                        es == json_members(members@, members@.len()),
                        es.len() == members@.len(),
                        forall|t: int| 0 <= t < members@.len() ==> #[trigger] es[t] == (members@[t].0@, json_view(members@[t].1)),
                        name@ == key@,
                        first_member(es, key@) == first_member(es.skip(i as int), key@),
                        self@ == JsonView::Object(es),
                    decreases members@.len() - i,
                {
                    let ghost rest = es.skip(i as int);
                    proof {
                        assert(rest[0] == es[i as int]);
                    }
                    if members[i].0 == name {
                        proof {
                            assert(rest[0].0 == key@);
                        }
                        return Some(&members[i].1);
                    }
                    proof {
                        assert(rest.drop_first() =~= es.skip(i + 1));
                    }
                    i += 1;
                }
                proof {
                    assert(es.skip(i as int).len() == 0);
                }
                None
            },
            _ => None,
        }
    }

    /// The text of a string, as `Value::as_str` of `serde_json` gives it;
    /// nothing for any other value.
    pub fn as_str(&self) -> (r: Option<&String>)
        ensures
            match r {
                Some(s) => json_text(self@) == Some(s@),
                None => json_text(self@) is None,
            },
    {
        match self {
            JsonValue::Str(s) => Some(s),
            _ => None,
        }
    }
}

/// The value `serde_json` reads from a text, if the text is JSON.
pub uninterp spec fn json_parse(text: Seq<char>) -> Option<JsonView>;

/// The members of the JSON object that a text holds, if it is an object
/// whose members are all strings, as `serde_json` reads it into a map of
/// strings.
pub uninterp spec fn json_string_map(text: Seq<char>) -> Option<Map<Seq<char>, Seq<char>>>;

/// The characters that bytes encode, if they are UTF-8.
pub uninterp spec fn utf8_decode(bytes: Seq<u8>) -> Option<Seq<char>>;

impl JsonValue {
    /// A `serde_json::Value` as a `JsonValue`, variant for variant.
    #[verifier::external_body]
    fn from_value(value: serde_json::Value) -> JsonValue {
        match value {
            serde_json::Value::Null => JsonValue::Null,
            serde_json::Value::Bool(b) => JsonValue::Bool(b),
            serde_json::Value::Number(n) => JsonValue::Number(n),
            serde_json::Value::String(s) => JsonValue::Str(s),
            serde_json::Value::Array(a) => JsonValue::Array(a.into_iter().map(JsonValue::from_value).collect()),
            serde_json::Value::Object(o) => JsonValue::Object(
                o.into_iter().map(|(k, v)| (k, JsonValue::from_value(v))).collect(),
            ),
        }
    }
}

/// `serde_json::from_str` into a `serde_json::Value`: the value a text
/// stands for, or the parser's error. Claimed: the outcome is a function of
/// the text alone (`json_parse`); what that function is, is not stated.
#[verifier::external_body]
pub(crate) fn parse_json(text: &str) -> (r: Result<JsonValue, serde_json::Error>)
    ensures
        r is Ok <==> json_parse(text@) is Some,
        r matches Ok(v) ==> json_parse(text@) == Some(v@),
{
    let value: serde_json::Value = serde_json::from_str(text)?;
    Ok(JsonValue::from_value(value))
}

/// Names differ from member to member.
pub open spec fn distinct_names(s: Seq<(String, String)>) -> bool {
    forall|i: int, j: int| 0 <= i < s.len() && 0 <= j < s.len() && i != j ==> #[trigger] s[i].0@ != #[trigger] s[j].0@
}

/// The members as a map from name to text.
pub open spec fn string_members(s: Seq<(String, String)>) -> Map<Seq<char>, Seq<char>> {
    Map::new(
        |k: Seq<char>| exists|i: int| 0 <= i < s.len() && #[trigger] s[i].0@ == k,
        |k: Seq<char>| s[choose|i: int| 0 <= i < s.len() && #[trigger] s[i].0@ == k].1@,
    )
}

/// `serde_json::from_str` into a `HashMap<String, String>`: the members of
/// the object a text holds, each name once, in no stated order; or the
/// parser's error. Claimed: the outcome is a function of the text alone
/// (`json_string_map`), and a map holds each key once.
#[verifier::external_body]
pub(crate) fn parse_string_map(text: &str) -> (r: Result<Vec<(String, String)>, serde_json::Error>)
    ensures
        r is Ok <==> json_string_map(text@) is Some,
        r matches Ok(v) ==> distinct_names(v@) && json_string_map(text@) == Some(string_members(v@)),
{
    let map: std::collections::HashMap<String, String> = serde_json::from_str(text)?;
    Ok(map.into_iter().collect())
}

/// The text of the member named `key`.
pub fn string_member<'a>(members: &'a Vec<(String, String)>, key: &str) -> (r: Option<&'a String>)
    requires
        distinct_names(members@),
    ensures
        match r {
            Some(v) => string_members(members@).dom().contains(key@) && string_members(members@)[key@] == v@,
            None => !string_members(members@).dom().contains(key@),
        },
{
    let name = key.to_owned();
    let mut i: usize = 0;
    while i < members.len()
        invariant
            i <= members@.len(),
            name@ == key@,
            distinct_names(members@),
            forall|t: int| 0 <= t < i ==> #[trigger] members@[t].0@ != key@,
        decreases members@.len() - i,
    {
        if members[i].0 == name {
            proof {
                let m = string_members(members@);
                assert(members@[i as int].0@ == key@);
                assert(m.dom().contains(key@));
                let j = choose|j: int| 0 <= j < members@.len() && #[trigger] members@[j].0@ == key@;
                assert(j == i);
            }
            return Some(&members[i].1);
        }
        i += 1;
    }
    None
}

/// `std::str::from_utf8`: the text that bytes encode, or the error when they
/// are not UTF-8. Claimed: the outcome is a function of the bytes alone
/// (`utf8_decode`); the decoding itself is not stated.
#[verifier::external_body]
pub(crate) fn utf8_text(bytes: &[u8]) -> (r: Result<&str, std::str::Utf8Error>)
    ensures
        r is Ok <==> utf8_decode(bytes@) is Some,
        r matches Ok(s) ==> utf8_decode(bytes@) == Some(s@),
{
    std::str::from_utf8(bytes)
}

} // verus!
