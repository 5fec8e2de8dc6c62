//! JSON documents.

use crate::scalar::Scalar;
use serde_json::Value;
use vstd::prelude::*;

verus! {

/// A JSON document.
#[verifier::external_type_specification]
#[verifier::external_body]
pub struct ExValue(Value);

/// What a JSON document holds. Members of an object stand in the order of their names, and no
/// name stands twice.
pub enum Json {
    Null,
    Bool(bool),
    /// The binary64 number that serde_json gives, and the number itself where it is an integer of
    /// 64 bits.
    Number { number: Scalar, unsigned: Option<u64>, signed: Option<i64> },
    Text(Seq<char>),
    List(Seq<Json>),
    Object(Seq<(Seq<char>, Json)>),
}

/// What a document holds.
pub uninterp spec fn json_contents(v: Value) -> Json;

/// What a text holds as a JSON document, where it is one.
pub uninterp spec fn json_of_text(text: Seq<char>) -> Option<Json>;

/// What bytes hold as a JSON document, where they are one.
pub uninterp spec fn json_of_bytes(bytes: Seq<u8>) -> Option<Json>;

/// The first member of a name.
pub open spec fn find_member(members: Seq<(Seq<char>, Json)>, name: Seq<char>) -> Option<Json>
    decreases members.len(),
{
    if members.len() == 0 {
        None
    } else if members[0].0 == name {
        Some(members[0].1)
    } else {
        find_member(members.drop_first(), name)
    }
}

impl Json {
    /// The member of a name, of an object.
    pub open spec fn member(self, name: Seq<char>) -> Option<Json> {
        match self {
            Json::Object(members) => find_member(members, name),
            _ => None,
        }
    }

    /// The text, of a text.
    pub open spec fn text(self) -> Option<Seq<char>> {
        match self {
            Json::Text(s) => Some(s),
            _ => None,
        }
    }

    /// The number, of a number.
    pub open spec fn number(self) -> Option<Scalar> {
        match self {
            Json::Number { number, .. } => Some(number),
            _ => None,
        }
    }

    /// The number, of an integer without a sign that 64 bits hold.
    pub open spec fn unsigned(self) -> Option<u64> {
        match self {
            Json::Number { unsigned, .. } => unsigned,
            _ => None,
        }
    }

    /// The number, of an integer with a sign that 64 bits hold.
    pub open spec fn signed(self) -> Option<i64> {
        match self {
            Json::Number { signed, .. } => signed,
            _ => None,
        }
    }

    /// The items, of a list.
    pub open spec fn items(self) -> Option<Seq<Json>> {
        match self {
            Json::List(items) => Some(items),
            _ => None,
        }
    }

    /// The members, of an object.
    pub open spec fn members(self) -> Option<Seq<(Seq<char>, Json)>> {
        match self {
            Json::Object(members) => Some(members),
            _ => None,
        }
    }
}

/// The member of a name of what may be there.
pub open spec fn member_of(j: Option<Json>, name: Seq<char>) -> Option<Json> {
    match j {
        Some(j) => j.member(name),
        None => None,
    }
}

/// The text of what may be there.
pub open spec fn text_at(j: Option<Json>) -> Option<Seq<char>> {
    match j {
        Some(j) => j.text(),
        None => None,
    }
}

/// The number of what may be there.
pub open spec fn number_at(j: Option<Json>) -> Option<Scalar> {
    match j {
        Some(j) => j.number(),
        None => None,
    }
}

/// What stands where a document may be.
pub open spec fn contents_at(v: Option<&Value>) -> Option<Json> {
    match v {
        Some(v) => Some(json_contents(*v)),
        None => None,
    }
}

/// What is held by a list of documents.
pub open spec fn contents_of(list: Seq<Value>) -> Seq<Json> {
    list.map_values(|v: Value| json_contents(v))
}

/// `serde_json::from_str`: the document that a text is; what it holds follows from the text.
#[verifier::external_body]
pub(crate) fn parse_text(text: &str) -> (r: Option<Value>)
    ensures
        r is Some <==> json_of_text(text@) is Some,
        r matches Some(v) ==> json_of_text(text@) == Some(json_contents(v)),
{
    serde_json::from_str(text).ok()
}

/// `serde_json::from_slice`: the document that bytes are; what it holds follows from the
/// bytes.
#[verifier::external_body]
pub(crate) fn parse_bytes(bytes: &[u8]) -> (r: Option<Value>)
    ensures
        r is Some <==> json_of_bytes(bytes@) is Some,
        r matches Some(v) ==> json_of_bytes(bytes@) == Some(json_contents(v)),
{
    serde_json::from_slice(bytes).ok()
}

/// `Value::get` with a name: the member of that name, of an object.
#[verifier::external_body]
pub(crate) fn member<'a>(v: &'a Value, name: &str) -> (r: Option<&'a Value>)
    ensures
        contents_at(r) == json_contents(*v).member(name@),
{
    v.get(name)
}

/// `Value::as_str`: the text, of a text.
#[verifier::external_body]
pub(crate) fn text(v: &Value) -> (r: Option<&str>)
    ensures
        r is Some <==> json_contents(*v).text() is Some,
        r matches Some(s) ==> json_contents(*v).text() == Some(s@),
{
    v.as_str()
}

/// `Value::as_f64`: the nearest binary64 number, of a number.
#[verifier::external_body]
pub(crate) fn number(v: &Value) -> (r: Option<Scalar>)
    ensures
        r == json_contents(*v).number(),
{
    v.as_f64().map(|x| Scalar::new(x.to_bits()))
}

/// `Value::as_u64`: the number, of an integer without a sign that 64 bits hold.
#[verifier::external_body]
pub(crate) fn unsigned(v: &Value) -> (r: Option<u64>)
    ensures
        r == json_contents(*v).unsigned(),
{
    v.as_u64()
}

/// `Value::as_i64`: the number, of an integer with a sign that 64 bits hold.
#[verifier::external_body]
pub(crate) fn signed(v: &Value) -> (r: Option<i64>)
    ensures
        r == json_contents(*v).signed(),
{
    v.as_i64()
}

/// `Value::as_array`: the items, of a list.
#[verifier::external_body]
pub(crate) fn items(v: &Value) -> (r: Option<&Vec<Value>>)
    ensures
        r is Some <==> json_contents(*v).items() is Some,
        r matches Some(list) ==> json_contents(*v).items() == Some(contents_of(list@)),
{
    v.as_array()
}

/// `Value::as_object` and `Map::iter`: the members, of an object, each with its name, in the
/// order of the names.
#[verifier::external_body]
pub(crate) fn members(v: &Value) -> (r: Option<Vec<(String, &Value)>>)
    ensures
        r is Some <==> json_contents(*v).members() is Some,
        r matches Some(list) ==> json_contents(*v).members() == Some(
            list@.map_values(|m: (String, &Value)| (m.0@, json_contents(*m.1))),
        ),
{
    v.as_object().map(|o| o.iter().map(|(name, x)| (name.clone(), x)).collect())
}

/// The text of what may be there.
pub(crate) fn text_in<'a>(v: Option<&'a Value>) -> (r: Option<&'a str>)
    ensures
        r is Some <==> text_at(contents_at(v)) is Some,
        r matches Some(s) ==> text_at(contents_at(v)) == Some(s@),
{
    match v {
        Some(v) => text(v),
        None => None,
    }
}

/// The number of what may be there.
pub(crate) fn number_in(v: Option<&Value>) -> (r: Option<Scalar>)
    ensures
        r == number_at(contents_at(v)),
{
    match v {
        Some(v) => number(v),
        None => None,
    }
}

/// A member that is found has the name that was asked for, and stands among the members; one is
/// found wherever a member has that name.
pub proof fn law_member_has_its_name(members: Seq<(Seq<char>, Json)>, name: Seq<char>)
    ensures
        find_member(members, name) matches Some(j) ==> members.contains((name, j)),
        find_member(members, name) is None ==> forall|i: int|
            0 <= i < members.len() ==> (#[trigger] members[i]).0 != name,
    decreases members.len(),
{
    if members.len() > 0 && members[0].0 != name {
        let rest = members.drop_first();
        law_member_has_its_name(rest, name);
        if let Some(j) = find_member(rest, name) {
            let i = choose|i: int| 0 <= i < rest.len() && rest[i] == (name, j);
            assert(members[i + 1] == (name, j));
        } else {
            assert forall|i: int| 0 <= i < members.len() implies (#[trigger] members[i]).0 != name by {
                if i > 0 {
                    assert(rest[i - 1] == members[i]);
                }
            }
        }
    } else if members.len() > 0 {
        assert(members[0] == (name, members[0].1));
    }
}

} // verus!
