//! JSON values, as far as this library reads them.
use vstd::prelude::*;

use crate::number::Real;

verus! {

/// `serde_json::Value`, a JSON value of any kind.
#[verifier::external_type_specification]
#[verifier::external_body]
pub struct ExValue(serde_json::Value);

/// What a JSON value holds. A number is known by the integer of sixty-four bits
/// and by the real number that it is, as far as it is either.
pub enum Json {
    Null,
    Bool(bool),
    Number(Option<i64>, Option<Real>),
    Text(Seq<char>),
    List(Seq<Json>),
    Object(Map<Seq<char>, Json>),
}

/// What a JSON value holds.
pub uninterp spec fn tree(v: serde_json::Value) -> Json;

/// What a text holds that is read as JSON, or what is said of one that is none.
pub uninterp spec fn parsed(body: Seq<char>) -> Result<Json, Seq<char>>;

impl Json {
    /// The member of an object.
    pub open spec fn field(self, key: Seq<char>) -> Option<Json> {
        match self {
            Json::Object(m) => if m.contains_key(key) {
                Some(m[key])
            } else {
                None
            },
            _ => None,
        }
    }

    /// The items of a list.
    pub open spec fn items(self) -> Option<Seq<Json>> {
        match self {
            Json::List(s) => Some(s),
            _ => None,
        }
    }

    /// The characters of a text.
    pub open spec fn chars(self) -> Option<Seq<char>> {
        match self {
            Json::Text(s) => Some(s),
            _ => None,
        }
    }

    /// The integer that a number is.
    pub open spec fn whole(self) -> Option<i64> {
        match self {
            Json::Number(n, _) => n,
            _ => None,
        }
    }

    /// The real number that a number is.
    pub open spec fn number(self) -> Option<Real> {
        match self {
            Json::Number(_, x) => x,
            _ => None,
        }
    }

    /// The text of a member of an object.
    pub open spec fn text_field(self, key: Seq<char>) -> Option<Seq<char>> {
        match self.field(key) {
            Some(v) => v.chars(),
            None => None,
        }
    }

    /// The real number of a member of an object.
    pub open spec fn number_field(self, key: Seq<char>) -> Option<Real> {
        match self.field(key) {
            Some(v) => v.number(),
            None => None,
        }
    }

    /// The items of a member of an object.
    pub open spec fn list_field(self, key: Seq<char>) -> Option<Seq<Json>> {
        match self.field(key) {
            Some(v) => v.items(),
            None => None,
        }
    }
}

/// What some JSON values hold.
pub open spec fn trees(list: Seq<serde_json::Value>) -> Seq<Json> {
    Seq::new(list.len(), |i: int| tree(list[i]))
}

/// `serde_json::from_str` to a value, with the text of its error. Only that the
/// result is one of the text alone is claimed.
#[verifier::external_body]
pub(crate) fn parse_json(body: &str) -> (r: Result<serde_json::Value, String>)
    ensures
        match r {
            Ok(v) => parsed(body@) == Ok::<Json, Seq<char>>(tree(v)),
            Err(e) => parsed(body@) == Err::<Json, Seq<char>>(e@),
        },
{
    serde_json::from_str(body).map_err(|e| e.to_string())
}

/// `Value::get` with a key: the member of an object.
#[verifier::external_body]
pub(crate) fn json_get<'a>(v: &'a serde_json::Value, key: &str) -> (r: Option<
    &'a serde_json::Value,
>)
    ensures
        match r {
            Some(m) => tree(*v).field(key@) == Some(tree(*m)),
            None => tree(*v).field(key@) is None,
        },
{
    v.get(key)
}

/// `Value::as_array`: the items of a list.
#[verifier::external_body]
pub(crate) fn json_items<'a>(v: &'a serde_json::Value) -> (r: Option<&'a Vec<serde_json::Value>>)
    ensures
        match r {
            Some(list) => tree(*v).items() == Some(trees(list@)),
            None => tree(*v).items() is None,
        },
{
    v.as_array()
}

/// `Value::as_str`: the characters of a text.
#[verifier::external_body]
pub(crate) fn json_text<'a>(v: &'a serde_json::Value) -> (r: Option<&'a str>)
    ensures
        match r {
            Some(s) => tree(*v).chars() == Some(s@),
            None => tree(*v).chars() is None,
        },
{
    v.as_str()
}

/// `Value::as_i64`: the integer that a number is.
#[verifier::external_body]
pub(crate) fn json_whole(v: &serde_json::Value) -> (r: Option<i64>)
    ensures
        r == tree(*v).whole(),
{
    v.as_i64()
}

/// `Value::as_f64`: the real number that a number is, by its bit pattern.
#[verifier::external_body]
pub(crate) fn json_number(v: &serde_json::Value) -> (r: Option<Real>)
    ensures
        r == tree(*v).number(),
{
    v.as_f64().map(|x| Real { bits: x.to_bits() })
}

/// The text of a member of an object.
pub fn text_field(v: &serde_json::Value, key: &str) -> (r: Option<String>)
    ensures
        match r {
            Some(s) => tree(*v).text_field(key@) == Some(s@),
            None => tree(*v).text_field(key@) is None,
        },
{
    match json_get(v, key) {
        Some(m) => match json_text(m) {
            Some(s) => Some(s.to_owned()),
            None => None,
        },
        None => None,
    }
}

/// The real number of a member of an object.
pub fn number_field(v: &serde_json::Value, key: &str) -> (r: Option<Real>)
    ensures
        r == tree(*v).number_field(key@),
{
    match json_get(v, key) {
        Some(m) => json_number(m),
        None => None,
    }
}

/// The items of a member of an object.
pub fn list_field<'a>(v: &'a serde_json::Value, key: &str) -> (r: Option<
    &'a Vec<serde_json::Value>,
>)
    ensures
        match r {
            Some(list) => tree(*v).list_field(key@) == Some(trees(list@)),
            None => tree(*v).list_field(key@) is None,
        },
{
    match json_get(v, key) {
        Some(m) => json_items(m),
        None => None,
    }
}

} // verus!
