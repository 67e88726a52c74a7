//! JSON documents as values of the library.

use vstd::prelude::*;
use vstd::string::*;

use crate::text::same;

verus! {

/// `serde_json::Value`: a parsed document, opaque here.
#[verifier::external_type_specification]
#[verifier::external_body]
pub struct ExValue(serde_json::Value);

/// A JSON document. A number that is no 64-bit integer is `Real`. No two members of an object
/// have the same name.
#[derive(Debug)]
pub enum Json {
    Null,
    Bool(bool),
    Unsigned(u64),
    Negative(i64),
    Real,
    Text(String),
    List(Vec<Json>),
    Object(Vec<(String, Json)>),
}

/// The document that some bytes are, or what is wrong with them.
pub uninterp spec fn json_document(bytes: Seq<u8>) -> Result<Json, Seq<char>>;

/// Part of `parse_json`: turns the parsed value into a value of the library, variant by
/// variant.
#[verifier::external_body]
fn json_of(v: serde_json::Value) -> Json {
    match v {
        serde_json::Value::Null => Json::Null,
        serde_json::Value::Bool(b) => Json::Bool(b),
        serde_json::Value::Number(n) => match (n.as_u64(), n.as_i64()) {
            (Some(u), _) => Json::Unsigned(u),
            (None, Some(i)) => Json::Negative(i),
            (None, None) => Json::Real,
        },
        serde_json::Value::String(s) => Json::Text(s),
        serde_json::Value::Array(a) => Json::List(a.into_iter().map(json_of).collect()),
        serde_json::Value::Object(o) => {
            Json::Object(o.into_iter().map(|(k, v)| (k, json_of(v))).collect())
        },
    }
}

/// `serde_json::from_slice` to a `serde_json::Value`, and the text of its error. The result
/// depends on the bytes alone; which bytes are a document, and which, is not stated.
#[verifier::external_body]
pub(crate) fn parse_json(bytes: &[u8]) -> (r: Result<Json, String>)
    ensures
        match r {
            Ok(j) => json_document(bytes@) == Ok::<Json, Seq<char>>(j),
            Err(e) => json_document(bytes@) == Err::<Json, Seq<char>>(e@),
        },
{
    serde_json::from_slice(bytes).map(json_of).map_err(|e: serde_json::Error| e.to_string())
}

/// The member of that name, from the `k`-th on.
pub open spec fn member_from(o: Seq<(String, Json)>, name: Seq<char>, k: int) -> Option<Json>
    decreases o.len() - k,
{
    if k < 0 || k >= o.len() {
        None
    } else if o[k].0@ == name {
        Some(o[k].1)
    } else {
        member_from(o, name, k + 1)
    }
}

/// The member of that name, where the document is an object that has one.
pub open spec fn member(j: Json, name: Seq<char>) -> Option<Json> {
    match j {
        Json::Object(o) => member_from(o@, name, 0),
        _ => None,
    }
}

/// The text that the document is.
pub open spec fn text_of(j: Json) -> Option<Seq<char>> {
    match j {
        Json::Text(s) => Some(s@),
        _ => None,
    }
}

/// The text of the member of that name.
pub open spec fn text_member(j: Json, name: Seq<char>) -> Option<Seq<char>> {
    match member(j, name) {
        Some(m) => text_of(m),
        None => None,
    }
}

impl Json {
    /// The member of that name.
    pub fn get(&self, name: &str) -> (r: Option<&Json>)
        ensures
            match r {
                Some(m) => member(*self, name@) == Some(*m),
                None => member(*self, name@) is None,
            },
    {
        match self {
            Json::Object(o) => {
                let mut k: usize = 0;
                while k < o.len()
                    invariant
                        k <= o@.len(),
                        *self == Json::Object(*o),
                        member(*self, name@) == member_from(o@, name@, k as int),
                    decreases o@.len() - k,
                {
                    if same(o[k].0.as_str(), name) {
                        return Some(&o[k].1);
                    }
                    k = k + 1;
                }
                None
            },
            _ => None,
        }
    }

    /// The text that the document is.
    pub fn as_text(&self) -> (r: Option<&String>)
        ensures
            match r {
                Some(s) => text_of(*self) == Some(s@),
                None => text_of(*self) is None,
            },
    {
        match self {
            Json::Text(s) => Some(s),
            _ => None,
        }
    }

    /// The text of the member of that name.
    pub fn get_text(&self, name: &str) -> (r: Option<&String>)
        ensures
            match r {
                Some(s) => text_member(*self, name@) == Some(s@),
                None => text_member(*self, name@) is None,
            },
    {
        match self.get(name) {
            Some(m) => m.as_text(),
            None => None,
        }
    }
}

/// A member is read by its name, the first of that name; what has none of that name, and what is
/// no object, has no such member.
pub proof fn law_members_are_read_by_name(o: Seq<(String, Json)>, name: Seq<char>, from: int, k: int)
    requires
        0 <= from <= k <= o.len(),
        k < o.len() ==> o[k].0@ == name,
        forall|i: int| from <= i < k ==> (#[trigger] o[i]).0@ != name,
    ensures
        member_from(o, name, from) == if k < o.len() {
            Some(o[k].1)
        } else {
            None
        },
    decreases k - from,
{
    if from < k {
        law_members_are_read_by_name(o, name, from + 1, k);
    }
}

} // verus!
