//! JSON documents, and what is looked up in them.

use vstd::prelude::*;

use crate::ieee::Real;
use crate::text::str_same;

verus! {

// ---------------------------------------------------------------------------
// Documents
// ---------------------------------------------------------------------------

/// A number in a document.
pub struct JsonNumber {
    /// Its value, if it is whole and has at most 64 bits.
    pub whole: Option<i64>,
    /// The real number that it is read as.
    pub real: Option<Real>,
    /// How it is written.
    pub text: String,
}

/// A document.
pub enum Json {
    /// Nothing.
    Null,
    /// A truth value.
    Bool(bool),
    /// A number.
    Number(JsonNumber),
    /// A string.
    Text(String),
    /// A list.
    Array(Vec<Json>),
    /// Members with names.
    Object(Vec<(String, Json)>),
}

/// The first member with a name, from `from` on; nothing where there is none.
pub open spec fn member_from(members: Seq<(String, Json)>, key: Seq<char>, from: int) -> Json
    decreases members.len() - from,
{
    if from < 0 || from >= members.len() {
        Json::Null
    } else if members[from].0@ == key {
        members[from].1
    } else {
        member_from(members, key, from + 1)
    }
}

/// Whether a member with a name is among members.
pub open spec fn names_member(members: Seq<(String, Json)>, key: Seq<char>) -> bool {
    exists|i: int| 0 <= i < members.len() && (#[trigger] members[i]).0@ == key
}

/// Whether a document has a member with a name.
pub open spec fn has_member(j: Json, key: Seq<char>) -> bool {
    match j {
        Json::Object(members) => names_member(members@, key),
        _ => false,
    }
}

/// The member of a document with a name; nothing where there is none.
pub open spec fn member(j: Json, key: Seq<char>) -> Json {
    match j {
        Json::Object(members) => member_from(members@, key, 0),
        _ => Json::Null,
    }
}

/// An element of a document; nothing where there is none.
pub open spec fn element(j: Json, i: int) -> Json {
    match j {
        Json::Array(items) => if 0 <= i < items@.len() {
            items@[i]
        } else {
            Json::Null
        },
        _ => Json::Null,
    }
}

/// The text of a string.
pub open spec fn text_in(j: Json) -> Option<Seq<char>> {
    match j {
        Json::Text(s) => Some(s@),
        _ => None,
    }
}

/// The value of a whole number.
pub open spec fn whole_in(j: Json) -> Option<i64> {
    match j {
        Json::Number(n) => n.whole,
        _ => None,
    }
}

/// The real number that a number is read as.
pub open spec fn real_in(j: Json) -> Option<Real> {
    match j {
        Json::Number(n) => n.real,
        _ => None,
    }
}

/// The elements of a list.
pub open spec fn items_in(j: Json) -> Option<Seq<Json>> {
    match j {
        Json::Array(items) => Some(items@),
        _ => None,
    }
}

impl Json {
    /// The member with a name, if there is one.
    pub fn get(&self, key: &str) -> (r: Option<&Json>)
        ensures
            match r {
                Some(v) => has_member(*self, key@) && *v == member(*self, key@),
                None => !has_member(*self, key@) && member(*self, key@) == Json::Null,
            },
    {
        match self {
            Json::Object(members) => {
                let n: usize = members.len();
                let mut i: usize = 0;
                while i < n
                    invariant
                        0 <= i <= n,
                        n == members@.len(),
                        *self == Json::Object(*members),
                        member(*self, key@) == member_from(members@, key@, i as int),
                        forall|k: int| 0 <= k < i ==> (#[trigger] members@[k]).0@ != key@,
                    decreases n - i,
                {
                    if str_same(members[i].0.as_str(), key) {
                        return Some(&members[i].1);
                    }
                    i += 1;
                }
                None
            },
            _ => None,
        }
    }

    /// The element at a position, if there is one.
    pub fn at(&self, i: usize) -> (r: Option<&Json>)
        ensures
            match r {
                Some(v) => *v == element(*self, i as int),
                None => element(*self, i as int) == Json::Null,
            },
    {
        match self {
            Json::Array(items) => if i < items.len() {
                Some(&items[i])
            } else {
                None
            },
            _ => None,
        }
    }

    /// The text of a string.
    pub fn as_text(&self) -> (r: Option<&str>)
        ensures
            crate::item::str_view(r) == text_in(*self),
    {
        match self {
            Json::Text(s) => Some(s.as_str()),
            _ => None,
        }
    }

    /// The text of the member with a name.
    pub fn text_of(&self, key: &str) -> (r: Option<&str>)
        ensures
            crate::item::str_view(r) == text_in(member(*self, key@)),
    {
        match self.get(key) {
            Some(v) => v.as_text(),
            None => None,
        }
    }

    /// The value of the member with a name, if it is a whole number.
    pub fn whole_of(&self, key: &str) -> (r: Option<i64>)
        ensures
            r == whole_in(member(*self, key@)),
    {
        match self.get(key) {
            Some(Json::Number(n)) => n.whole,
            _ => None,
        }
    }

    /// The value of the member with a name, if it is a number.
    pub fn real_of(&self, key: &str) -> (r: Option<Real>)
        ensures
            r == real_in(member(*self, key@)),
    {
        match self.get(key) {
            Some(Json::Number(n)) => n.real,
            _ => None,
        }
    }

    /// The elements of the member with a name, if it is a list.
    pub fn items_of(&self, key: &str) -> (r: Option<&Vec<Json>>)
        ensures
            match r {
                Some(v) => items_in(member(*self, key@)) == Some(v@),
                None => items_in(member(*self, key@)) is None,
            },
    {
        match self.get(key) {
            Some(Json::Array(items)) => Some(items),
            _ => None,
        }
    }
}

// ---------------------------------------------------------------------------
// Reading and writing
// ---------------------------------------------------------------------------

/// A document as `serde_json` holds it.
#[verifier::external_type_specification]
#[verifier::external_body]
pub struct ExJsonValue(serde_json::Value);

/// Why a text is no document.
#[verifier::external_type_specification]
#[verifier::external_body]
pub struct ExJsonError(serde_json::Error);

/// The document that a `serde_json::Value` holds.
pub uninterp spec fn document(v: serde_json::Value) -> Json;

/// The document that `serde_json` reads from a text, if the text is one.
pub uninterp spec fn document_in(text: Seq<char>) -> Option<Json>;

/// `serde_json::from_str` into a `serde_json::Value`: whether it succeeds, and
/// which document comes out, depends on the text alone and is called
/// [`document_in`].
#[verifier::external_body]
pub(crate) fn value_from_text(text: &str) -> (r: Result<serde_json::Value, serde_json::Error>)
    ensures
        match r {
            Ok(v) => document_in(text@) == Some(document(v)),
            Err(_) => document_in(text@) is None,
        },
{
    serde_json::from_str(text)
}

/// The variants of `serde_json::Value` one for one, with the numbers as
/// `Number::as_i64`, `Number::as_f64` and its notation give them, and the
/// members of an object in the order of the map. What comes out is called
/// [`document`].
#[verifier::external_body]
pub(crate) fn json_of_value(v: &serde_json::Value) -> (r: Json)
    ensures
        r == document(*v),
{
    match v {
        serde_json::Value::Null => Json::Null,
        serde_json::Value::Bool(b) => Json::Bool(*b),
        serde_json::Value::Number(n) => Json::Number(JsonNumber {
            whole: n.as_i64(),
            real: n.as_f64().map(|x| Real { bits: x.to_bits() }),
            text: n.to_string(),
        }),
        serde_json::Value::String(s) => Json::Text(s.clone()),
        serde_json::Value::Array(a) => Json::Array(a.iter().map(json_of_value).collect()),
        serde_json::Value::Object(o) => {
            Json::Object(o.iter().map(|(k, x)| (k.clone(), json_of_value(x))).collect())
        }
    }
}

/// Reads a document; `None` where the text is none.
pub fn parse_json(text: &str) -> (r: Option<Json>)
    ensures
        r == document_in(text@),
{
    match value_from_text(text) {
        Ok(v) => Some(json_of_value(&v)),
        Err(_) => None,
    }
}

/// The compact notation of a document, as `serde_json` writes it.
pub uninterp spec fn notation(j: Json) -> Seq<char>;

/// `Value::to_string` of a member of an element, both looked up by indexing,
/// which gives null where there is none. The notation depends on the document
/// alone and is called [`notation`].
#[verifier::external_body]
pub(crate) fn member_notation(v: &serde_json::Value, i: usize, key: &str) -> (r: String)
    ensures
        r@ == notation(member(element(document(*v), i as int), key@)),
{
    v[i][key].to_string()
}

/// A string in JSON notation, as `serde_json` writes it.
pub uninterp spec fn quoted_string(s: Seq<char>) -> Seq<char>;

/// `serde_json::to_string` of a string: the string in quotation marks, escaped
/// as JSON needs it, called [`quoted_string`]. Writing into memory does not
/// fail.
#[verifier::external_body]
pub(crate) fn json_string(s: &str) -> (r: Option<String>)
    ensures
        r.deep_view() == Some(quoted_string(s@)),
{
    serde_json::to_string(s).ok()
}

// ---------------------------------------------------------------------------
// Laws
// ---------------------------------------------------------------------------

proof fn lemma_member_from(members: Seq<(String, Json)>, key: Seq<char>, from: int, i: int)
    requires
        0 <= from <= i < members.len(),
        members[i].0@ == key,
        forall|j: int| from <= j < i ==> (#[trigger] members[j]).0@ != key,
    ensures
        member_from(members, key, from) == members[i].1,
    decreases i - from,
{
    if from < i {
        assert(members[from].0@ != key);
        lemma_member_from(members, key, from + 1, i);
    }
}

/// The member with a name is the first one that has it, and what has no members, or none with
/// that name, has nothing there.
pub proof fn law_members_go_by_their_names(members: Vec<(String, Json)>, key: Seq<char>, i: int)
    requires
        0 <= i < members@.len(),
        members@[i].0@ == key,
        forall|j: int| 0 <= j < i ==> (#[trigger] members@[j]).0@ != key,
    ensures
        member(Json::Object(members), key) == members@[i].1,
        has_member(Json::Object(members), key),
        member(Json::Null, key) == Json::Null,
        !has_member(Json::Null, key),
{
    lemma_member_from(members@, key, 0, i);
}

/// The elements of a list go by their places, and there is nothing at any other place and in
/// what is no list.
pub proof fn law_elements_go_by_their_places(j: Json, i: int)
    ensures
        items_in(j) matches Some(items) ==> (if 0 <= i < items.len() {
            element(j, i) == items[i]
        } else {
            element(j, i) is Null
        }),
        items_in(j) is None ==> element(j, i) is Null,
{
}

} // verus!
