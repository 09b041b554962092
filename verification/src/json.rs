//! The documents of the dumps as trees of plain values.

use vstd::prelude::*;
use crate::text::{chars_of, chars_trim, opt_text, str_eq, text_of, trim};

verus! {

/// A JSON value. A number shows whether it is an unsigned integer and which;
/// the members of an object stand in the order in which the document is
/// walked.
#[derive(Debug)]
pub enum Json {
    Null,
    Bool(bool),
    Number(Option<u64>),
    Str(String),
    Array(Vec<Json>),
    Object(Vec<(String, Json)>),
}

/// `serde_json::Value`, the tree that `serde_json` reads a document into.
#[verifier::external_type_specification]
#[verifier::external_body]
pub struct ExValue(serde_json::Value);

/// The value that a text parses to as JSON, if it is JSON.
pub uninterp spec fn json_of_text(text: Seq<char>) -> Option<Json>;

/// `serde_json::from_str` at `serde_json::Value`: the value that the text
/// holds, none where the text is no JSON document. The outcome depends on
/// the text alone.
#[verifier::external_body]
pub(crate) fn json_from_text(text: &str) -> (r: Option<Json>)
    ensures
        r == json_of_text(text@),
{
    match serde_json::from_str::<serde_json::Value>(text) {
        Ok(v) => Some(json_from_value(&v)),
        Err(_) => None,
    }
}

/// Takes a `serde_json::Value` over, variant by variant: a number by
/// `Number::as_u64`, the members of an object in the order of
/// `Map::iter`.
#[verifier::external_body]
pub(crate) fn json_from_value(v: &serde_json::Value) -> (r: Json) {
    match v {
        serde_json::Value::Null => Json::Null,
        serde_json::Value::Bool(b) => Json::Bool(*b),
        serde_json::Value::Number(n) => Json::Number(n.as_u64()),
        serde_json::Value::String(s) => Json::Str(s.clone()),
        serde_json::Value::Array(a) => Json::Array(a.iter().map(json_from_value).collect()),
        serde_json::Value::Object(m) => Json::Object(
            m.iter().map(|(k, x)| (k.clone(), json_from_value(x))).collect(),
        ),
    }
}

/// Reads a JSON document.
pub fn parse_json(text: &str) -> (r: Option<Json>)
    ensures
        r == json_of_text(text@),
{
    json_from_text(text)
}

/// The value of the first member with the key among the members.
pub open spec fn member(entries: Seq<(String, Json)>, key: Seq<char>) -> Json
    decreases entries.len(),
{
    if entries.len() == 0 {
        Json::Null
    } else if entries[0].0@ == key {
        entries[0].1
    } else {
        member(entries.skip(1), key)
    }
}

/// The value of the first member with the key, if there is one.
pub open spec fn find_member_of(entries: Seq<(String, Json)>, key: Seq<char>) -> Option<Json>
    decreases entries.len(),
{
    if entries.len() == 0 {
        None
    } else if entries[0].0@ == key {
        Some(entries[0].1)
    } else {
        find_member_of(entries.skip(1), key)
    }
}

impl Json {
    /// The member of an object with the given key, if the value is an
    /// object and has one.
    pub open spec fn find(self, key: Seq<char>) -> Option<Json> {
        match self {
            Json::Object(entries) => find_member_of(entries@, key),
            _ => None,
        }
    }

    /// The member with the key, or the value itself where it has none.
    pub open spec fn inner(self, key: Seq<char>) -> Json {
        match self.find(key) {
            Some(x) => x,
            None => self,
        }
    }

    /// The member with the key, or the value itself where it has none.
    pub fn unwrap_member(&self, key: &str) -> (r: &Json)
        ensures
            *r == self.inner(key@),
    {
        match self {
            Json::Object(entries) => {
                match lookup(entries, key) {
                    Some(x) => x,
                    None => self,
                }
            },
            _ => self,
        }
    }

    /// The member of an object with the given key; null where the value is
    /// no object or has no such member.
    pub open spec fn at(self, key: Seq<char>) -> Json {
        match self {
            Json::Object(entries) => member(entries@, key),
            _ => Json::Null,
        }
    }

    /// The text of a string value.
    pub open spec fn text(self) -> Option<Seq<char>> {
        match self {
            Json::Str(s) => Some(s@),
            _ => None,
        }
    }

    /// The items that a value stands for where the source writes a single
    /// item as an object and several as an array: the items of an array,
    /// an object itself, nothing else.
    pub open spec fn items(self) -> Seq<Json> {
        match self {
            Json::Array(items) => items@,
            Json::Object(_) => seq![self],
            _ => Seq::empty(),
        }
    }

    /// The text of a string value, trimmed, unless it is empty or `null`.
    pub open spec fn filled_text(self) -> Option<Seq<char>> {
        match self.text() {
            Some(s) => if trim(s).len() == 0 || trim(s) == "null"@ {
                None
            } else {
                Some(trim(s))
            },
            None => None,
        }
    }

    /// The filled text of the value, or of its member `#text`.
    pub open spec fn filled_textish(self) -> Option<Seq<char>> {
        match self.filled_text() {
            Some(s) => Some(s),
            None => self.at("#text"@).filled_text(),
        }
    }

    pub fn get(&self, key: &str) -> (r: &Json)
        ensures
            *r == self.at(key@),
    {
        match self {
            Json::Object(entries) => find_member(entries, key),
            _ => null_ref(),
        }
    }

    pub fn as_str(&self) -> (r: Option<&String>)
        ensures
            match r {
                Some(s) => self.text() == Some(s@),
                None => self.text().is_none(),
            },
    {
        match self {
            Json::Str(s) => Some(s),
            _ => None,
        }
    }

    /// The text of a string value, as an owned string.
    pub fn string(&self) -> (r: Option<String>)
        ensures
            opt_text(r) == self.text(),
    {
        match self {
            Json::Str(s) => Some(s.clone()),
            _ => None,
        }
    }

    pub fn as_u64(&self) -> (r: Option<u64>)
        ensures
            r == match *self {
                Json::Number(n) => n,
                _ => None,
            },
    {
        match self {
            Json::Number(n) => *n,
            _ => None,
        }
    }

    pub fn is_object(&self) -> (r: bool)
        ensures
            r == (*self is Object),
    {
        match self {
            Json::Object(_) => true,
            _ => false,
        }
    }

    pub fn is_null(&self) -> (r: bool)
        ensures
            r == (*self is Null),
    {
        match self {
            Json::Null => true,
            _ => false,
        }
    }

    /// The items of the value, as references into it.
    pub fn one_or_many(&self) -> (r: Vec<&Json>)
        ensures
            r@.len() == self.items().len(),
            forall|i: int| 0 <= i < r@.len() ==> *(#[trigger] r@[i]) == self.items()[i],
    {
        let mut r: Vec<&Json> = Vec::new();
        match self {
            Json::Array(items) => {
                let mut i: usize = 0;
                while i < items.len()
                    invariant
                        i <= items@.len(),
                        r@.len() == i,
                        forall|k: int| 0 <= k < i ==> *(#[trigger] r@[k]) == items@[k],
                    decreases items@.len() - i,
                {
                    r.push(&items[i]);
                    i += 1;
                }
            },
            Json::Object(_) => {
                r.push(self);
            },
            _ => {},
        }
        r
    }

    pub fn opt_non_empty_str(&self) -> (r: Option<String>)
        ensures
            opt_text(r) == self.filled_text(),
    {
        match self {
            Json::Str(s) => {
                let t = chars_trim(&chars_of(s.as_str()));
                if t.len() == 0 || crate::text::chars_eq(&t, &chars_of("null")) {
                    None
                } else {
                    Some(text_of(&t))
                }
            },
            _ => None,
        }
    }

    pub fn opt_non_empty_textish(&self) -> (r: Option<String>)
        ensures
            opt_text(r) == self.filled_textish(),
    {
        match self.opt_non_empty_str() {
            Some(s) => Some(s),
            None => self.get("#text").opt_non_empty_str(),
        }
    }
}

fn find_member<'a>(entries: &'a Vec<(String, Json)>, key: &str) -> (r: &'a Json)
    ensures
        *r == member(entries@, key@),
{
    let mut i: usize = 0;
    assert(entries@.skip(0) == entries@);
    while i < entries.len()
        invariant
            i <= entries@.len(),
            member(entries@, key@) == member(entries@.skip(i as int), key@),
        decreases entries@.len() - i,
    {
        assert(entries@.skip(i as int)[0] == entries@[i as int]);
        if str_eq(entries[i].0.as_str(), key) {
            return &entries[i].1;
        }
        assert(entries@.skip(i as int).skip(1) == entries@.skip(i + 1));
        i += 1;
    }
    null_ref()
}

fn lookup<'a>(entries: &'a Vec<(String, Json)>, key: &str) -> (r: Option<&'a Json>)
    ensures
        match r {
            Some(x) => find_member_of(entries@, key@) == Some(*x),
            None => find_member_of(entries@, key@).is_none(),
        },
{
    let mut i: usize = 0;
    assert(entries@.skip(0) == entries@);
    while i < entries.len()
        invariant
            i <= entries@.len(),
            find_member_of(entries@, key@) == find_member_of(entries@.skip(i as int), key@),
        decreases entries@.len() - i,
    {
        assert(entries@.skip(i as int)[0] == entries@[i as int]);
        if str_eq(entries[i].0.as_str(), key) {
            return Some(&entries[i].1);
        }
        assert(entries@.skip(i as int).skip(1) == entries@.skip(i + 1));
        i += 1;
    }
    None
}

/// A null value to refer to.
fn null_ref() -> (r: &'static Json)
    ensures
        *r == Json::Null,
{
    &Json::Null
}

/// The items of a value: those of an array, an object itself, nothing
/// else.
pub fn one_or_many(v: &Json) -> (r: Vec<&Json>)
    ensures
        r@.len() == v.items().len(),
        forall|i: int| 0 <= i < r@.len() ==> *(#[trigger] r@[i]) == v.items()[i],
{
    v.one_or_many()
}

} // verus!
