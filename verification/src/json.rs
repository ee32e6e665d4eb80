//! JSON documents as plain values: what `serde_json` reads from a text, kept
//! as the kind of each value and its compact rendering.

use vstd::prelude::*;

use serde_json::Value;

use crate::text::str_eq;

verus! {

/// The kind of a JSON value; a string keeps its contents.
#[derive(Debug)]
pub enum JsonKind {
    Null,
    Bool(bool),
    Number,
    Str(String),
    Array,
    Object,
}

/// A JSON value: its kind and its compact rendering (`Value::to_string`).
#[derive(Debug)]
pub struct JsonValue {
    pub kind: JsonKind,
    pub text: String,
}

/// A parsed JSON document: the top value and, when it is an object, its
/// members in the order `serde_json` keeps them.
#[derive(Debug)]
pub struct JsonDoc {
    pub value: JsonValue,
    pub fields: Vec<(String, JsonValue)>,
}

pub enum JsonKindV {
    Null,
    Bool(bool),
    Number,
    Str(Seq<char>),
    Array,
    Object,
}

pub struct JsonValueV {
    pub kind: JsonKindV,
    pub text: Seq<char>,
}

pub struct JsonDocV {
    pub value: JsonValueV,
    pub fields: Seq<(Seq<char>, JsonValueV)>,
}

impl JsonKind {
    pub open spec fn view(&self) -> JsonKindV {
        match self {
            JsonKind::Null => JsonKindV::Null,
            JsonKind::Bool(b) => JsonKindV::Bool(*b),
            JsonKind::Number => JsonKindV::Number,
            JsonKind::Str(s) => JsonKindV::Str(s@),
            JsonKind::Array => JsonKindV::Array,
            JsonKind::Object => JsonKindV::Object,
        }
    }
}

impl JsonValue {
    pub open spec fn view(&self) -> JsonValueV {
        JsonValueV { kind: self.kind.view(), text: self.text@ }
    }
}

pub open spec fn field_view(f: (String, JsonValue)) -> (Seq<char>, JsonValueV) {
    (f.0@, f.1.view())
}

impl JsonDoc {
    pub open spec fn view(&self) -> JsonDocV {
        JsonDocV { value: self.value.view(), fields: self.fields@.map_values(|f| field_view(f)) }
    }
}

/// What `serde_json` makes of a text: the document, or its error message.
pub uninterp spec fn json_parse_of(text: Seq<char>) -> Result<JsonDocV, Seq<char>>;

/// `serde_json::from_str::<Value>`, each value then taken as its variant (one
/// arm each) and its `Value::to_string` rendering, an object's members in
/// `Map::iter` order: the document, or the parser's error message. The result
/// is named, a function of the text alone; stated besides: only an object has
/// members.
#[verifier::external_body]
pub(crate) fn parse_json(text: &str) -> (r: Result<JsonDoc, String>)
    ensures
        match r {
            Ok(d) => json_parse_of(text@) == Ok::<JsonDocV, Seq<char>>(d.view()),
            Err(m) => json_parse_of(text@) == Err::<JsonDocV, Seq<char>>(m@),
        },
        r matches Ok(d) ==> (d.value.kind !is Object ==> d.fields@.len() == 0),
{
    let conv = |x: &Value| JsonValue {
        kind: match x {
            Value::Null => JsonKind::Null,
            Value::Bool(b) => JsonKind::Bool(*b),
            Value::Number(_) => JsonKind::Number,
            Value::String(s) => JsonKind::Str(s.clone()),
            Value::Array(_) => JsonKind::Array,
            Value::Object(_) => JsonKind::Object,
        },
        text: x.to_string(),
    };
    serde_json::from_str::<Value>(text).map_err(|e| e.to_string()).map(|v| JsonDoc {
        fields: v.as_object().map_or(Vec::new(), |m| m.iter().map(|(k, x)| (k.clone(), conv(x))).collect()),
        value: conv(&v),
    })
}

/// A copy of a JSON value.
pub fn copy_json_value(v: &JsonValue) -> (r: JsonValue)
    ensures
        r.view() == v.view(),
{
    let kind = match &v.kind {
        JsonKind::Null => JsonKind::Null,
        JsonKind::Bool(b) => JsonKind::Bool(*b),
        JsonKind::Number => JsonKind::Number,
        JsonKind::Str(s) => JsonKind::Str(crate::text::copy_str(s.as_str())),
        JsonKind::Array => JsonKind::Array,
        JsonKind::Object => JsonKind::Object,
    };
    JsonValue { kind, text: crate::text::copy_str(v.text.as_str()) }
}

/// Index of the first member named `key`, if any.
pub open spec fn field_index(fields: Seq<(Seq<char>, JsonValueV)>, key: Seq<char>) -> Option<int>
    decreases fields.len(),
{
    if fields.len() == 0 {
        None
    } else if fields[0].0 == key {
        Some(0)
    } else {
        match field_index(fields.drop_first(), key) {
            Some(i) => Some(i + 1),
            None => None,
        }
    }
}

pub proof fn lemma_field_index(fields: Seq<(Seq<char>, JsonValueV)>, key: Seq<char>)
    ensures
        field_index(fields, key) matches Some(i) ==> 0 <= i < fields.len() && fields[i].0 == key
            && forall|j: int| 0 <= j < i ==> fields[j].0 != key,
        field_index(fields, key) is None ==> forall|j: int|
            0 <= j < fields.len() ==> fields[j].0 != key,
    decreases fields.len(),
{
    if fields.len() > 0 && fields[0].0 != key {
        lemma_field_index(fields.drop_first(), key);
        assert forall|j: int| 1 <= j < fields.len() implies fields[j] == fields.drop_first()[j
            - 1] by {}
    }
}

/// The value of the first member named `key`.
pub fn find_field(doc: &JsonDoc, key: &str) -> (r: Option<JsonValue>)
    ensures
        match field_index(doc.view().fields, key@) {
            Some(i) => r matches Some(v) && v.view() == doc.view().fields[i].1,
            None => r is None,
        },
{
    let ghost fs = doc.view().fields;
    proof {
        lemma_field_index(fs, key@);
    }
    let mut i: usize = 0;
    while i < doc.fields.len()
        invariant
            i <= doc.fields.len(),
            fs == doc.view().fields,
            fs.len() == doc.fields.len(),
            forall|j: int| 0 <= j < i ==> fs[j].0 != key@,
        decreases doc.fields.len() - i,
    {
        assert(fs[i as int] == field_view(doc.fields@[i as int]));
        if str_eq(doc.fields[i].0.as_str(), key) {
            assert(fs[i as int].0 == key@);
            proof {
                lemma_field_index(fs, key@);
            }
            assert(field_index(fs, key@) is Some);
            assert(field_index(fs, key@)->0 == i);
            return Some(copy_json_value(&doc.fields[i].1));
        }
        i = i + 1;
    }
    None
}

} // verus!
