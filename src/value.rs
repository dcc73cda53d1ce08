use vstd::prelude::*;
use vstd::string::*;

verus! {

/// A document value: scalars, sequences and insertion-ordered mappings.
/// A float is held in its textual form.
#[derive(Debug, PartialEq)]
pub enum Value {
    Null,
    Boolean(bool),
    Integer(i64),
    Float(String),
    String(String),
    Sequence(Vec<Value>),
    Mapping(Vec<(Value, Value)>),
}

/// The entries of a mapping; any other value has none.
pub open spec fn entries_of(v: Value) -> Seq<(Value, Value)> {
    match v {
        Value::Mapping(h) => h@,
        _ => Seq::empty(),
    }
}

/// `v` is the string `s`.
pub open spec fn is_text(v: Value, s: Seq<char>) -> bool {
    v is String && v->String_0@ == s
}

/// The characters of a string value; empty for any other value.
pub open spec fn text_of(v: Value) -> Seq<char> {
    match v {
        Value::String(s) => s@,
        _ => Seq::empty(),
    }
}

/// A path key: a string that starts with `/`.
pub open spec fn is_path_key(k: Value) -> bool {
    k is String && k->String_0@.len() > 0 && k->String_0@[0] == '/'
}

pub open spec fn url_name() -> Seq<char> {
    "url"@
}

pub open spec fn children_name() -> Seq<char> {
    "child_resources"@
}

pub fn is_path_key_exec(k: &Value) -> (r: bool)
    ensures
        r == is_path_key(*k),
{
    match k {
        Value::String(s) => {
            let t = s.as_str();
            if t.is_empty() {
                false
            } else {
                t.get_char(0) == '/'
            }
        },
        _ => false,
    }
}

pub fn is_named(k: &Value, name: &str) -> (r: bool)
    ensures
        r == is_text(*k, name@),
{
    match k {
        Value::String(s) => {
            let n = String::from_str(name);
            s.eq(&n)
        },
        _ => false,
    }
}

} // verus!
