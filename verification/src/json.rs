//! JSON documents: the values that `serde_json` reads from a text, and the reading
//! of members, strings, numbers and lists out of them.
use vstd::prelude::*;

verus! {

/// `serde_json::Value`, carried through the one function that parses a text.
#[verifier::external_type_specification]
#[verifier::external_body]
pub struct ExSerdeJsonValue(serde_json::Value);

/// A JSON value. A number keeps its text (as `serde_json` writes the number back)
/// and its value as an unsigned 64-bit integer where it is one; an object keeps its
/// members in the order in which `serde_json` lists them. This crate builds
/// `serde_json` without its `preserve_order` feature, so that order is by name, and
/// a name that the text repeats keeps its last value.
#[derive(Debug)]
pub enum JsonValue {
    Null,
    Bool(bool),
    Number { as_u64: Option<u64>, text: String },
    String(String),
    Array(Vec<JsonValue>),
    Object(Vec<(String, JsonValue)>),
}

/// What `serde_json::from_str::<serde_json::Value>` reads from `text`: the value,
/// or `None` where it reports an error.
pub uninterp spec fn parsed_json(text: Seq<char>) -> Option<JsonValue>;

/// Parses `text` with `serde_json::from_str::<serde_json::Value>` and converts the
/// value it gives one for one. Trusted: the result is the one that `parsed_json`
/// names for this text.
#[verifier::external_body]
fn parse_json(text: &str) -> (r: Option<JsonValue>)
    ensures
        r == parsed_json(text@),
{
    match serde_json::from_str::<serde_json::Value>(text) {
        Ok(v) => Some(json_value_from(v)),
        Err(_) => None,
    }
}

/// Converts a `serde_json::Value` into a `JsonValue`, one variant for one, members
/// and elements in the order in which the value lists them. Used by `parse_json`
/// only; it claims nothing of its own.
#[verifier::external_body]
fn json_value_from(v: serde_json::Value) -> JsonValue {
    match v {
        serde_json::Value::Null => JsonValue::Null,
        serde_json::Value::Bool(b) => JsonValue::Bool(b),
        serde_json::Value::Number(n) => JsonValue::Number { as_u64: n.as_u64(), text: n.to_string() },
        serde_json::Value::String(s) => JsonValue::String(s),
        serde_json::Value::Array(a) => JsonValue::Array(a.into_iter().map(json_value_from).collect()),
        serde_json::Value::Object(o) => JsonValue::Object(o.into_iter().map(|(k, x)| (k, json_value_from(x))).collect()),
    }
}

/// The value that `serde_json` reads from `text`, or `None` where the text is not
/// JSON.
pub fn parse_document(text: &str) -> (r: Option<JsonValue>)
    ensures
        r == parsed_json(text@),
{
    parse_json(text)
}

/// Position `i` holds the first member of `members` called `key`.
pub open spec fn key_at(members: Seq<(String, JsonValue)>, key: Seq<char>, i: int) -> bool {
    &&& 0 <= i < members.len()
    &&& members[i].0@ == key
    &&& forall|j: int| 0 <= j < i ==> members[j].0@ != key
}

/// The value of the first member called `key`, if there is one.
pub open spec fn member_of(members: Seq<(String, JsonValue)>, key: Seq<char>) -> Option<JsonValue> {
    if exists|i: int| key_at(members, key, i) {
        Some(members[choose|i: int| key_at(members, key, i)].1)
    } else {
        None
    }
}

/// The members of `v` when it is an object.
pub open spec fn object_of(v: Option<JsonValue>) -> Option<Seq<(String, JsonValue)>> {
    match v {
        Some(JsonValue::Object(m)) => Some(m@),
        _ => None,
    }
}

/// The elements of `v` when it is an array.
pub open spec fn array_of(v: Option<JsonValue>) -> Option<Seq<JsonValue>> {
    match v {
        Some(JsonValue::Array(a)) => Some(a@),
        _ => None,
    }
}

/// The string that `v` is, if it is one.
pub open spec fn string_of(v: Option<JsonValue>) -> Option<String> {
    match v {
        Some(JsonValue::String(s)) => Some(s),
        _ => None,
    }
}

/// The text of the number that `v` is, if it is one.
pub open spec fn number_text_of(v: Option<JsonValue>) -> Option<String> {
    match v {
        Some(JsonValue::Number { text, .. }) => Some(text),
        _ => None,
    }
}

/// The value of `v` as an unsigned 64-bit integer, if it is a number that is one.
pub open spec fn u64_of(v: JsonValue) -> Option<u64> {
    match v {
        JsonValue::Number { as_u64, .. } => as_u64,
        _ => None,
    }
}

/// The texts of the numbers `items`, in order; `None` when one of them is not a
/// number.
pub open spec fn numbers_of(items: Seq<JsonValue>) -> Option<Seq<String>>
    decreases items.len(),
{
    if items.len() == 0 {
        Some(Seq::empty())
    } else {
        match (numbers_of(items.drop_last()), items.last()) {
            (Some(r), JsonValue::Number { text, .. }) => Some(r.push(text)),
            _ => None,
        }
    }
}

/// For each of `items` that is an array, the texts of its numbers, in order; `None`
/// when such an array holds something other than a number.
pub open spec fn number_lists_of(items: Seq<JsonValue>) -> Option<Seq<Seq<String>>>
    decreases items.len(),
{
    if items.len() == 0 {
        Some(Seq::empty())
    } else {
        match items.last() {
            JsonValue::Array(a) => match (number_lists_of(items.drop_last()), numbers_of(a@)) {
                (Some(r), Some(n)) => Some(r.push(n)),
                _ => None,
            },
            _ => number_lists_of(items.drop_last()),
        }
    }
}

proof fn lemma_key_at_unique(members: Seq<(String, JsonValue)>, key: Seq<char>, i: int, j: int)
    requires
        key_at(members, key, i),
        key_at(members, key, j),
    ensures
        i == j,
{
}

/// The value of the first member of `members` called `key`.
pub fn member<'a>(members: &'a Vec<(String, JsonValue)>, key: &str) -> (r: Option<&'a JsonValue>)
    ensures
        match r {
            Some(v) => member_of(members@, key@) == Some(*v),
            None => member_of(members@, key@) is None,
        },
{
    let target = key.to_owned();
    let mut i: usize = 0;
    while i < members.len()
        invariant
            i <= members.len(),
            target@ == key@,
            forall|j: int| 0 <= j < i ==> members@[j].0@ != key@,
        decreases members.len() - i,
    {
        if members[i].0 == target {
            proof {
                assert(key_at(members@, key@, i as int));
                let c = choose|c: int| key_at(members@, key@, c);
                lemma_key_at_unique(members@, key@, i as int, c);
            }
            return Some(&members[i].1);
        }
        i = i + 1;
    }
    None
}

/// The string that the member called `key` holds, if it is a string.
pub fn string_member(members: &Vec<(String, JsonValue)>, key: &str) -> (r: Option<String>)
    ensures
        r == string_of(member_of(members@, key@)),
{
    match member(members, key) {
        Some(JsonValue::String(s)) => Some(s.clone()),
        _ => None,
    }
}

/// The text of the number that the member called `key` holds, if it is a number.
pub fn number_member(members: &Vec<(String, JsonValue)>, key: &str) -> (r: Option<String>)
    ensures
        r == number_text_of(member_of(members@, key@)),
{
    match member(members, key) {
        Some(JsonValue::Number { text, .. }) => Some(text.clone()),
        _ => None,
    }
}

proof fn lemma_numbers_fail_extends(items: Seq<JsonValue>, k: int)
    requires
        0 <= k <= items.len(),
        numbers_of(items.subrange(0, k)) is None,
    ensures
        numbers_of(items) is None,
    decreases items.len() - k,
{
    if k < items.len() {
        assert(items.subrange(0, k + 1).drop_last() =~= items.subrange(0, k));
        lemma_numbers_fail_extends(items, k + 1);
    } else {
        assert(items.subrange(0, k) =~= items);
    }
}

proof fn lemma_lists_fail_extends(items: Seq<JsonValue>, k: int)
    requires
        0 <= k <= items.len(),
        number_lists_of(items.subrange(0, k)) is None,
    ensures
        number_lists_of(items) is None,
    decreases items.len() - k,
{
    if k < items.len() {
        assert(items.subrange(0, k + 1).drop_last() =~= items.subrange(0, k));
        lemma_lists_fail_extends(items, k + 1);
    } else {
        assert(items.subrange(0, k) =~= items);
    }
}

/// The texts of the numbers `items`, in order; `None` when one of them is not a
/// number.
pub fn numbers(items: &Vec<JsonValue>) -> (r: Option<Vec<String>>)
    ensures
        match r {
            Some(v) => numbers_of(items@) == Some(v@),
            None => numbers_of(items@) is None,
        },
{
    let mut out: Vec<String> = Vec::new();
    let mut i: usize = 0;
    while i < items.len()
        invariant
            i <= items.len(),
            numbers_of(items@.subrange(0, i as int)) == Some(out@),
        decreases items.len() - i,
    {
        proof {
            assert(items@.subrange(0, i as int + 1).drop_last() =~= items@.subrange(0, i as int));
        }
        match &items[i] {
            JsonValue::Number { text, .. } => out.push(text.clone()),
            _ => {
                proof {
                    lemma_numbers_fail_extends(items@, i as int + 1);
                }
                return None;
            },
        }
        i = i + 1;
    }
    proof {
        assert(items@.subrange(0, items.len() as int) =~= items@);
    }
    Some(out)
}

/// The views of a list of lists of strings.
pub open spec fn lists_view(v: Seq<Vec<String>>) -> Seq<Seq<String>> {
    v.map_values(|l: Vec<String>| l@)
}

/// For each of `items` that is an array, the texts of its numbers, in order; `None`
/// when such an array holds something other than a number.
pub fn number_lists(items: &Vec<JsonValue>) -> (r: Option<Vec<Vec<String>>>)
    ensures
        match r {
            Some(v) => number_lists_of(items@) == Some(lists_view(v@)),
            None => number_lists_of(items@) is None,
        },
{
    let mut out: Vec<Vec<String>> = Vec::new();
    let mut i: usize = 0;
    while i < items.len()
        invariant
            i <= items.len(),
            number_lists_of(items@.subrange(0, i as int)) == Some(lists_view(out@)),
        decreases items.len() - i,
    {
        proof {
            assert(items@.subrange(0, i as int + 1).drop_last() =~= items@.subrange(0, i as int));
        }
        match &items[i] {
            JsonValue::Array(a) => match numbers(a) {
                Some(n) => {
                    let ghost before = out@;
                    out.push(n);
                    proof {
                        assert(lists_view(out@) =~= lists_view(before).push(out@.last()@));
                    }
                },
                None => {
                    proof {
                        lemma_lists_fail_extends(items@, i as int + 1);
                    }
                    return None;
                },
            },
            _ => {},
        }
        i = i + 1;
    }
    proof {
        assert(items@.subrange(0, items.len() as int) =~= items@);
    }
    Some(out)
}

} // verus!
