//! JSON values: what one holds, and the calls that read and make one.
use vstd::prelude::*;
use vstd::utf8::encode_utf8;

verus! {

/// `serde_json::Value` holds a JSON value.
#[verifier::external_type_specification]
#[verifier::external_body]
pub struct ExValue(serde_json::Value);

/// `serde_json::Error` says why bytes are no JSON.
#[verifier::external_type_specification]
#[verifier::external_body]
pub struct ExError(serde_json::Error);

/// A JSON number: a whole one, or a floating point one by its bits.
pub enum JsonNumber {
    Whole(int),
    Float(u64),
}

/// What a JSON value holds.
pub enum JsonTree {
    Null,
    Bool(bool),
    Number(JsonNumber),
    Text(Seq<char>),
    Array(Seq<JsonTree>),
    Object(Map<Seq<char>, JsonTree>),
}

/// What a `serde_json::Value` holds.
pub uninterp spec fn json_tree(v: serde_json::Value) -> JsonTree;

/// What values hold.
pub open spec fn trees(vs: Seq<serde_json::Value>) -> Seq<JsonTree> {
    Seq::new(vs.len(), |i: int| json_tree(vs[i]))
}

/// The words that the `Display` of a `serde_json::Error` gives.
pub uninterp spec fn error_text(e: serde_json::Error) -> Seq<char>;

/// What `serde_json::from_slice` reads bytes as, or its words on why they are no JSON.
pub uninterp spec fn parsed_json(bytes: Seq<u8>) -> Result<JsonTree, Seq<char>>;

/// The bits of the floating point number that `serde_json::Value::as_f64` takes a whole number to
/// be.
pub uninterp spec fn float_bits(n: int) -> u64;

/// The text that `serde_json::to_string_pretty` writes.
pub uninterp spec fn pretty_json(tree: JsonTree) -> Seq<char>;

/// What an object holds under a key. A missing key, like anything that is no object, gives null.
pub open spec fn tree_member(tree: JsonTree, key: Seq<char>) -> JsonTree {
    match tree {
        JsonTree::Object(fields) => if fields.dom().contains(key) {
            fields[key]
        } else {
            JsonTree::Null
        },
        _ => JsonTree::Null,
    }
}

/// Keys with their values as an object holds them.
pub open spec fn field_map(fields: Seq<(String, serde_json::Value)>) -> Map<Seq<char>, JsonTree>
    decreases fields.len(),
{
    if fields.len() == 0 {
        Map::empty()
    } else {
        field_map(fields.drop_last()).insert(fields.last().0@, json_tree(fields.last().1))
    }
}

/// No two fields have the same key.
pub open spec fn keys_differ(fields: Seq<(String, serde_json::Value)>) -> bool {
    forall|i: int, j: int| 0 <= i < j < fields.len() ==> (#[trigger] fields[i]).0@ != (
    #[trigger] fields[j]).0@
}

/// Nested to at most the given depth.
pub open spec fn is_shallow(tree: JsonTree, depth: nat) -> bool
    decreases depth,
{
    match tree {
        JsonTree::Array(items) => depth > 0 && forall|i: int|
            0 <= i < items.len() ==> is_shallow(#[trigger] items[i], (depth - 1) as nat),
        JsonTree::Object(fields) => depth > 0 && forall|key: Seq<char>| #[trigger]
            fields.dom().contains(key) ==> is_shallow(fields[key], (depth - 1) as nat),
        _ => true,
    }
}

/// `serde_json::from_slice` on bytes gives one value, or one error.
#[verifier::external_body]
pub(crate) fn parse_json(bytes: &[u8]) -> (r: Result<serde_json::Value, serde_json::Error>)
    ensures
        match r {
            Ok(v) => parsed_json(bytes@) == Ok::<JsonTree, Seq<char>>(json_tree(v)),
            Err(e) => parsed_json(bytes@) == Err::<JsonTree, Seq<char>>(error_text(e)),
        },
{
    serde_json::from_slice(bytes)
}

/// The `Display` of a `serde_json::Error` gives its words.
#[verifier::external_body]
pub(crate) fn describe_error(e: &serde_json::Error) -> (s: String)
    ensures
        s@ == error_text(*e),
{
    e.to_string()
}

/// Indexing a `serde_json::Value` by a string gives the member of that name, and null where there
/// is none.
#[verifier::external_body]
pub(crate) fn member<'a>(v: &'a serde_json::Value, key: &str) -> (r: &'a serde_json::Value)
    ensures
        json_tree(*r) == tree_member(json_tree(*v), key@),
{
    &v[key]
}

/// `serde_json::Value::as_str` gives the text of a string, and nothing of any other value.
pub assume_specification[ serde_json::Value::as_str ](v: &serde_json::Value) -> (r: Option<&str>)
    ensures
        match r {
            Some(s) => json_tree(*v) == JsonTree::Text(s@),
            None => !(json_tree(*v) is Text),
        },
;

/// `serde_json::Value::as_array` gives the items of an array, and nothing of any other value.
pub assume_specification[ serde_json::Value::as_array ](v: &serde_json::Value) -> (r: Option<
    &Vec<serde_json::Value>,
>)
    ensures
        match r {
            Some(items) => json_tree(*v) == JsonTree::Array(trees(items@)),
            None => !(json_tree(*v) is Array),
        },
;

/// `serde_json::Value::as_f64` gives a number as a floating point number, here by its bits: a
/// floating point one as it is, a whole one rounded. It gives nothing of any other value.
#[verifier::external_body]
pub(crate) fn number_bits(v: &serde_json::Value) -> (r: Option<u64>)
    ensures
        r == match json_tree(*v) {
            JsonTree::Number(JsonNumber::Float(bits)) => Some(bits),
            JsonTree::Number(JsonNumber::Whole(n)) => Some(float_bits(n)),
            _ => None,
        },
{
    v.as_f64().map(|x| x.to_bits())
}

/// `serde_json::Value::from` makes a string value of a text.
#[verifier::external_body]
pub(crate) fn text_value(s: &str) -> (v: serde_json::Value)
    ensures
        json_tree(v) == JsonTree::Text(s@),
{
    serde_json::Value::from(s)
}

/// `serde_json::Value::Array` makes an array of values, in their order.
#[verifier::external_body]
pub(crate) fn array_value(items: Vec<serde_json::Value>) -> (v: serde_json::Value)
    ensures
        json_tree(v) == JsonTree::Array(trees(items@)),
{
    serde_json::Value::Array(items)
}

/// `serde_json::Map`, collected from keys with values, makes an object of them. The keys differ:
/// which of two values under one key stays is not said.
#[verifier::external_body]
pub(crate) fn object_value(fields: Vec<(String, serde_json::Value)>) -> (v: serde_json::Value)
    requires
        keys_differ(fields@),
    ensures
        json_tree(v) == JsonTree::Object(field_map(fields@)),
{
    serde_json::Value::Object(fields.into_iter().collect())
}

/// `serde_json::to_string_pretty` never fails on a value, and writes one text for what it holds.
/// `serde_json::from_slice` reads that text, with a line feed behind it, as the same value: with
/// its feature `float_roundtrip`, floating point numbers come back to the last bit. This is said
/// of values nested to at most 100 levels, since much deeper ones are not read back.
#[verifier::external_body]
pub(crate) fn write_pretty(v: &serde_json::Value) -> (r: Option<String>)
    ensures
        r is Some,
        r.unwrap()@ == pretty_json(json_tree(*v)),
        is_shallow(json_tree(*v), 100) ==> (match parsed_json(
            encode_utf8(r.unwrap()@.push('\n')),
        ) {
            Ok(tree) => tree == json_tree(*v),
            Err(_) => false,
        }),
{
    serde_json::to_string_pretty(v).ok()
}

} // verus!
