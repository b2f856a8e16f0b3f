//! The registration record: a hash and the helper offsets that belong to it, as JSON.
use crate::json::{
    array_value, describe_error, field_map, float_bits, is_shallow, json_tree, keys_differ, member,
    number_bits, object_value, parse_json, parsed_json, pretty_json, text_value, tree_member, trees,
    write_pretty, JsonNumber, JsonTree,
};
use crate::text::{chars_of, decimal, push_decimal, spells};
use vstd::prelude::*;
use vstd::string::StringExecFns;
use vstd::utf8::encode_utf8;

verus! {

/// What a record says: the hash, and the offsets by the bits of their floating point numbers.
#[derive(Debug, PartialEq, Eq)]
pub struct Record {
    pub hash: String,
    pub offsets: Vec<u64>,
}

/// Why bytes are no record.
#[derive(Debug, PartialEq, Eq)]
pub enum RecordError {
    NotJson { reason: String },
    NoHash,
    NoOffsets,
    NotANumber,
    WrongCount { got: usize },
}

/// What a record amounts to.
#[verifier::ext_equal]
pub struct RecordModel {
    pub hash: Seq<char>,
    pub offsets: Seq<u64>,
}

/// What an error amounts to.
pub enum RecordFault {
    NotJson { reason: Seq<char> },
    NoHash,
    NoOffsets,
    NotANumber,
    WrongCount { got: int },
}

impl View for Record {
    type V = RecordModel;

    open spec fn view(&self) -> RecordModel {
        RecordModel { hash: self.hash@, offsets: self.offsets@ }
    }
}

impl View for RecordError {
    type V = RecordFault;

    open spec fn view(&self) -> RecordFault {
        match *self {
            RecordError::NotJson { reason } => RecordFault::NotJson { reason: reason@ },
            RecordError::NoHash => RecordFault::NoHash,
            RecordError::NoOffsets => RecordFault::NoOffsets,
            RecordError::NotANumber => RecordFault::NotANumber,
            RecordError::WrongCount { got } => RecordFault::WrongCount { got: got as int },
        }
    }
}

/// A result by the views of what it holds.
pub open spec fn result_view(r: Result<Record, RecordError>) -> Result<RecordModel, RecordFault> {
    match r {
        Ok(record) => Ok(record@),
        Err(e) => Err(e@),
    }
}

/// The JSON of a record.
pub open spec fn record_tree(hash: Seq<char>, offsets: Seq<JsonTree>) -> JsonTree {
    JsonTree::Object(
        map!["hash"@ => JsonTree::Text(hash), "helper"@ => JsonTree::Object(
            map!["offsets"@ => JsonTree::Array(offsets)],
        )],
    )
}

/// The bits of a number.
pub open spec fn bits_of(n: JsonNumber) -> u64 {
    match n {
        JsonNumber::Float(bits) => bits,
        JsonNumber::Whole(n) => float_bits(n),
    }
}

/// Whether all items are numbers.
pub open spec fn all_numbers(items: Seq<JsonTree>) -> bool {
    forall|i: int| 0 <= i < items.len() ==> #[trigger] items[i] is Number
}

/// The bits of numbers.
pub open spec fn all_bits(items: Seq<JsonTree>) -> Seq<u64> {
    Seq::new(items.len(), |i: int| bits_of(items[i]->Number_0))
}

/// The record of `count` offsets that a JSON value holds, or the first reason why it holds none.
pub open spec fn read_tree(tree: JsonTree, count: nat) -> Result<RecordModel, RecordFault> {
    match tree_member(tree, "hash"@) {
        JsonTree::Text(hash) => match tree_member(tree_member(tree, "helper"@), "offsets"@) {
            JsonTree::Array(items) => if !all_numbers(items) {
                Err(RecordFault::NotANumber)
            } else if items.len() != count {
                Err(RecordFault::WrongCount { got: items.len() as int })
            } else {
                Ok(RecordModel { hash, offsets: all_bits(items) })
            },
            _ => Err(RecordFault::NoOffsets),
        },
        _ => Err(RecordFault::NoHash),
    }
}

/// Reads a record of `count` offsets out of a JSON value.
pub fn read_value(v: &serde_json::Value, count: usize) -> (r: Result<Record, RecordError>)
    ensures
        result_view(r) == read_tree(json_tree(*v), count as nat),
{
    let hash = match member(v, "hash").as_str() {
        Some(s) => s.to_owned(),
        None => {
            return Err(RecordError::NoHash);
        },
    };
    let items = match member(member(v, "helper"), "offsets").as_array() {
        Some(items) => items,
        None => {
            return Err(RecordError::NoOffsets);
        },
    };
    let ghost all = trees(items@);
    let mut offsets: Vec<u64> = Vec::new();
    let mut i: usize = 0;
    while i < items.len()
        invariant
            i <= items@.len(),
            all == trees(items@),
            offsets@.len() == i,
            forall|k: int| 0 <= k < i ==> #[trigger] all[k] is Number,
            forall|k: int| 0 <= k < i ==> #[trigger] offsets@[k] == bits_of(all[k]->Number_0),
            tree_member(json_tree(*v), "hash"@) is Text,
            tree_member(tree_member(json_tree(*v), "helper"@), "offsets"@) == JsonTree::Array(all),
        decreases items@.len() - i,
    {
        assert(all[i as int] == json_tree(items@[i as int]));
        match number_bits(&items[i]) {
            Some(bits) => {
                offsets.push(bits);
            },
            None => {
                assert(!(all[i as int] is Number));
                return Err(RecordError::NotANumber);
            },
        }
        i += 1;
    }
    if offsets.len() != count {
        return Err(RecordError::WrongCount { got: offsets.len() });
    }
    assert(offsets@ =~= all_bits(all));
    Ok(Record { hash, offsets })
}

/// What bytes hold, read as a record of `count` offsets.
pub open spec fn read_bytes(bytes: Seq<u8>, count: nat) -> Result<RecordModel, RecordFault> {
    match parsed_json(bytes) {
        Ok(tree) => read_tree(tree, count),
        Err(reason) => Err(RecordFault::NotJson { reason }),
    }
}

/// Reads a record of `count` offsets out of the bytes of a file.
pub fn read_record(bytes: &[u8], count: usize) -> (r: Result<Record, RecordError>)
    ensures
        result_view(r) == read_bytes(bytes@, count as nat),
{
    match parse_json(bytes) {
        Ok(v) => read_value(&v, count),
        Err(e) => Err(RecordError::NotJson { reason: describe_error(&e) }),
    }
}

/// Makes the JSON of a record.
pub fn record_value(hash: &str, offsets: Vec<serde_json::Value>) -> (v: serde_json::Value)
    ensures
        json_tree(v) == record_tree(hash@, trees(offsets@)),
{
    let ghost all = trees(offsets@);
    let mut inner: Vec<(String, serde_json::Value)> = Vec::new();
    inner.push(("offsets".to_owned(), array_value(offsets)));
    proof {
        reveal_with_fuel(field_map, 2);
        assert(inner@.drop_last() =~= Seq::empty());
        assert(field_map(inner@) =~= map!["offsets"@ => JsonTree::Array(all)]);
    }
    let mut outer: Vec<(String, serde_json::Value)> = Vec::new();
    outer.push(("hash".to_owned(), text_value(hash)));
    let ghost first = outer@;
    outer.push(("helper".to_owned(), object_value(inner)));
    proof {
        reveal_with_fuel(field_map, 3);
        assert(outer@.drop_last() =~= first);
        assert(first.drop_last() =~= Seq::empty());
        reveal_strlit("hash");
        reveal_strlit("helper");
        assert(outer@[0].0@ == "hash"@ && outer@[1].0@ == "helper"@);
        assert("hash"@.len() != "helper"@.len());
        assert(keys_differ(outer@));
        assert(JsonTree::Object(field_map(outer@)) == record_tree(hash@, all)) by {
            assert(field_map(outer@) =~= map!["hash"@ => JsonTree::Text(hash@), "helper"@
                => JsonTree::Object(map!["offsets"@ => JsonTree::Array(all)])]);
        }
    }
    object_value(outer)
}

/// A record made of a hash and numbers reads back as that hash and those numbers.
pub proof fn law_record_reads_back(hash: Seq<char>, offsets: Seq<JsonTree>)
    requires
        all_numbers(offsets),
    ensures
        read_tree(record_tree(hash, offsets), offsets.len()) == Ok::<RecordModel, RecordFault>(
            RecordModel { hash, offsets: all_bits(offsets) },
        ),
{
    lemma_record_members(hash, offsets);
}

/// A record holds a hash and a helper with offsets, and nothing else.
pub proof fn law_record_holds_nothing_else(hash: Seq<char>, offsets: Seq<JsonTree>)
    ensures
        match record_tree(hash, offsets) {
            JsonTree::Object(fields) => {
                &&& forall|key: Seq<char>| #[trigger]
                    fields.dom().contains(key) <==> key == "hash"@ || key == "helper"@
                &&& fields["hash"@] == JsonTree::Text(hash)
                &&& match fields["helper"@] {
                    JsonTree::Object(helper) => {
                        &&& forall|key: Seq<char>| #[trigger]
                            helper.dom().contains(key) <==> key == "offsets"@
                        &&& helper["offsets"@] == JsonTree::Array(offsets)
                    },
                    _ => false,
                }
            },
            _ => false,
        },
{
    reveal_strlit("hash");
    reveal_strlit("helper");
    assert("hash"@.len() != "helper"@.len());
}

/// A record that was read amounts to its hash and its offsets, and an error to the fault of its
/// kind.
pub proof fn law_reading_amounts_to_its_parts(r: Result<Record, RecordError>)
    ensures
        match (r, result_view(r)) {
            (Ok(record), Ok(model)) => model.hash == record.hash@ && model.offsets
                == record.offsets@,
            (
                Err(RecordError::NotJson { reason }),
                Err(RecordFault::NotJson { reason: words }),
            ) => words == reason@,
            (Err(RecordError::NoHash), Err(RecordFault::NoHash)) => true,
            (Err(RecordError::NoOffsets), Err(RecordFault::NoOffsets)) => true,
            (Err(RecordError::NotANumber), Err(RecordFault::NotANumber)) => true,
            (
                Err(RecordError::WrongCount { got }),
                Err(RecordFault::WrongCount { got: n }),
            ) => n == got,
            _ => false,
        },
{
}

/// An offset that is no number makes a record unreadable, whatever else it holds.
pub proof fn law_every_offset_is_a_number(tree: JsonTree, count: nat)
    ensures
        read_tree(tree, count) is Ok ==> (match tree_member(
            tree_member(tree, "helper"@),
            "offsets"@,
        ) {
            JsonTree::Array(items) => all_numbers(items) && items.len() == count,
            _ => false,
        }),
{
}

proof fn lemma_record_members(hash: Seq<char>, offsets: Seq<JsonTree>)
    ensures
        tree_member(record_tree(hash, offsets), "hash"@) == JsonTree::Text(hash),
        tree_member(tree_member(record_tree(hash, offsets), "helper"@), "offsets"@)
            == JsonTree::Array(offsets),
{
    reveal_strlit("hash");
    reveal_strlit("helper");
    assert("hash"@.len() != "helper"@.len());
}

proof fn lemma_record_is_shallow(hash: Seq<char>, offsets: Seq<JsonTree>)
    requires
        forall|i: int| 0 <= i < offsets.len() ==> is_shallow(#[trigger] offsets[i], 97),
    ensures
        is_shallow(record_tree(hash, offsets), 100),
{
    reveal_with_fuel(is_shallow, 5);
    let helper = JsonTree::Object(map!["offsets"@ => JsonTree::Array(offsets)]);
    assert(is_shallow(JsonTree::Array(offsets), 98));
    assert(is_shallow(helper, 99));
    assert(is_shallow(JsonTree::Text(hash), 99));
}

/// Writes the file of a record: its JSON over several lines, and a line feed. Where the offsets
/// are numbers, the file reads back as the same hash and the same numbers.
pub fn write_record(hash: &str, offsets: Vec<serde_json::Value>) -> (s: String)
    ensures
        s@ == pretty_json(record_tree(hash@, trees(offsets@))) + "\n"@,
        (forall|i: int| 0 <= i < offsets@.len() ==> is_shallow(#[trigger] trees(offsets@)[i], 97))
            ==> parsed_json(encode_utf8(s@)) == Ok::<JsonTree, Seq<char>>(
            record_tree(hash@, trees(offsets@)),
        ),
        all_numbers(trees(offsets@)) ==> read_bytes(encode_utf8(s@), offsets@.len()) == Ok::<
            RecordModel,
            RecordFault,
        >(RecordModel { hash: hash@, offsets: all_bits(trees(offsets@)) }),
{
    let ghost all = trees(offsets@);
    let v = record_value(hash, offsets);
    let mut s = write_pretty(&v).unwrap();
    let ghost written = s@;
    s.append("\n");
    proof {
        reveal_strlit("\n");
        assert(s@ =~= written.push('\n'));
        if all_numbers(all) {
            assert forall|i: int| 0 <= i < all.len() implies is_shallow(#[trigger] all[i], 97) by {
                assert(all[i] is Number);
            }
            law_record_reads_back(hash@, all);
        }
        if forall|i: int| 0 <= i < all.len() ==> is_shallow(#[trigger] all[i], 97) {
            lemma_record_is_shallow(hash@, all);
        }
    }
    s
}

/// How an error about a record is put into words, given the name of its file and how many offsets
/// it should have.
pub open spec fn fault_text(fault: RecordFault, path: Seq<char>, count: nat) -> Seq<char> {
    match fault {
        RecordFault::NotJson { .. } => path + " isn't valid JSON"@,
        RecordFault::NoHash => "no \"hash\" string in "@ + path,
        RecordFault::NoOffsets => "no \"helper.offsets\" array in "@ + path,
        RecordFault::NotANumber => "a helper offset isn't a number"@,
        RecordFault::WrongCount { got } => "expected "@ + decimal(count) + " offsets, got "@
            + decimal(got as nat),
    }
}

impl RecordError {
    /// Puts the error into words.
    pub fn message(&self, path: &str, count: usize) -> (s: String)
        ensures
            s@ == fault_text(self@, path@, count as nat),
            match *self {
                RecordError::NotJson { .. } => s@ == path@ + " isn't valid JSON"@,
                RecordError::NoHash => s@ == "no \"hash\" string in "@ + path@,
                RecordError::NoOffsets => s@ == "no \"helper.offsets\" array in "@ + path@,
                RecordError::NotANumber => s@ == "a helper offset isn't a number"@,
                RecordError::WrongCount { got } => s@ == "expected "@ + decimal(count as nat)
                    + " offsets, got "@ + decimal(got as nat),
            },
    {
        let mut s = String::new();
        match self {
            RecordError::NotJson { .. } => {
                s.append(path);
                s.append(" isn't valid JSON");
                assert(s@ =~= path@ + " isn't valid JSON"@);
            },
            RecordError::NoHash => {
                s.append("no \"hash\" string in ");
                s.append(path);
                assert(s@ =~= "no \"hash\" string in "@ + path@);
            },
            RecordError::NoOffsets => {
                s.append("no \"helper.offsets\" array in ");
                s.append(path);
                assert(s@ =~= "no \"helper.offsets\" array in "@ + path@);
            },
            RecordError::NotANumber => {
                s.append("a helper offset isn't a number");
                assert(s@ =~= "a helper offset isn't a number"@);
            },
            RecordError::WrongCount { got } => {
                s.append("expected ");
                assert(s@ =~= "expected "@);
                push_decimal(&mut s, count as u64);
                s.append(" offsets, got ");
                push_decimal(&mut s, *got as u64);
            },
        }
        s
    }
}

/// The line on whether the hash of an object is the one in the record.
pub open spec fn verdict_text(got: Seq<char>, expected: Seq<char>) -> Seq<char> {
    if got == expected {
        "PASS ✓"@
    } else {
        "FAIL ✗"@
    }
}

/// Says whether the hash of an object is the one in the record.
pub fn verdict(got: &str, expected: &str) -> (s: String)
    ensures
        s@ == verdict_text(got@, expected@),
        s@ == "PASS ✓"@ <==> got@ == expected@,
        s@ == "FAIL ✗"@ <==> got@ != expected@,
{
    proof {
        law_verdict_is_a_pass_only_on_the_same_hash(got@, expected@);
    }
    let chars = chars_of(got);
    assert(chars@.subrange(0, chars@.len() as int) =~= got@);
    if spells(&chars, 0, chars.len(), expected) {
        "PASS ✓".to_owned()
    } else {
        "FAIL ✗".to_owned()
    }
}

/// The verdict is a pass if and only if the two hashes are the same text, and a fail if and only if
/// they are not.
pub proof fn law_verdict_is_a_pass_only_on_the_same_hash(got: Seq<char>, expected: Seq<char>)
    ensures
        verdict_text(got, expected) == "PASS ✓"@ <==> got == expected,
        verdict_text(got, expected) == "FAIL ✗"@ <==> got != expected,
{
    reveal_strlit("PASS ✓");
    reveal_strlit("FAIL ✗");
    assert("PASS ✓"@[0] != "FAIL ✗"@[0]);
}

/// An object whose hash is not the one in the record fails, whatever else the record holds.
pub proof fn law_other_object_fails(
    tree: JsonTree,
    count: nat,
    recover: spec_fn(Seq<u64>) -> Seq<char>,
)
    ensures
        match read_tree(tree, count) {
            Ok(record) => tree_member(tree, "hash"@) != JsonTree::Text(recover(record.offsets))
                <==> verdict_text(recover(record.offsets), record.hash) == "FAIL ✗"@,
            Err(_) => true,
        },
{
    match read_tree(tree, count) {
        Ok(record) => {
            law_verdict_is_a_pass_only_on_the_same_hash(recover(record.offsets), record.hash);
        },
        Err(_) => {},
    }
}

/// A record with a hash and a list of offsets is read if and only if all of them are numbers and
/// they are as many as asked for. It then has that hash and the bits of those numbers, in order.
/// An offset that is no number is named before a wrong count.
pub proof fn law_whole_record_is_read(
    fields: Map<Seq<char>, JsonTree>,
    helper: Map<Seq<char>, JsonTree>,
    hash: Seq<char>,
    items: Seq<JsonTree>,
    count: nat,
)
    requires
        fields.dom().contains("hash"@),
        fields["hash"@] == JsonTree::Text(hash),
        fields.dom().contains("helper"@),
        fields["helper"@] == JsonTree::Object(helper),
        helper.dom().contains("offsets"@),
        helper["offsets"@] == JsonTree::Array(items),
    ensures
        match read_tree(JsonTree::Object(fields), count) {
            Ok(record) => {
                &&& items.len() == count
                &&& record.hash == hash
                &&& record.offsets.len() == count
                &&& forall|i: int|
                    0 <= i < count ==> (match #[trigger] items[i] {
                        JsonTree::Number(JsonNumber::Float(bits)) => record.offsets[i] == bits,
                        JsonTree::Number(JsonNumber::Whole(n)) => record.offsets[i] == float_bits(
                            n,
                        ),
                        _ => false,
                    })
            },
            Err(RecordFault::NotANumber) => exists|i: int|
                0 <= i < items.len() && !(#[trigger] items[i] is Number),
            Err(RecordFault::WrongCount { got }) => got == items.len() && got != count && forall|
                i: int,
            |
                0 <= i < items.len() ==> #[trigger] items[i] is Number,
            Err(_) => false,
        },
{
    let tree = JsonTree::Object(fields);
    assert(tree_member(tree, "hash"@) == JsonTree::Text(hash));
    assert(tree_member(tree_member(tree, "helper"@), "offsets"@) == JsonTree::Array(items));
}

/// Without a text under its key for the hash, nothing else of a value matters.
pub proof fn law_record_without_hash(tree: JsonTree, count: nat)
    ensures
        read_tree(tree, count) == Err::<RecordModel, RecordFault>(RecordFault::NoHash) <==> (
        match tree {
            JsonTree::Object(fields) => !(fields.dom().contains("hash"@)
                && fields["hash"@] is Text),
            _ => true,
        }),
{
}

/// Where there is a hash, the offsets are missed if and only if there is no helper object with a
/// list of them.
pub proof fn law_record_without_offsets(fields: Map<Seq<char>, JsonTree>, count: nat)
    requires
        fields.dom().contains("hash"@),
        fields["hash"@] is Text,
    ensures
        read_tree(JsonTree::Object(fields), count) == Err::<RecordModel, RecordFault>(
            RecordFault::NoOffsets,
        ) <==> !(fields.dom().contains("helper"@) && (match fields["helper"@] {
            JsonTree::Object(helper) => helper.dom().contains("offsets"@)
                && helper["offsets"@] is Array,
            _ => false,
        })),
{
}

/// Bytes that are no JSON are refused with the reason that the parser gives; bytes that are JSON
/// are never refused on that ground.
pub proof fn law_bytes_that_are_no_json(bytes: Seq<u8>, count: nat)
    ensures
        match parsed_json(bytes) {
            Ok(_) => !(read_bytes(bytes, count) matches Err(RecordFault::NotJson { .. })),
            Err(reason) => read_bytes(bytes, count) == Err::<RecordModel, RecordFault>(
                RecordFault::NotJson { reason },
            ),
        },
{
}

/// An object passes against its own record. `recover` stands for what the identity of the object
/// comes out as, given the offsets; with the offsets that were registered, it is the hash that was
/// registered. A file that holds the record then yields those offsets and that hash, and the
/// verdict on them is a pass.
pub proof fn law_registered_object_passes(
    file: Seq<u8>,
    hash: Seq<char>,
    offsets: Seq<JsonTree>,
    recover: spec_fn(Seq<u64>) -> Seq<char>,
)
    requires
        all_numbers(offsets),
        recover(all_bits(offsets)) == hash,
    ensures
        parsed_json(file) == Ok::<JsonTree, Seq<char>>(record_tree(hash, offsets)) ==> (
        match read_bytes(file, offsets.len()) {
            Ok(record) => verdict_text(recover(record.offsets), record.hash) == "PASS ✓"@,
            Err(_) => false,
        }),
{
    law_record_reads_back(hash, offsets);
}

} // verus!
