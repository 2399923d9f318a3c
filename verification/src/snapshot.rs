//! Feature snapshots: for each symbol, its features as a JSON array.

use serde_json::Value;
use vstd::prelude::*;
use crate::config::{
    law_symbols_round_trip, symbol_name, symbol_position, symbols, INPUT_DIM, NUM_SYMBOLS,
};
use crate::rounding::{round_to_single, rounded};

verus! {

/// A JSON value of `serde_json`.
#[verifier::external_type_specification]
#[verifier::external_body]
pub struct ExValue(Value);

/// What `serde_json` says where it fails.
#[verifier::external_type_specification]
#[verifier::external_body]
pub struct ExJsonError(serde_json::Error);

/// What a JSON value holds, as far as snapshots are concerned. Numbers are in
/// double precision.
pub ghost enum Json {
    Number(u64),
    Array(Seq<Json>),
    Object(Map<Seq<char>, Json>),
    Other,
}

/// What a value of `serde_json` holds.
pub uninterp spec fn held(value: Value) -> Json;

/// What a text parses to, or nothing where it is not JSON.
pub uninterp spec fn parsed_json(text: Seq<char>) -> Option<Json>;

/// `serde_json::from_str` reads a text as one JSON value, and fails where it is
/// none. The result depends on the text alone. Left unsaid: which texts are
/// JSON, and what they hold.
#[verifier::external_body]
fn from_str(text: &str) -> (result: Result<Value, serde_json::Error>)
    ensures
        match result {
            Ok(value) => parsed_json(text@) == Some(held(value)),
            Err(_) => parsed_json(text@) is None,
        },
{
    serde_json::from_str(text)
}

/// `Value::get` with a string gives an object's member of that name. There is
/// none in a value that is no object.
#[verifier::external_body]
fn get<'a>(value: &'a Value, name: &str) -> (member: Option<&'a Value>)
    ensures
        match held(*value) {
            Json::Object(members) => match member {
                Some(found) => members.dom().contains(name@) && held(*found) == members[name@],
                None => !members.dom().contains(name@),
            },
            _ => member is None,
        },
{
    value.get(name)
}

/// `Value::as_array` gives the elements of an array, and nothing for any other
/// value.
#[verifier::external_body]
fn as_array(value: &Value) -> (elements: Option<&Vec<Value>>)
    ensures
        match held(*value) {
            Json::Array(items) => elements matches Some(found) && found@.len() == items.len()
                && forall|i: int|
                0 <= i < items.len() ==> held(#[trigger] found@[i]) == items[i],
            _ => elements is None,
        },
{
    value.as_array()
}

/// `Value::as_f64` gives a number in double precision, here by its bits, and
/// nothing for any other value.
#[verifier::external_body]
fn as_double(value: &Value) -> (number: Option<u64>)
    ensures
        match held(*value) {
            Json::Number(bits) => number == Some(bits),
            _ => number is None,
        },
{
    value.as_f64().map(|number| number.to_bits())
}

/// Whether the elements that a snapshot takes of an array are all numbers.
pub open spec fn numeric(items: Seq<Json>) -> bool {
    forall|i: int| 0 <= i < items.len() && i < INPUT_DIM ==> (#[trigger] items[i]) is Number
}

/// The features in an array: its first elements in single precision, and zeros
/// where it is shorter.
pub open spec fn row_of(items: Seq<Json>) -> Seq<u32> {
    Seq::new(
        INPUT_DIM as nat,
        |i: int|
            if i < items.len() {
                rounded(items[i]->Number_0)
            } else {
                0
            },
    )
}

/// The features of a symbol: those of the array under its name, if there is
/// one whose elements are numbers.
pub open spec fn row_in(json: Json, symbol: Seq<char>) -> Option<Seq<u32>> {
    match json {
        Json::Object(members) => if members.dom().contains(symbol) {
            match members[symbol] {
                Json::Array(items) => if numeric(items) {
                    Some(row_of(items))
                } else {
                    None
                },
                _ => None,
            }
        } else {
            None
        },
        _ => None,
    }
}

/// Whether there are features for every symbol.
pub open spec fn is_complete(json: Json) -> bool {
    forall|k: int| 0 <= k < NUM_SYMBOLS ==> row_in(json, #[trigger] symbols()[k]) is Some
}

/// Whether rows are the features of every symbol, in the symbols' order.
pub open spec fn are_rows(rows: Seq<[u32; INPUT_DIM]>, json: Json) -> bool {
    &&& rows.len() == NUM_SYMBOLS
    &&& forall|k: int|
        0 <= k < NUM_SYMBOLS ==> row_in(json, symbols()[k]) == Some((#[trigger] rows[k])@)
}

fn row(value: &Value, symbol: &str) -> (row: Option<[u32; INPUT_DIM]>)
    ensures
        match row {
            Some(features) => row_in(held(*value), symbol@) == Some(features@),
            None => row_in(held(*value), symbol@) is None,
        },
{
    let elements: &Vec<Value> = match get(value, symbol) {
        None => {
            return None;
        },
        Some(member) => match as_array(member) {
            None => {
                return None;
            },
            Some(elements) => elements,
        },
    };
    let ghost items = held(*value)->Object_0[symbol@]->Array_0;
    let mut features: [u32; INPUT_DIM] = [0u32; INPUT_DIM];
    let mut i: usize = 0;
    while i < INPUT_DIM && i < elements.len()
        invariant
            i <= INPUT_DIM,
            i <= elements@.len(),
            elements@.len() == items.len(),
            held(*value) is Object,
            held(*value)->Object_0.dom().contains(symbol@),
            held(*value)->Object_0[symbol@] == Json::Array(items),
            forall|j: int| 0 <= j < items.len() ==> held(#[trigger] elements@[j]) == items[j],
            forall|j: int|
                0 <= j < i ==> (#[trigger] items[j]) is Number && features@[j]
                    == rounded(items[j]->Number_0),
            forall|j: int| i <= j < INPUT_DIM ==> features@[j] == 0,
        decreases INPUT_DIM - i,
    {
        assert(held(elements@[i as int]) == items[i as int]);
        match as_double(&elements[i]) {
            Some(number) => {
                features[i] = round_to_single(number);
            },
            None => {
                assert(!numeric(items)) by {
                    assert(!(items[i as int] is Number));
                }
                return None;
            },
        }
        i = i + 1;
    }
    assert(numeric(items));
    assert(features@ =~= row_of(items));
    Some(features)
}

/// Takes the features of every symbol out of a JSON value.
pub fn rows_of_value(value: &Value) -> (rows: Option<Vec<[u32; INPUT_DIM]>>)
    ensures
        rows is Some <==> is_complete(held(*value)),
        rows matches Some(features) ==> are_rows(features@, held(*value)),
{
    let mut rows: Vec<[u32; INPUT_DIM]> = Vec::new();
    let mut k: usize = 0;
    while k < NUM_SYMBOLS
        invariant
            k <= NUM_SYMBOLS,
            rows@.len() == k,
            forall|j: int|
                0 <= j < k ==> row_in(held(*value), symbols()[j]) == Some((#[trigger] rows@[j])@),
        decreases NUM_SYMBOLS - k,
    {
        match row(value, symbol_name(k)) {
            Some(features) => {
                rows.push(features);
            },
            None => {
                assert(row_in(held(*value), symbols()[k as int]) is None);
                return None;
            },
        }
        k = k + 1;
    }
    assert forall|j: int| 0 <= j < NUM_SYMBOLS implies row_in(
        held(*value),
        #[trigger] symbols()[j],
    ) is Some by {
        assert(row_in(held(*value), symbols()[j]) == Some(rows@[j]@));
    }
    Some(rows)
}

/// Reads a snapshot: the features of every symbol, in the symbols' order, in
/// single precision. There is none where the text is not JSON or misses a
/// symbol, or where a feature is no number.
pub fn read_features_snapshot(text: &str) -> (rows: Option<Vec<[u32; INPUT_DIM]>>)
    ensures
        rows is Some <==> (parsed_json(text@) matches Some(json) && is_complete(json)),
        rows matches Some(features) ==> are_rows(features@, parsed_json(text@)->0),
{
    match from_str(text) {
        Ok(value) => rows_of_value(&value),
        Err(_) => None,
    }
}

/// A snapshot's row for a symbol is what the array under that symbol's name
/// holds: each number at its place in single precision, zeros where the array is
/// shorter, and nothing of what comes after the row's end.
pub proof fn law_rows_are_found_by_name(
    rows: Seq<[u32; INPUT_DIM]>,
    json: Json,
    name: Seq<char>,
    symbol: nat,
    i: int,
)
    requires
        are_rows(rows, json),
        symbol_position(name) == Some(symbol),
        0 <= i < 54,
    ensures
        rows.len() == 6,
        json matches Json::Object(members) && members.dom().contains(name) && (
        members[name] matches Json::Array(items) && (if i < items.len() {
            items[i] matches Json::Number(number) && rows[symbol as int]@[i] == rounded(number)
        } else {
            rows[symbol as int]@[i] == 0
        })),
{
    law_symbols_round_trip(0, name);
    assert(row_in(json, symbols()[symbol as int]) == Some(rows[symbol as int]@));
    let items = json->Object_0[name]->Array_0;
    assert(numeric(items));
    if i < items.len() {
        assert(items[i] is Number);
    }
}

/// There is a snapshot exactly where every symbol's name stands for an array
/// whose first fifty-four elements, as far as there are any, are numbers.
pub proof fn law_snapshots_need_every_symbol(json: Json)
    ensures
        is_complete(json) <==> (json matches Json::Object(members) && forall|name: Seq<char>|
            #[trigger] symbol_position(name) is Some ==> members.dom().contains(name) && (
            members[name] matches Json::Array(items) && forall|i: int|
                0 <= i < items.len() && i < 54 ==> (#[trigger] items[i]) is Number)),
{
    if is_complete(json) {
        assert(row_in(json, symbols()[0]) is Some);
        assert forall|name: Seq<char>| #[trigger] symbol_position(name) is Some implies json
            ->Object_0.dom().contains(name) && (json->Object_0[name] matches Json::Array(items)
            && numeric(items)) by {
            law_symbols_round_trip(0, name);
            let p = symbol_position(name)->0;
            assert(row_in(json, symbols()[p as int]) is Some);
        }
    } else if json is Object {
        let members = json->Object_0;
        let k = choose|k: int|
            0 <= k < NUM_SYMBOLS && !(row_in(json, #[trigger] symbols()[k]) is Some);
        let name = symbols()[k];
        law_symbols_round_trip(k as nat, name);
        assert(symbol_position(name) is Some);
    }
}

} // verus!
