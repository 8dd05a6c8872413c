//! The canonical JSON wire encoding: every value is an object
//! `{"type": TAG, "value": payload}`.
use crate::error::FsError;
use crate::json::{
    member_index_from, lemma_json_views, lemma_member_index_bounds, lemma_member_views, json_views, member_index,
    member_views, Json, JsonView,
};
use crate::number::{Decimal, DecimalView, FsNumber, FsNumberView};
use crate::reference::{lemma_int_text_i64, parse_i64};
use crate::reference::{
    canonical_path, lemma_reference_text_round_trip, path_text, reference_of_text, FsReference,
};
use crate::text::lemma_chars_order_reflexive;
use crate::value::{
    entries_wf_from, insert_point, keys_increasing, values_wf_from, entries_insert, entry_views, lemma_entry_views, lemma_value_views, lemma_values_wf,
    lemma_entries_wf, map_insert, value_views, value_wf, FsValue, ValueView,
};
use crate::text::str_equals;
use base64::engine::general_purpose;
use base64::Engine;
use vstd::prelude::*;

verus! {

/// The padded standard-alphabet base64 text of a byte string.
pub uninterp spec fn base64_text(b: Seq<u8>) -> Seq<char>;

/// The bytes that a base64 text decodes to, where it is valid.
pub uninterp spec fn base64_bytes(s: Seq<char>) -> Option<Seq<u8>>;

#[verifier::external_type_specification]
#[verifier::external_body]
pub struct ExDecodeError(base64::DecodeError);

/// Relies on `Engine::encode` of base64's `STANDARD` engine: padded
/// standard-alphabet text that depends on the bytes alone, and that the same
/// engine decodes back to them. It panics only where the output length
/// overflows `usize`, which the bound rules out.
#[verifier::external_body]
fn encode_base64(b: &Vec<u8>) -> (r: String)
    requires
        b@.len() <= isize::MAX,
    ensures
        r@ == base64_text(b@),
        base64_bytes(r@) == Some(b@),
{
    general_purpose::STANDARD.encode(b)
}

/// Relies on `Engine::decode` of base64's `STANDARD` engine: the bytes of a
/// valid text, an error otherwise.
#[verifier::external_body]
fn decode_base64(s: &str) -> (r: Result<Vec<u8>, base64::DecodeError>)
    ensures
        match base64_bytes(s@) {
            Some(b) => r matches Ok(v) && v@ == b,
            None => r is Err,
        },
{
    general_purpose::STANDARD.decode(s)
}

/// The envelope `{"type": tag, "value": payload}`.
pub open spec fn envelope(tag: Seq<char>, payload: JsonView) -> JsonView {
    JsonView::Object(seq![("type"@, JsonView::String(tag)), ("value"@, payload)])
}

/// A number's payload: the JSON number, or the text of a non-finite value.
pub open spec fn number_payload(n: FsNumberView) -> JsonView {
    match n {
        FsNumberView::NAN => JsonView::String("NaN"@),
        FsNumberView::NegativeInfinity => JsonView::String("-Infinity"@),
        FsNumberView::PositiveInfinity => JsonView::String("Infinity"@),
        FsNumberView::Number(d) => JsonView::Number(d),
    }
}

/// The canonical encoding. A date is its day number; a geo point is the
/// array of its two number payloads.
pub open spec fn encode_spec(v: ValueView) -> JsonView
    decreases v, 0nat,
{
    match v {
        ValueView::Null => envelope("NULL"@, JsonView::Null),
        ValueView::Boolean(b) => envelope("BOOLEAN"@, JsonView::Bool(b)),
        ValueView::Number(n) => envelope("NUMBER"@, number_payload(n)),
        ValueView::Date(d) => envelope(
            "DATE"@,
            JsonView::Number(DecimalView { mantissa: d as int, scale: 0 }),
        ),
        ValueView::String(s) => envelope("STRING"@, JsonView::String(s)),
        ValueView::Bytes(b) => envelope("BYTES"@, JsonView::String(base64_text(b))),
        ValueView::Reference(p) => envelope(
            "REFERENCE"@,
            JsonView::String(seq!['/'] + path_text(p)),
        ),
        ValueView::GeoPoint(x, y) => envelope(
            "GEOPOINT"@,
            JsonView::Array(seq![number_payload(x), number_payload(y)]),
        ),
        ValueView::Array(items) => envelope("ARRAY"@, JsonView::Array(encode_items(items))),
        ValueView::Mapping(entries) => envelope("MAP"@, JsonView::Object(encode_entries(entries))),
    }
}

pub open spec fn encode_items(items: Seq<ValueView>) -> Seq<JsonView>
    decreases items, 1nat,
{
    if items.len() == 0 {
        Seq::empty()
    } else {
        encode_items(items.drop_last()).push(encode_spec(items.last()))
    }
}

pub open spec fn encode_entries(entries: Seq<(Seq<char>, ValueView)>) -> Seq<(Seq<char>, JsonView)>
    decreases entries, 1nat,
{
    if entries.len() == 0 {
        Seq::empty()
    } else {
        encode_entries(entries.drop_last()).push(
            (entries.last().0, encode_spec(entries.last().1)),
        )
    }
}

/// Every byte string in `v` decodes back from its base64 text.
pub open spec fn bytes_read_back(v: ValueView) -> bool
    decreases v, 0nat,
{
    match v {
        ValueView::Bytes(b) => base64_bytes(base64_text(b)) == Some(b),
        ValueView::Array(items) => items_bytes_read_back(items, 0),
        ValueView::Mapping(entries) => entries_bytes_read_back(entries, 0),
        _ => true,
    }
}

pub open spec fn items_bytes_read_back(items: Seq<ValueView>, i: int) -> bool
    decreases items, items.len() - i,
{
    if 0 <= i < items.len() {
        bytes_read_back(items[i]) && items_bytes_read_back(items, i + 1)
    } else {
        true
    }
}

pub open spec fn entries_bytes_read_back(entries: Seq<(Seq<char>, ValueView)>, i: int) -> bool
    decreases entries, entries.len() - i,
{
    if 0 <= i < entries.len() {
        bytes_read_back(entries[i].1) && entries_bytes_read_back(entries, i + 1)
    } else {
        true
    }
}

pub proof fn lemma_items_bytes_read_back(items: Seq<ValueView>, i: int)
    requires
        0 <= i <= items.len(),
        forall|k: int| i <= k < items.len() ==> #[trigger] bytes_read_back(items[k]),
    ensures
        items_bytes_read_back(items, i),
    decreases items.len() - i,
{
    if i < items.len() {
        assert(bytes_read_back(items[i]));
        lemma_items_bytes_read_back(items, i + 1);
    }
}

pub proof fn lemma_entries_bytes_read_back(entries: Seq<(Seq<char>, ValueView)>, i: int)
    requires
        0 <= i <= entries.len(),
        forall|k: int| i <= k < entries.len() ==> #[trigger] bytes_read_back(entries[k].1),
    ensures
        entries_bytes_read_back(entries, i),
    decreases entries.len() - i,
{
    if i < entries.len() {
        assert(bytes_read_back(entries[i].1));
        lemma_entries_bytes_read_back(entries, i + 1);
    }
}

/// Builds `{"type": tag, "value": payload}`.
fn make_envelope(tag: &str, payload: Json) -> (r: Json)
    ensures
        r@ == envelope(tag@, payload@),
{
    let members = vec![
        (String::from_str("type"), Json::String(String::from_str(tag))),
        (String::from_str("value"), payload),
    ];
    proof {
        lemma_member_views(members@);
        assert(member_views(members@) =~= seq![
            ("type"@, JsonView::String(tag@)),
            ("value"@, payload@),
        ]);
    }
    Json::Object(members)
}

/// A number's payload.
fn number_to_json(n: &FsNumber) -> (r: Json)
    ensures
        r@ == number_payload(n@),
{
    match n {
        FsNumber::NAN => Json::String(String::from_str("NaN")),
        FsNumber::NegativeInfinity => Json::String(String::from_str("-Infinity")),
        FsNumber::PositiveInfinity => Json::String(String::from_str("Infinity")),
        FsNumber::Number(d) => Json::Number(d.duplicate()),
    }
}

impl FsValue {
    /// The canonical wire encoding of this value.
    pub fn to_json_value(&self) -> (r: Json)
        requires
            value_wf(self@),
        ensures
            r@ == encode_spec(self@),
            bytes_read_back(self@),
        decreases self@,
    {
        match self {
            FsValue::NULL => make_envelope("NULL", Json::Null),
            FsValue::Boolean(b) => make_envelope("BOOLEAN", Json::Bool(*b)),
            FsValue::Number(n) => make_envelope("NUMBER", number_to_json(n)),
            FsValue::Date(d) => make_envelope(
                "DATE",
                Json::Number(Decimal::from_i64(*d as i64)),
            ),
            FsValue::String(s) => make_envelope("STRING", Json::String(s.clone())),
            FsValue::Bytes(b) => make_envelope("BYTES", Json::String(encode_base64(b))),
            FsValue::Reference(r) => make_envelope("REFERENCE", Json::String(r.to_text())),
            FsValue::GeoPoint(x, y) => {
                let items = vec![number_to_json(x), number_to_json(y)];
                proof {
                    lemma_json_views(items@);
                    assert(json_views(items@) =~= seq![number_payload(x@), number_payload(y@)]);
                }
                make_envelope("GEOPOINT", Json::Array(items))
            },
            FsValue::Array(items) => {
                proof {
                    assert(decreases_to!(self@ => self@->Array_0));
                }
                make_envelope("ARRAY", Json::Array(encode_array(items)))
            },
            FsValue::Mapping(entries) => {
                proof {
                    assert(decreases_to!(self@ => self@->Mapping_0));
                }
                make_envelope("MAP", Json::Object(encode_map(entries)))
            },
        }
    }
}

/// Encodes each item of an array.
fn encode_array(items: &Vec<FsValue>) -> (r: Vec<Json>)
    requires
        crate::value::values_wf_from(value_views(items@), 0),
    ensures
        json_views(r@) == encode_items(value_views(items@)),
        items_bytes_read_back(value_views(items@), 0),
    decreases value_views(items@),
{
    let ghost iv = value_views(items@);
    proof {
        lemma_value_views(items@);
    }
    let mut out: Vec<Json> = Vec::new();
    let mut i: usize = 0;
    while i < items.len()
        invariant
            i <= items@.len(),
            iv == value_views(items@),
            iv.len() == items@.len(),
            crate::value::values_wf_from(iv, 0),
            forall|k: int| 0 <= k < items@.len() ==> #[trigger] iv[k] == items@[k]@,
            json_views(out@) == encode_items(iv.subrange(0, i as int)),
            forall|k: int| 0 <= k < i ==> #[trigger] bytes_read_back(iv[k]),
        decreases items.len() - i,
    {
        proof {
            lemma_values_wf(iv, 0, i as int);
            assert(decreases_to!(iv => iv[i as int]));
        }
        let j = items[i].to_json_value();
        let ghost before = out@;
        out.push(j);
        proof {
            assert(out@.drop_last() =~= before);
            assert(iv.subrange(0, i + 1).drop_last() =~= iv.subrange(0, i as int));
        }
        i = i + 1;
    }
    proof {
        assert(iv.subrange(0, items@.len() as int) =~= iv);
        lemma_items_bytes_read_back(iv, 0);
    }
    out
}

/// Encodes each value of a map, keeping the keys.
fn encode_map(entries: &Vec<(String, FsValue)>) -> (r: Vec<(String, Json)>)
    requires
        crate::value::entries_wf_from(entry_views(entries@), 0),
    ensures
        member_views(r@) == encode_entries(entry_views(entries@)),
        entries_bytes_read_back(entry_views(entries@), 0),
    decreases entry_views(entries@),
{
    let ghost ev = entry_views(entries@);
    proof {
        lemma_entry_views(entries@);
    }
    let mut out: Vec<(String, Json)> = Vec::new();
    let mut i: usize = 0;
    while i < entries.len()
        invariant
            i <= entries@.len(),
            ev == entry_views(entries@),
            ev.len() == entries@.len(),
            crate::value::entries_wf_from(ev, 0),
            forall|k: int|
                0 <= k < entries@.len() ==> #[trigger] ev[k] == (entries@[k].0@, entries@[k].1@),
            member_views(out@) == encode_entries(ev.subrange(0, i as int)),
            forall|k: int| 0 <= k < i ==> #[trigger] bytes_read_back(ev[k].1),
        decreases entries.len() - i,
    {
        proof {
            lemma_entries_wf(ev, 0, i as int);
            assert(decreases_to!(ev => ev[i as int]));
            assert(decreases_to!(ev[i as int] => ev[i as int].1));
        }
        let j = entries[i].1.to_json_value();
        let ghost before = out@;
        out.push((entries[i].0.clone(), j));
        proof {
            assert(out@.drop_last() =~= before);
            assert(ev.subrange(0, i + 1).drop_last() =~= ev.subrange(0, i as int));
        }
        i = i + 1;
    }
    proof {
        assert(ev.subrange(0, entries@.len() as int) =~= ev);
        lemma_entries_bytes_read_back(ev, 0);
    }
    out
}

/// The two ways that decoding fails, each with its message.
pub enum Failure {
    InvalidValue(Seq<char>),
    InvalidType(Seq<char>),
}

/// An invalid value with message `m`.
pub open spec fn bad(m: Seq<char>) -> Result<ValueView, Failure> {
    Err(Failure::InvalidValue(m))
}

/// `r` is what decoding owes: the value, or exactly the error named, kind and
/// message.
pub open spec fn decoded_as(r: Result<FsValue, FsError>, d: Result<ValueView, Failure>) -> bool {
    match d {
        Ok(v) => r matches Ok(x) && x@ == v,
        Err(Failure::InvalidValue(m)) => r matches Err(FsError::InvalidValue(e)) && e@ == m,
        Err(Failure::InvalidType(m)) => r matches Err(FsError::InvalidType(e)) && e@ == m,
    }
}

/// A number payload: a JSON number, or the text of a non-finite value.
pub open spec fn number_of_payload(p: JsonView) -> Option<FsNumberView> {
    match p {
        JsonView::Number(d) => Some(FsNumberView::Number(d)),
        JsonView::String(s) => if s == "NaN"@ {
            Some(FsNumberView::NAN)
        } else if s == "-Infinity"@ {
            Some(FsNumberView::NegativeInfinity)
        } else if s == "Infinity"@ {
            Some(FsNumberView::PositiveInfinity)
        } else {
            None
        },
        _ => None,
    }
}

/// Decoding: an object with a string member `"type"` and a member
/// `"value"`, decoded by the tag; anything else is an invalid value.
pub open spec fn decode_spec(j: JsonView) -> Result<ValueView, Failure>
    decreases j, 2nat,
{
    match j {
        JsonView::Object(members) => match crate::json::member(members, "type"@) {
            Some(JsonView::String(tag)) => match member_index(members, "value"@) {
                Some(v) => if 0 <= v < members.len() {
                    decode_payload(tag, members[v].1)
                } else {
                    bad("expecting a field 'value'"@)
                },
                None => bad("expecting a field 'value'"@),
            },
            _ => bad("expecting a string field 'type'"@),
        },
        _ => bad("expecting a JSON object"@),
    }
}

/// Decoding a payload by its tag; a tag outside the set is an invalid type.
pub open spec fn decode_payload(tag: Seq<char>, p: JsonView) -> Result<ValueView, Failure>
    decreases p, 1nat,
{
    if tag == "NULL"@ {
        null_payload(p)
    } else if tag == "BOOLEAN"@ {
        boolean_payload(p)
    } else if tag == "NUMBER"@ {
        number_value_payload(p)
    } else if tag == "DATE"@ {
        date_payload(p)
    } else if tag == "STRING"@ {
        string_payload(p)
    } else if tag == "BYTES"@ {
        bytes_payload(p)
    } else if tag == "REFERENCE"@ {
        reference_payload(p)
    } else if tag == "GEOPOINT"@ {
        geopoint_payload(p)
    } else if tag == "ARRAY"@ {
        array_payload(p)
    } else if tag == "MAP"@ {
        map_payload(p)
    } else {
        Err(Failure::InvalidType("unsupported value type: "@ + tag))
    }
}

// Each payload decoder: a payload of the wrong shape is an invalid value.

pub open spec fn null_payload(p: JsonView) -> Result<ValueView, Failure> {
    if p is Null {
        Ok(ValueView::Null)
    } else {
        bad("expecting null"@)
    }
}

pub open spec fn boolean_payload(p: JsonView) -> Result<ValueView, Failure> {
    match p {
        JsonView::Bool(b) => Ok(ValueView::Boolean(b)),
        _ => bad("expecting a boolean"@),
    }
}

pub open spec fn number_value_payload(p: JsonView) -> Result<ValueView, Failure> {
    match number_of_payload(p) {
        Some(n) => Ok(ValueView::Number(n)),
        None => bad("expecting a number"@),
    }
}

/// A date: a whole day number in `i32`.
pub open spec fn date_payload(p: JsonView) -> Result<ValueView, Failure> {
    match p {
        JsonView::Number(d) => if d.scale == 0 && i32::MIN <= d.mantissa <= i32::MAX {
            Ok(ValueView::Date(d.mantissa as i32))
        } else {
            bad("expecting a whole day number"@)
        },
        _ => bad("expecting a day number"@),
    }
}

pub open spec fn string_payload(p: JsonView) -> Result<ValueView, Failure> {
    match p {
        JsonView::String(s) => Ok(ValueView::String(s)),
        _ => bad("expecting a string"@),
    }
}

/// Bytes: base64 text.
pub open spec fn bytes_payload(p: JsonView) -> Result<ValueView, Failure> {
    match p {
        JsonView::String(s) => match base64_bytes(s) {
            Some(b) => if b.len() <= isize::MAX {
                Ok(ValueView::Bytes(b))
            } else {
                bad("byte string too long"@)
            },
            None => bad("expecting base64 text"@),
        },
        _ => bad("expecting a base64 string"@),
    }
}

/// A reference: its text, `/` and a path.
pub open spec fn reference_payload(p: JsonView) -> Result<ValueView, Failure> {
    match p {
        JsonView::String(s) => match reference_of_text(s) {
            Some(path) => Ok(ValueView::Reference(path)),
            None => bad(crate::reference::reference_error(s)),
        },
        _ => bad("expecting a reference string"@),
    }
}

/// A geo point: an array of two number payloads.
pub open spec fn geopoint_payload(p: JsonView) -> Result<ValueView, Failure> {
    match p {
        JsonView::Array(xs) => if xs.len() == 2 {
            match (number_of_payload(xs[0]), number_of_payload(xs[1])) {
                (Some(a), Some(b)) => Ok(ValueView::GeoPoint(a, b)),
                _ => bad("expecting numeric coordinates"@),
            }
        } else {
            bad("expecting two coordinates"@)
        },
        _ => bad("expecting an array of two coordinates"@),
    }
}

/// An array: every item decoded, the first failure aborting.
pub open spec fn array_payload(p: JsonView) -> Result<ValueView, Failure>
    decreases p, 0nat,
{
    match p {
        JsonView::Array(xs) => match decode_items(xs, xs.len() as int) {
            Ok(vs) => Ok(ValueView::Array(vs)),
            Err(f) => Err(f),
        },
        _ => bad("expecting an array"@),
    }
}

/// A map: every member's value decoded, the first failure aborting.
pub open spec fn map_payload(p: JsonView) -> Result<ValueView, Failure>
    decreases p, 0nat,
{
    match p {
        JsonView::Object(ms) => match decode_members(ms, ms.len() as int) {
            Ok(es) => Ok(ValueView::Mapping(es)),
            Err(f) => Err(f),
        },
        _ => bad("expecting an object"@),
    }
}

/// The first `n` items decoded in order; the first failure aborts.
pub open spec fn decode_items(xs: Seq<JsonView>, n: int) -> Result<Seq<ValueView>, Failure>
    decreases xs, n,
{
    if 0 < n <= xs.len() {
        match decode_items(xs, n - 1) {
            Ok(acc) => match decode_spec(xs[n - 1]) {
                Ok(v) => Ok(acc.push(v)),
                Err(f) => Err(f),
            },
            Err(f) => Err(f),
        }
    } else {
        Ok(Seq::empty())
    }
}

/// The first `n` members decoded in order and bound into a map, a later key
/// replacing an earlier one; the first failure aborts.
pub open spec fn decode_members(ms: Seq<(Seq<char>, JsonView)>, n: int) -> Result<
    Seq<(Seq<char>, ValueView)>,
    Failure,
>
    decreases ms, n,
{
    if 0 < n <= ms.len() {
        match decode_members(ms, n - 1) {
            Ok(acc) => match decode_spec(ms[n - 1].1) {
                Ok(v) => Ok(entries_insert(acc, ms[n - 1].0, v)),
                Err(f) => Err(f),
            },
            Err(f) => Err(f),
        }
    } else {
        Ok(Seq::empty())
    }
}

/// Once decoding the first `n` items fails, decoding more fails the same way.
pub proof fn lemma_decode_items_err(xs: Seq<JsonView>, n: int, m: int)
    requires
        0 < n <= m <= xs.len(),
        decode_items(xs, n) is Err,
    ensures
        decode_items(xs, m) == decode_items(xs, n),
    decreases m - n,
{
    if n < m {
        lemma_decode_items_err(xs, n, m - 1);
    }
}

/// Once decoding the first `n` members fails, decoding more fails the same
/// way.
pub proof fn lemma_decode_members_err(ms: Seq<(Seq<char>, JsonView)>, n: int, m: int)
    requires
        0 < n <= m <= ms.len(),
        decode_members(ms, n) is Err,
    ensures
        decode_members(ms, m) == decode_members(ms, n),
    decreases m - n,
{
    if n < m {
        lemma_decode_members_err(ms, n, m - 1);
    }
}

/// Reads a number payload.
fn number_from_payload(p: &Json) -> (r: Option<FsNumber>)
    ensures
        match number_of_payload(p@) {
            Some(x) => r matches Some(n) && n@ == x,
            None => r is None,
        },
{
    match p {
        Json::Number(d) => Some(FsNumber::Number(d.duplicate())),
        Json::String(s) => {
            if str_equals(s.as_str(), "NaN") {
                Some(FsNumber::NAN)
            } else if str_equals(s.as_str(), "-Infinity") {
                Some(FsNumber::NegativeInfinity)
            } else if str_equals(s.as_str(), "Infinity") {
                Some(FsNumber::PositiveInfinity)
            } else {
                None
            }
        },
        _ => None,
    }
}

impl FsValue {
    /// Decodes the canonical wire encoding. What it decodes is well-formed.
    pub fn from(json: &Json) -> (r: Result<FsValue, FsError>)
        ensures
            decoded_as(r, decode_spec(json@)),
            r matches Ok(v) ==> value_wf(v@),
        decreases json@, 2nat,
    {
        proof {
            lemma_decode_wf(json@);
        }
        match json {
            Json::Object(members) => {
                let ghost ms = member_views(members@);
                proof {
                    lemma_member_views(members@);
                    lemma_member_index_bounds(ms, "type"@, 0);
                    lemma_member_index_bounds(ms, "value"@, 0);
                }
                let tag = match json.get("type") {
                    Some(Json::String(t)) => t,
                    _ => return Err(FsError::invalid_value("expecting a string field 'type'")),
                };
                let payload = match json.get("value") {
                    Some(v) => v,
                    None => return Err(FsError::invalid_value("expecting a field 'value'")),
                };
                proof {
                    let v = member_index(ms, "value"@)->0;
                    assert(decreases_to!(json@ => json@->Object_0));
                    assert(decreases_to!(ms => ms[v]));
                    assert(decreases_to!(ms[v] => ms[v].1));
                }
                FsValue::from_payload(tag.as_str(), payload)
            },
            _ => Err(FsError::invalid_value("expecting a JSON object")),
        }
    }

    /// Decodes a payload by its tag.
    fn from_payload(tag: &str, payload: &Json) -> (r: Result<FsValue, FsError>)
        ensures
            decoded_as(r, decode_payload(tag@, payload@)),
        decreases payload@, 1nat,
    {
        if str_equals(tag, "NULL") {
            FsValue::from_null_value(payload)
        } else if str_equals(tag, "BOOLEAN") {
            FsValue::from_boolean_value(payload)
        } else if str_equals(tag, "NUMBER") {
            FsValue::from_number_value(payload)
        } else if str_equals(tag, "DATE") {
            FsValue::from_date_value(payload)
        } else if str_equals(tag, "STRING") {
            FsValue::from_string_value(payload)
        } else if str_equals(tag, "BYTES") {
            FsValue::from_bytes_value(payload)
        } else if str_equals(tag, "REFERENCE") {
            FsValue::from_reference_value(payload)
        } else if str_equals(tag, "GEOPOINT") {
            FsValue::from_geopoint_value(payload)
        } else if str_equals(tag, "ARRAY") {
            FsValue::from_array_value(payload)
        } else if str_equals(tag, "MAP") {
            FsValue::from_map_value(payload)
        } else {
            Err(FsError::InvalidType(String::from_str("unsupported value type: ").concat(tag)))
        }
    }

    pub fn from_null_value(value: &Json) -> (r: Result<FsValue, FsError>)
        ensures
            decoded_as(r, null_payload(value@)),
    {
        match value {
            Json::Null => Ok(FsValue::NULL),
            _ => Err(FsError::invalid_value("expecting null")),
        }
    }

    pub fn from_boolean_value(value: &Json) -> (r: Result<FsValue, FsError>)
        ensures
            decoded_as(r, boolean_payload(value@)),
    {
        match value {
            Json::Bool(b) => Ok(FsValue::Boolean(*b)),
            _ => Err(FsError::invalid_value("expecting a boolean")),
        }
    }

    pub fn from_number_value(value: &Json) -> (r: Result<FsValue, FsError>)
        ensures
            decoded_as(r, number_value_payload(value@)),
    {
        match number_from_payload(value) {
            Some(n) => Ok(FsValue::Number(n)),
            None => Err(FsError::invalid_value("expecting a number")),
        }
    }

    pub fn from_date_value(value: &Json) -> (r: Result<FsValue, FsError>)
        ensures
            decoded_as(r, date_payload(value@)),
    {
        match value {
            Json::Number(d) => {
                proof {
                    lemma_int_text_i64(d@.mantissa);
                }
                match parse_i64(d.mantissa_text()) {
                    Some(m) => {
                        if d.scale() == 0 && -0x8000_0000 <= m && m <= 0x7fff_ffff {
                            Ok(FsValue::Date(m as i32))
                        } else {
                            Err(FsError::invalid_value("expecting a whole day number"))
                        }
                    },
                    None => Err(FsError::invalid_value("expecting a whole day number")),
                }
            },
            _ => Err(FsError::invalid_value("expecting a day number")),
        }
    }

    pub fn from_string_value(value: &Json) -> (r: Result<FsValue, FsError>)
        ensures
            decoded_as(r, string_payload(value@)),
    {
        match value {
            Json::String(s) => Ok(FsValue::String(s.clone())),
            _ => Err(FsError::invalid_value("expecting a string")),
        }
    }

    pub fn from_reference_value(value: &Json) -> (r: Result<FsValue, FsError>)
        ensures
            decoded_as(r, reference_payload(value@)),
    {
        match value {
            Json::String(s) => match FsReference::from_str(s.as_str()) {
                Ok(reference) => Ok(FsValue::Reference(reference)),
                Err(e) => Err(e),
            },
            _ => Err(FsError::invalid_value("expecting a reference string")),
        }
    }

    pub fn from_bytes_value(value: &Json) -> (r: Result<FsValue, FsError>)
        ensures
            decoded_as(r, bytes_payload(value@)),
    {
        match value {
            Json::String(s) => match decode_base64(s.as_str()) {
                Ok(bytes) => {
                    if bytes.len() <= isize::MAX as usize {
                        Ok(FsValue::Bytes(bytes))
                    } else {
                        Err(FsError::invalid_value("byte string too long"))
                    }
                },
                Err(_) => Err(FsError::invalid_value("expecting base64 text")),
            },
            _ => Err(FsError::invalid_value("expecting a base64 string")),
        }
    }

    pub fn from_geopoint_value(value: &Json) -> (r: Result<FsValue, FsError>)
        ensures
            decoded_as(r, geopoint_payload(value@)),
    {
        match value {
            Json::Array(xs) => {
                proof {
                    lemma_json_views(xs@);
                }
                if xs.len() != 2 {
                    return Err(FsError::invalid_value("expecting two coordinates"));
                }
                match (number_from_payload(&xs[0]), number_from_payload(&xs[1])) {
                    (Some(a), Some(b)) => Ok(FsValue::GeoPoint(a, b)),
                    _ => Err(FsError::invalid_value("expecting numeric coordinates")),
                }
            },
            _ => Err(FsError::invalid_value("expecting an array of two coordinates")),
        }
    }

    pub fn from_array_value(value: &Json) -> (r: Result<FsValue, FsError>)
        ensures
            decoded_as(r, array_payload(value@)),
        decreases value@, 0nat,
    {
        match value {
            Json::Array(xs) => {
                let ghost xv = json_views(xs@);
                proof {
                    lemma_json_views(xs@);
                }
                let mut out: Vec<FsValue> = Vec::new();
                let mut i: usize = 0;
                while i < xs.len()
                    invariant
                        i <= xs@.len(),
                        xv == json_views(xs@),
                        xv.len() == xs@.len(),
                        value@ == JsonView::Array(xv),
                        forall|k: int| 0 <= k < xs@.len() ==> #[trigger] xv[k] == xs@[k]@,
                        decode_items(xv, i as int) == Ok::<Seq<ValueView>, Failure>(
                            value_views(out@),
                        ),
                    decreases xs.len() - i,
                {
                    proof {
                        assert(decreases_to!(value@ => xv));
                        assert(decreases_to!(xv => xv[i as int]));
                    }
                    let item = match FsValue::from(&xs[i]) {
                        Ok(v) => v,
                        Err(e) => {
                            proof {
                                lemma_decode_items_err(xv, i + 1, xv.len() as int);
                            }
                            return Err(e);
                        },
                    };
                    let ghost before = out@;
                    out.push(item);
                    proof {
                        lemma_value_views(before);
                        lemma_value_views(out@);
                        assert(value_views(out@) =~= value_views(before).push(item@));
                    }
                    i = i + 1;
                }
                Ok(FsValue::Array(out))
            },
            _ => Err(FsError::invalid_value("expecting an array")),
        }
    }

    pub fn from_map_value(value: &Json) -> (r: Result<FsValue, FsError>)
        ensures
            decoded_as(r, map_payload(value@)),
        decreases value@, 0nat,
    {
        match value {
            Json::Object(ms) => {
                let ghost mv = member_views(ms@);
                proof {
                    lemma_member_views(ms@);
                }
                let mut out: Vec<(String, FsValue)> = Vec::new();
                let mut i: usize = 0;
                while i < ms.len()
                    invariant
                        i <= ms@.len(),
                        mv == member_views(ms@),
                        mv.len() == ms@.len(),
                        value@ == JsonView::Object(mv),
                        forall|k: int| 0 <= k < ms@.len() ==> #[trigger] mv[k] == (ms@[k].0@, ms@[k].1@),
                        decode_members(mv, i as int) == Ok::<
                            Seq<(Seq<char>, ValueView)>,
                            Failure,
                        >(entry_views(out@)),
                    decreases ms.len() - i,
                {
                    proof {
                        assert(decreases_to!(value@ => mv));
                        assert(decreases_to!(mv => mv[i as int]));
                        assert(decreases_to!(mv[i as int] => mv[i as int].1));
                    }
                    let item = match FsValue::from(&ms[i].1) {
                        Ok(v) => v,
                        Err(e) => {
                            proof {
                                lemma_decode_members_err(mv, i + 1, mv.len() as int);
                            }
                            return Err(e);
                        },
                    };
                    map_insert(&mut out, ms[i].0.clone(), item);
                    i = i + 1;
                }
                Ok(FsValue::Mapping(out))
            },
            _ => Err(FsError::invalid_value("expecting an object")),
        }
    }
}

/// Every reference in `v` has a canonical path.
pub open spec fn references_canonical(v: ValueView) -> bool
    decreases v, 0nat,
{
    match v {
        ValueView::Reference(p) => canonical_path(p),
        ValueView::Array(items) => items_references_canonical(items, 0),
        ValueView::Mapping(entries) => entries_references_canonical(entries, 0),
        _ => true,
    }
}

pub open spec fn items_references_canonical(items: Seq<ValueView>, i: int) -> bool
    decreases items, items.len() - i,
{
    if 0 <= i < items.len() {
        references_canonical(items[i]) && items_references_canonical(items, i + 1)
    } else {
        true
    }
}

pub open spec fn entries_references_canonical(entries: Seq<(Seq<char>, ValueView)>, i: int) -> bool
    decreases entries, entries.len() - i,
{
    if 0 <= i < entries.len() {
        references_canonical(entries[i].1) && entries_references_canonical(entries, i + 1)
    } else {
        true
    }
}

/// Every item of a well-formed array is well-formed, and has each property
/// of the round trip that the array has.
proof fn lemma_item_facts(items: Seq<ValueView>, i: int, k: int)
    requires
        0 <= i <= k < items.len(),
        values_wf_from(items, i),
        items_bytes_read_back(items, i),
        items_references_canonical(items, i),
    ensures
        value_wf(items[k]),
        bytes_read_back(items[k]),
        references_canonical(items[k]),
    decreases k - i,
{
    if i < k {
        lemma_item_facts(items, i + 1, k);
    }
}

/// Every value of a well-formed map is well-formed, and has each property of
/// the round trip that the map has.
proof fn lemma_entry_facts(entries: Seq<(Seq<char>, ValueView)>, i: int, k: int)
    requires
        0 <= i <= k < entries.len(),
        entries_wf_from(entries, i),
        entries_bytes_read_back(entries, i),
        entries_references_canonical(entries, i),
    ensures
        value_wf(entries[k].1),
        bytes_read_back(entries[k].1),
        references_canonical(entries[k].1),
    decreases k - i,
{
    if i < k {
        lemma_entry_facts(entries, i + 1, k);
    }
}

proof fn lemma_encode_items(items: Seq<ValueView>)
    ensures
        encode_items(items).len() == items.len(),
        forall|k: int| 0 <= k < items.len() ==> #[trigger] encode_items(items)[k] == encode_spec(items[k]),
    decreases items.len(),
{
    if items.len() > 0 {
        lemma_encode_items(items.drop_last());
    }
}

proof fn lemma_encode_entries(entries: Seq<(Seq<char>, ValueView)>)
    ensures
        encode_entries(entries).len() == entries.len(),
        forall|k: int|
            0 <= k < entries.len() ==> #[trigger] encode_entries(entries)[k] == (
                entries[k].0,
                encode_spec(entries[k].1),
            ),
    decreases entries.len(),
{
    if entries.len() > 0 {
        lemma_encode_entries(entries.drop_last());
    }
}

/// An envelope decodes by its tag.
proof fn lemma_envelope(tag: Seq<char>, payload: JsonView)
    ensures
        decode_spec(envelope(tag, payload)) == decode_payload(tag, payload),
{
    reveal_strlit("type");
    reveal_strlit("value");
    let members = envelope(tag, payload)->Object_0;
    assert(member_index(members, "type"@) == Some(0int));
    assert("type"@[0] != "value"@[0]);
    assert(member_index_from(members, "value"@, 1) == Some(1int));
}

/// Each tag of the set selects its own payload decoder.
proof fn lemma_dispatch(p: JsonView)
    ensures
        decode_payload("NULL"@, p) == null_payload(p),
        decode_payload("BOOLEAN"@, p) == boolean_payload(p),
        decode_payload("NUMBER"@, p) == number_value_payload(p),
        decode_payload("DATE"@, p) == date_payload(p),
        decode_payload("STRING"@, p) == string_payload(p),
        decode_payload("BYTES"@, p) == bytes_payload(p),
        decode_payload("REFERENCE"@, p) == reference_payload(p),
        decode_payload("GEOPOINT"@, p) == geopoint_payload(p),
        decode_payload("ARRAY"@, p) == array_payload(p),
        decode_payload("MAP"@, p) == map_payload(p),
{
    reveal_strlit("NULL");
    reveal_strlit("BOOLEAN");
    reveal_strlit("NUMBER");
    reveal_strlit("DATE");
    reveal_strlit("STRING");
    reveal_strlit("BYTES");
    reveal_strlit("REFERENCE");
    reveal_strlit("GEOPOINT");
    reveal_strlit("ARRAY");
    reveal_strlit("MAP");
    assert("BOOLEAN"@[0] != "NULL"@[0]);
    assert("NUMBER"@[2] != "NULL"@[2]);
    assert("NUMBER"@[0] != "BOOLEAN"@[0]);
    assert("DATE"@[0] != "NULL"@[0]);
    assert("DATE"@[0] != "BOOLEAN"@[0]);
    assert("DATE"@[0] != "NUMBER"@[0]);
    assert("STRING"@[0] != "NULL"@[0]);
    assert("STRING"@[0] != "BOOLEAN"@[0]);
    assert("STRING"@[0] != "NUMBER"@[0]);
    assert("STRING"@[0] != "DATE"@[0]);
    assert("BYTES"@[0] != "NULL"@[0]);
    assert("BYTES"@[1] != "BOOLEAN"@[1]);
    assert("BYTES"@[0] != "NUMBER"@[0]);
    assert("BYTES"@[0] != "DATE"@[0]);
    assert("BYTES"@[0] != "STRING"@[0]);
    assert("REFERENCE"@[0] != "NULL"@[0]);
    assert("REFERENCE"@[0] != "BOOLEAN"@[0]);
    assert("REFERENCE"@[0] != "NUMBER"@[0]);
    assert("REFERENCE"@[0] != "DATE"@[0]);
    assert("REFERENCE"@[0] != "STRING"@[0]);
    assert("REFERENCE"@[0] != "BYTES"@[0]);
    assert("GEOPOINT"@[0] != "NULL"@[0]);
    assert("GEOPOINT"@[0] != "BOOLEAN"@[0]);
    assert("GEOPOINT"@[0] != "NUMBER"@[0]);
    assert("GEOPOINT"@[0] != "DATE"@[0]);
    assert("GEOPOINT"@[0] != "STRING"@[0]);
    assert("GEOPOINT"@[0] != "BYTES"@[0]);
    assert("GEOPOINT"@[0] != "REFERENCE"@[0]);
    assert("ARRAY"@[0] != "NULL"@[0]);
    assert("ARRAY"@[0] != "BOOLEAN"@[0]);
    assert("ARRAY"@[0] != "NUMBER"@[0]);
    assert("ARRAY"@[0] != "DATE"@[0]);
    assert("ARRAY"@[0] != "STRING"@[0]);
    assert("ARRAY"@[0] != "BYTES"@[0]);
    assert("ARRAY"@[0] != "REFERENCE"@[0]);
    assert("ARRAY"@[0] != "GEOPOINT"@[0]);
    assert("MAP"@[0] != "NULL"@[0]);
    assert("MAP"@[0] != "BOOLEAN"@[0]);
    assert("MAP"@[0] != "NUMBER"@[0]);
    assert("MAP"@[0] != "DATE"@[0]);
    assert("MAP"@[0] != "STRING"@[0]);
    assert("MAP"@[0] != "BYTES"@[0]);
    assert("MAP"@[0] != "REFERENCE"@[0]);
    assert("MAP"@[0] != "GEOPOINT"@[0]);
    assert("MAP"@[0] != "ARRAY"@[0]);
}

/// A number's payload reads back as the number.
proof fn lemma_number_payload(n: FsNumberView)
    ensures
        number_of_payload(number_payload(n)) == Some(n),
{
    reveal_strlit("NaN");
    reveal_strlit("-Infinity");
    reveal_strlit("Infinity");
    assert("NaN"@[0] != "-Infinity"@[0]);
    assert("NaN"@[0] != "Infinity"@[0]);
    assert("-Infinity"@[0] != "Infinity"@[0]);
}

/// The round trip for the variants without nested values.
proof fn lemma_round_trip_leaf(v: ValueView)
    requires
        !(v is Array),
        !(v is Mapping),
        value_wf(v),
        bytes_read_back(v),
        references_canonical(v),
    ensures
        decode_spec(encode_spec(v)) == Ok::<ValueView, Failure>(v),
{
    match v {
        ValueView::Null => {
            lemma_envelope("NULL"@, JsonView::Null);
            lemma_dispatch(JsonView::Null);
        },
        ValueView::Boolean(b) => {
            lemma_envelope("BOOLEAN"@, JsonView::Bool(b));
            lemma_dispatch(JsonView::Bool(b));
        },
        ValueView::Number(n) => {
            lemma_envelope("NUMBER"@, number_payload(n));
            lemma_dispatch(number_payload(n));
            lemma_number_payload(n);
        },
        ValueView::Date(d) => {
            let p = JsonView::Number(DecimalView { mantissa: d as int, scale: 0 });
            lemma_envelope("DATE"@, p);
            lemma_dispatch(p);
        },
        ValueView::String(t) => {
            lemma_envelope("STRING"@, JsonView::String(t));
            lemma_dispatch(JsonView::String(t));
        },
        ValueView::Bytes(b) => {
            lemma_envelope("BYTES"@, JsonView::String(base64_text(b)));
            lemma_dispatch(JsonView::String(base64_text(b)));
        },
        ValueView::Reference(path) => {
            let p = JsonView::String(seq!['/'] + path_text(path));
            lemma_envelope("REFERENCE"@, p);
            lemma_dispatch(p);
            lemma_reference_text_round_trip(path);
        },
        ValueView::GeoPoint(x, y) => {
            let p = JsonView::Array(seq![number_payload(x), number_payload(y)]);
            lemma_envelope("GEOPOINT"@, p);
            lemma_dispatch(p);
            lemma_number_payload(x);
            lemma_number_payload(y);
        },
        _ => {},
    }
}

/// Decoding the encoding gives the value back, for every well-formed value
/// whose byte strings decode back from their base64 text (as the encoder
/// ensures) and whose references have canonical paths.
#[verifier::rlimit(60)]
pub proof fn lemma_round_trip(v: ValueView)
    requires
        value_wf(v),
        bytes_read_back(v),
        references_canonical(v),
    ensures
        decode_spec(encode_spec(v)) == Ok::<ValueView, Failure>(v),
    decreases v, 1nat,
{
    match v {
        ValueView::Array(items) => {
            let p = JsonView::Array(encode_items(items));
            lemma_envelope("ARRAY"@, p);
            lemma_dispatch(p);
            lemma_round_trip_items(items, items.len() as int);
            lemma_encode_items(items);
            assert(items.subrange(0, items.len() as int) =~= items);
        },
        ValueView::Mapping(entries) => {
            let p = JsonView::Object(encode_entries(entries));
            lemma_envelope("MAP"@, p);
            lemma_dispatch(p);
            lemma_round_trip_entries(entries, entries.len() as int);
            lemma_encode_entries(entries);
            assert(entries.subrange(0, entries.len() as int) =~= entries);
        },
        _ => lemma_round_trip_leaf(v),
    }
}

proof fn lemma_round_trip_items(items: Seq<ValueView>, n: int)
    requires
        0 <= n <= items.len(),
        values_wf_from(items, 0),
        items_bytes_read_back(items, 0),
        items_references_canonical(items, 0),
    ensures
        decode_items(encode_items(items), n) == Ok::<Seq<ValueView>, Failure>(
            items.subrange(0, n),
        ),
    decreases items, n,
{
    lemma_encode_items(items);
    let xs = encode_items(items);
    if n == 0 {
        assert(items.subrange(0, 0) =~= Seq::<ValueView>::empty());
    } else {
        lemma_round_trip_items(items, n - 1);
        lemma_item_facts(items, 0, n - 1);
        assert(decreases_to!(items => items[n - 1]));
        lemma_round_trip(items[n - 1]);
        assert(xs[n - 1] == encode_spec(items[n - 1]));
        assert(items.subrange(0, n - 1).push(items[n - 1]) =~= items.subrange(0, n));
    }
}

/// A key greater than every key of sorted entries goes at their end.
proof fn lemma_insert_at_end(acc: Seq<(Seq<char>, ValueView)>, key: Seq<char>, v: ValueView)
    requires
        acc.len() > 0 ==> crate::text::chars_order(acc.last().0, key) == std::cmp::Ordering::Less,
    ensures
        entries_insert(acc, key, v) == acc.push((key, v)),
{
    lemma_chars_order_reflexive(key, 0);
    assert(insert_point(acc, key, acc.len() as int) == acc.len());
    assert(acc.insert(acc.len() as int, (key, v)) =~= acc.push((key, v)));
}

#[verifier::spinoff_prover]
#[verifier::rlimit(60)]
proof fn lemma_round_trip_entries(entries: Seq<(Seq<char>, ValueView)>, n: int)
    requires
        0 <= n <= entries.len(),
        keys_increasing(entries),
        entries_wf_from(entries, 0),
        entries_bytes_read_back(entries, 0),
        entries_references_canonical(entries, 0),
    ensures
        decode_members(encode_entries(entries), n) == Ok::<
            Seq<(Seq<char>, ValueView)>,
            Failure,
        >(entries.subrange(0, n)),
    decreases entries, n,
{
    lemma_encode_entries(entries);
    let ms = encode_entries(entries);
    if n == 0 {
        assert(entries.subrange(0, 0) =~= Seq::<(Seq<char>, ValueView)>::empty());
    } else {
        lemma_round_trip_entries(entries, n - 1);
        lemma_entry_facts(entries, 0, n - 1);
        assert(decreases_to!(entries => entries[n - 1]));
        assert(decreases_to!(entries[n - 1] => entries[n - 1].1));
        lemma_round_trip(entries[n - 1].1);
        assert(ms[n - 1] == (entries[n - 1].0, encode_spec(entries[n - 1].1)));
        let acc = entries.subrange(0, n - 1);
        let key = entries[n - 1].0;
        if n > 1 {
            assert(crate::value::ordered_at(entries, n - 2));
            assert(acc.last() == entries[n - 2]);
        }
        lemma_insert_at_end(acc, key, entries[n - 1].1);
        assert(acc.push((key, entries[n - 1].1)) =~= entries.subrange(0, n));
    }
}

/// One of the ten tags of the wire format.
pub open spec fn is_tag(tag: Seq<char>) -> bool {
    ||| tag == "NULL"@
    ||| tag == "BOOLEAN"@
    ||| tag == "NUMBER"@
    ||| tag == "DATE"@
    ||| tag == "STRING"@
    ||| tag == "BYTES"@
    ||| tag == "REFERENCE"@
    ||| tag == "GEOPOINT"@
    ||| tag == "ARRAY"@
    ||| tag == "MAP"@
}

/// Decoding an object without a `"type"` member fails with an invalid value;
/// decoding one whose type is a string outside the tag set, beside a
/// `"value"` member, fails with an invalid type. Neither builds a value.
pub proof fn lemma_decode_failures(members: Seq<(Seq<char>, JsonView)>)
    ensures
        member_index(members, "type"@) is None ==> decode_spec(JsonView::Object(members))
            == bad("expecting a string field 'type'"@),
        crate::json::member(members, "type"@) matches Some(JsonView::String(tag)) ==> (!is_tag(tag)
            && crate::json::member(members, "value"@) is Some ==> decode_spec(
            JsonView::Object(members),
        ) == Err::<ValueView, Failure>(Failure::InvalidType("unsupported value type: "@ + tag))),
{
    lemma_member_index_bounds(members, "type"@, 0);
    lemma_member_index_bounds(members, "value"@, 0);
}

/// Whatever decodes is well-formed.
pub proof fn lemma_decode_wf(j: JsonView)
    ensures
        decode_spec(j) matches Ok(v) ==> value_wf(v),
    decreases j, 2nat,
{
    if let JsonView::Object(members) = j {
        if let (Some(t), Some(v)) = (member_index(members, "type"@), member_index(members, "value"@)) {
            if 0 <= t < members.len() && 0 <= v < members.len() {
                if let JsonView::String(tag) = members[t].1 {
                    assert(decreases_to!(j => members));
                    assert(decreases_to!(members => members[v]));
                    assert(decreases_to!(members[v] => members[v].1));
                    lemma_payload_wf(tag, members[v].1);
                }
            }
        }
    }
}

proof fn lemma_payload_wf(tag: Seq<char>, p: JsonView)
    ensures
        decode_payload(tag, p) matches Ok(v) ==> value_wf(v),
    decreases p, 1nat,
{
    match p {
        JsonView::Array(xs) => {
            lemma_items_wf(xs, xs.len() as int);
            if let Ok(vs) = decode_items(xs, xs.len() as int) {
                crate::value::lemma_values_wf_all(vs, 0);
            }
        },
        JsonView::Object(ms) => {
            lemma_members_wf(ms, ms.len() as int);
        },
        _ => {},
    }
}

proof fn lemma_items_wf(xs: Seq<JsonView>, n: int)
    requires
        0 <= n <= xs.len(),
    ensures
        decode_items(xs, n) matches Ok(vs) ==> forall|k: int|
            0 <= k < vs.len() ==> #[trigger] value_wf(vs[k]),
    decreases xs, n,
{
    if n > 0 {
        lemma_items_wf(xs, n - 1);
        assert(decreases_to!(xs => xs[n - 1]));
        lemma_decode_wf(xs[n - 1]);
    }
}

proof fn lemma_members_wf(ms: Seq<(Seq<char>, JsonView)>, n: int)
    requires
        0 <= n <= ms.len(),
    ensures
        decode_members(ms, n) matches Ok(es) ==> keys_increasing(es) && entries_wf_from(es, 0),
    decreases ms, n,
{
    if n > 0 {
        lemma_members_wf(ms, n - 1);
        assert(decreases_to!(ms => ms[n - 1]));
        assert(decreases_to!(ms[n - 1] => ms[n - 1].1));
        lemma_decode_wf(ms[n - 1].1);
        if let Ok(acc) = decode_members(ms, n - 1) {
            if let Ok(v) = decode_spec(ms[n - 1].1) {
                crate::value::lemma_insert_keeps_order(acc, ms[n - 1].0, v);
                crate::value::lemma_insert_keeps_wf(acc, ms[n - 1].0, v);
            }
        }
    } else {
        assert(keys_increasing(Seq::<(Seq<char>, ValueView)>::empty()));
    }
}

/// Where decoding the first `n` items fails, the error is exactly that of the
/// first item that fails to decode, every item before it decoding.
pub proof fn lemma_first_failing_item(xs: Seq<JsonView>, n: int) -> (j: int)
    requires
        0 <= n <= xs.len(),
        decode_items(xs, n) is Err,
    ensures
        0 <= j < n,
        decode_items(xs, j) is Ok,
        decode_spec(xs[j]) is Err,
        decode_items(xs, n) == Err::<Seq<ValueView>, Failure>(decode_spec(xs[j])->Err_0),
    decreases n,
{
    if decode_items(xs, n - 1) is Err {
        lemma_first_failing_item(xs, n - 1)
    } else {
        n - 1
    }
}

/// Where decoding the first `n` members fails, the error is exactly that of
/// the first member whose value fails to decode, every member before it
/// decoding.
pub proof fn lemma_first_failing_member(ms: Seq<(Seq<char>, JsonView)>, n: int) -> (j: int)
    requires
        0 <= n <= ms.len(),
        decode_members(ms, n) is Err,
    ensures
        0 <= j < n,
        decode_members(ms, j) is Ok,
        decode_spec(ms[j].1) is Err,
        decode_members(ms, n) == Err::<Seq<(Seq<char>, ValueView)>, Failure>(
            decode_spec(ms[j].1)->Err_0,
        ),
    decreases n,
{
    if decode_members(ms, n - 1) is Err {
        lemma_first_failing_member(ms, n - 1)
    } else {
        n - 1
    }
}

} // verus!
