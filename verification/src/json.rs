//! Reading JSON text through `serde_json`.
//!
//! The library reads the output of the hall request assigner, a JSON object
//! of arrays of arrays of booleans. JSON is parsed by `serde_json`; these
//! wrappers hand back the raw text of nested values (`serde_json::value::RawValue`)
//! so that the structure can be walked by verified code.
use vstd::prelude::*;
use std::collections::BTreeMap;

verus! {

/// What `serde_json::from_str::<BTreeMap<String, Box<RawValue>>>` gives for
/// `text`: the members of a JSON object, each key with the raw text of its
/// value, in key order, a repeated key keeping its last value; `None` when
/// `text` is not a JSON object.
pub uninterp spec fn spec_json_object_members(text: Seq<char>) -> Option<Seq<(Seq<char>, Seq<char>)>>;

/// What `serde_json::from_str::<Vec<Box<RawValue>>>` gives for `text`: the
/// raw text of each element of a JSON array; `None` when `text` is not a
/// JSON array.
pub uninterp spec fn spec_json_array_elements(text: Seq<char>) -> Option<Seq<Seq<char>>>;

/// JSON whitespace: space, line feed, tab, carriage return.
pub open spec fn is_json_ws(c: char) -> bool {
    c == ' ' || c == '\n' || c == '\t' || c == '\r'
}

/// `s` without its leading JSON whitespace.
pub open spec fn trim_ws_start(s: Seq<char>) -> Seq<char>
    decreases s.len(),
{
    if s.len() > 0 && is_json_ws(s[0]) {
        trim_ws_start(s.drop_first())
    } else {
        s
    }
}

/// `s` without its trailing JSON whitespace.
pub open spec fn trim_ws_end(s: Seq<char>) -> Seq<char>
    decreases s.len(),
{
    if s.len() > 0 && is_json_ws(s.last()) {
        trim_ws_end(s.drop_last())
    } else {
        s
    }
}

/// What `serde_json::from_str::<bool>` gives for `text`: `true` or `false`
/// with nothing but JSON whitespace around it; `None` otherwise.
pub open spec fn spec_json_bool(text: Seq<char>) -> Option<bool> {
    let t = trim_ws_end(trim_ws_start(text));
    if t == seq!['t', 'r', 'u', 'e'] {
        Some(true)
    } else if t == seq!['f', 'a', 'l', 's', 'e'] {
        Some(false)
    } else {
        None
    }
}

/// Whether `serde_json::from_str::<serde_json::Value>` accepts `text`: it
/// holds exactly one JSON value, with nothing but whitespace around it.
pub uninterp spec fn spec_json_valid(text: Seq<char>) -> bool;

/// Whether `s` is a non-empty run of ASCII decimal digits.
pub open spec fn is_decimal_digits(s: Seq<char>) -> bool {
    s.len() > 0 && forall|i: int| 0 <= i < s.len() ==> '0' <= #[trigger] s[i] <= '9'
}

/// The value of a run of decimal digits.
pub open spec fn digits_value(s: Seq<char>) -> int
    decreases s.len(),
{
    if s.len() == 0 {
        0
    } else {
        digits_value(s.drop_last()) * 10 + (s.last() as int - '0' as int)
    }
}

/// The integer that `text` spells in decimal, as `str::parse::<i32>` reads
/// it: an optional `+` or `-` sign followed by only digits, within the range
/// of `i32`; `None` otherwise.
pub open spec fn decimal_i32(text: Seq<char>) -> Option<i32> {
    let neg = text.len() > 0 && text[0] == '-';
    let signed = text.len() > 0 && (text[0] == '-' || text[0] == '+');
    let body = if signed {
        text.drop_first()
    } else {
        text
    };
    let v = if neg {
        -digits_value(body)
    } else {
        digits_value(body)
    };
    if is_decimal_digits(body) && i32::MIN <= v <= i32::MAX {
        Some(v as i32)
    } else {
        None
    }
}

/// The mathematical form of a list of key and value texts.
pub open spec fn pairs_view(v: Seq<(String, String)>) -> Seq<(Seq<char>, Seq<char>)> {
    v.map_values(|p: (String, String)| (p.0@, p.1@))
}

/// The mathematical form of a list of texts.
pub open spec fn texts_view(v: Seq<String>) -> Seq<Seq<char>> {
    v.map_values(|s: String| s@)
}

/// Members of the JSON object `text` by
/// `serde_json::from_str::<BTreeMap<String, Box<RawValue>>>`; see
/// [`spec_json_object_members`]. The result is only named, not described.
#[verifier::external_body]
pub(crate) fn json_object_members(text: &str) -> (r: Option<Vec<(String, String)>>)
    ensures
        match r {
            Some(v) => spec_json_object_members(text@) == Some(pairs_view(v@)),
            None => spec_json_object_members(text@) is None,
        },
{
    match serde_json::from_str::<BTreeMap<String, Box<serde_json::value::RawValue>>>(text) {
        Ok(m) => Some(m.into_iter().map(|(k, v)| (k, v.get().to_string())).collect()),
        Err(_) => None,
    }
}

/// Elements of the JSON array `text` by
/// `serde_json::from_str::<Vec<Box<RawValue>>>`; see
/// [`spec_json_array_elements`]. The result is only named, not described.
#[verifier::external_body]
pub(crate) fn json_array_elements(text: &str) -> (r: Option<Vec<String>>)
    ensures
        match r {
            Some(v) => spec_json_array_elements(text@) == Some(texts_view(v@)),
            None => spec_json_array_elements(text@) is None,
        },
{
    match serde_json::from_str::<Vec<Box<serde_json::value::RawValue>>>(text) {
        Ok(v) => Some(v.into_iter().map(|e| e.get().to_string()).collect()),
        Err(_) => None,
    }
}

/// The JSON boolean `text` holds, by `serde_json::from_str::<bool>`, which
/// skips JSON whitespace, reads the literal `true` or `false`, and accepts
/// nothing but whitespace after it; see [`spec_json_bool`].
#[verifier::external_body]
pub(crate) fn json_bool(text: &str) -> (r: Option<bool>)
    ensures
        r == spec_json_bool(text@),
{
    serde_json::from_str::<bool>(text).ok()
}

/// Whether `text` is JSON, by `serde_json::from_str::<serde_json::Value>`;
/// see [`spec_json_valid`]. The result is only named, not described.
#[verifier::external_body]
pub(crate) fn json_valid(text: &str) -> (r: bool)
    ensures
        r == spec_json_valid(text@),
{
    serde_json::from_str::<serde_json::Value>(text).is_ok()
}

/// The integer `text` holds, by `str::parse::<i32>`, which the standard
/// library documents as an optional `+` or `-` sign followed by only digits;
/// see [`decimal_i32`].
#[verifier::external_body]
pub(crate) fn parse_i32(text: &str) -> (r: Option<i32>)
    ensures
        r == decimal_i32(text@),
{
    text.parse::<i32>().ok()
}

} // verus!
