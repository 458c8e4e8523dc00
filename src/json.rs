//! The calls into serde_json and std's UTF-8 check that the library relies on,
//! with what each of them is trusted to do.

use vstd::prelude::*;
use vstd::utf8::{decode_utf8, valid_utf8};

verus! {

/// What serde_json reads as the string member `key` of the JSON text `text`:
/// `None` where the text does not parse as JSON, `Some(None)` where it parses
/// but holds no member `key` whose value is a string.
pub uninterp spec fn json_str_member(text: Seq<char>, key: Seq<char>) -> Option<Option<Seq<char>>>;

pub open spec fn opt_str_view(o: Option<String>) -> Option<Seq<char>> {
    match o {
        Some(s) => Some(s@),
        None => None,
    }
}

pub open spec fn member_view(o: Option<Option<String>>) -> Option<Option<Seq<char>>> {
    match o {
        Some(m) => Some(opt_str_view(m)),
        None => None,
    }
}

/// Relies on serde_json::from_str (into a serde_json::Value) to parse the
/// text, then on Value::get and Value::as_str to read one string member.
#[verifier::external_body]
pub(crate) fn str_member(text: &str, key: &str) -> (r: Option<Option<String>>)
    ensures
        member_view(r) == json_str_member(text@, key@),
{
    serde_json::from_str::<serde_json::Value>(text).ok().map(
        |v| v.get(key).and_then(|m| m.as_str()).map(|m| m.to_string()),
    )
}

/// The pretty-printed form that serde_json gives the JSON text `text`, or
/// `None` where the text does not parse as JSON.
pub uninterp spec fn json_pretty(text: Seq<char>) -> Option<Seq<char>>;

/// Relies on serde_json::from_str (into a serde_json::Value) and
/// serde_json::to_string_pretty on the value read.
#[verifier::external_body]
pub(crate) fn pretty(text: &str) -> (r: Option<String>)
    ensures
        opt_str_view(r) == json_pretty(text@),
{
    serde_json::from_str::<serde_json::Value>(text).ok().and_then(
        |v| serde_json::to_string_pretty(&v).ok(),
    )
}

pub open spec fn hex_digit(d: int) -> char {
    seq!['0', '1', '2', '3', '4', '5', '6', '7', '8', '9', 'a', 'b', 'c', 'd', 'e', 'f'][d]
}

/// How a JSON string writes one character: quote, backslash and the control
/// characters are escaped, all others stand as they are.
pub open spec fn escape_char(c: char) -> Seq<char> {
    if c == '"' {
        seq!['\\', '"']
    } else if c == '\\' {
        seq!['\\', '\\']
    } else if c == '\x08' {
        seq!['\\', 'b']
    } else if c == '\t' {
        seq!['\\', 't']
    } else if c == '\n' {
        seq!['\\', 'n']
    } else if c == '\x0c' {
        seq!['\\', 'f']
    } else if c == '\r' {
        seq!['\\', 'r']
    } else if (c as int) < 0x20 {
        seq!['\\', 'u', '0', '0', hex_digit((c as int) / 16), hex_digit((c as int) % 16)]
    } else {
        seq![c]
    }
}

pub open spec fn escaped(s: Seq<char>) -> Seq<char>
    decreases s.len(),
{
    if s.len() == 0 {
        Seq::empty()
    } else {
        escaped(s.drop_last()) + escape_char(s.last())
    }
}

/// `s` written as a JSON string literal.
pub open spec fn quoted(s: Seq<char>) -> Seq<char> {
    seq!['"'] + escaped(s) + seq!['"']
}

/// Relies on serde_json::to_string on a `str`: a string literal in double
/// quotes, escaped as serde_json's ESCAPE table and write_char_escape do it.
/// Writing into a `Vec` cannot fail, so the default is never taken.
#[verifier::external_body]
pub(crate) fn quote(s: &str) -> (r: String)
    ensures
        r@ == quoted(s@),
{
    serde_json::to_string(s).unwrap_or_default()
}

/// Relies on std::str::from_utf8: it accepts exactly the well-formed UTF-8
/// byte sequences and then reads their characters.
#[verifier::external_body]
pub(crate) fn utf8_text(b: &[u8]) -> (r: Option<String>)
    ensures
        r is Some == valid_utf8(b@),
        r matches Some(t) ==> t@ == decode_utf8(b@),
{
    std::str::from_utf8(b).ok().map(|t| t.to_string())
}

} // verus!
