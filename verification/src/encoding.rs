//! The encodings binman borrows from outside crates: base64 for Basic auth,
//! and `application/x-www-form-urlencoded` for form bodies.

use vstd::prelude::*;
use vstd::utf8::encode_utf8;

use crate::varmap::pair_views;

verus! {

/// The standard base64 alphabet: `A`–`Z`, `a`–`z`, `0`–`9`, `+`, `/`.
pub open spec fn base64_digit(n: int) -> char {
    if n < 26 {
        (65 + n) as char
    } else if n < 52 {
        (97 + n - 26) as char
    } else if n < 62 {
        (48 + n - 52) as char
    } else if n == 62 {
        '+'
    } else {
        '/'
    }
}

/// Standard base64 with padding: each three bytes as four digits of six
/// bits, and a last one or two bytes filled out with `=`.
pub open spec fn base64_bytes(b: Seq<u8>) -> Seq<char>
    decreases b.len(),
{
    if b.len() == 0 {
        Seq::empty()
    } else if b.len() == 1 {
        seq![base64_digit(b[0] as int / 4), base64_digit((b[0] as int % 4) * 16), '=', '=']
    } else if b.len() == 2 {
        seq![base64_digit(b[0] as int / 4), base64_digit((b[0] as int % 4) * 16 + b[1] as int / 16), base64_digit((b[1] as int % 16) * 4), '=']
    } else {
        seq![
            base64_digit(b[0] as int / 4),
            base64_digit((b[0] as int % 4) * 16 + b[1] as int / 16),
            base64_digit((b[1] as int % 16) * 4 + b[2] as int / 64),
            base64_digit(b[2] as int % 64),
        ] + base64_bytes(b.skip(3))
    }
}

/// Standard base64, with padding, of the UTF-8 bytes of `text`.
pub open spec fn base64_of(text: Seq<char>) -> Seq<char> {
    base64_bytes(encode_utf8(text))
}

/// `base64::engine::general_purpose::STANDARD.encode` on the UTF-8 bytes of
/// `text`: the standard alphabet, with padding.
#[verifier::external_body]
pub fn base64_encode(text: &str) -> (r: String)
    ensures
        r@ == base64_of(text@),
{
    base64::Engine::encode(&base64::engine::general_purpose::STANDARD, text)
}

/// A byte `application/x-www-form-urlencoded` leaves as it is.
pub open spec fn form_unchanged(b: u8) -> bool {
    b == 42 || b == 45 || b == 46 || (48 <= b <= 57) || (65 <= b <= 90) || b == 95 || (97 <= b <= 122)
}

/// An upper-case hex digit.
pub open spec fn upper_hex(n: u8) -> char {
    if n < 10 {
        ((48 + n) as u8) as char
    } else {
        ((55 + n) as u8) as char
    }
}

/// What one byte becomes in a form: itself, `+` for a space, or `%XX`.
pub open spec fn form_byte(b: u8) -> Seq<char> {
    if form_unchanged(b) {
        seq![b as char]
    } else if b == 32 {
        seq!['+']
    } else {
        seq!['%', upper_hex(b / 16), upper_hex(b % 16)]
    }
}

pub open spec fn form_bytes(bytes: Seq<u8>) -> Seq<char>
    decreases bytes.len(),
{
    if bytes.len() == 0 {
        Seq::empty()
    } else {
        form_bytes(bytes.drop_last()) + form_byte(bytes.last())
    }
}

/// `text` serialized the way a form is: the UTF-8 bytes of it, each as
/// [`form_byte`] has it.
pub open spec fn form_serialized(text: Seq<char>) -> Seq<char> {
    form_bytes(encode_utf8(text))
}

/// `url::form_urlencoded::byte_serialize` on the UTF-8 bytes of `text`,
/// collected: the crate leaves `*-._`, digits and ASCII letters as they
/// are, writes a space as `+`, and every other byte as `%` and two
/// upper-case hex digits.
#[verifier::external_body]
pub fn form_serialize(text: &str) -> (r: String)
    ensures
        r@ == form_serialized(text@),
{
    url::form_urlencoded::byte_serialize(text.as_bytes()).collect()
}

/// The pairs a form body decodes to, `%XX` and `+` undone and the bytes
/// read as UTF-8.
pub uninterp spec fn form_pairs(body: Seq<char>) -> Seq<(Seq<char>, Seq<char>)>;

/// `url::form_urlencoded::parse` on the UTF-8 bytes of `body`, each pair
/// made owned. The contract only names the result: the same body always
/// decodes to the same pairs.
#[verifier::external_body]
pub fn form_parse(body: &str) -> (r: Vec<(String, String)>)
    ensures
        pair_views(r@) == form_pairs(body@),
{
    url::form_urlencoded::parse(body.as_bytes()).into_owned().collect()
}

/// A lower-case hex digit.
pub open spec fn lower_hex_digit(n: int) -> char {
    if n < 10 {
        (48 + n) as char
    } else {
        (87 + n) as char
    }
}

/// One character inside a JSON string as `serde_json` writes it: `"` and
/// `\` behind a backslash, the five controls with a letter of their own
/// likewise, any other control as `\u00` and two lower-case hex digits,
/// and everything else as it is.
pub open spec fn json_escaped(c: char) -> Seq<char> {
    if c == '"' {
        seq!['\\', '"']
    } else if c == '\\' {
        seq!['\\', '\\']
    } else if c == '\u{8}' {
        seq!['\\', 'b']
    } else if c == '\t' {
        seq!['\\', 't']
    } else if c == '\n' {
        seq!['\\', 'n']
    } else if c == '\u{c}' {
        seq!['\\', 'f']
    } else if c == '\r' {
        seq!['\\', 'r']
    } else if (c as int) < 32 {
        seq!['\\', 'u', '0', '0', lower_hex_digit(c as int / 16), lower_hex_digit(c as int % 16)]
    } else {
        seq![c]
    }
}

pub open spec fn json_escaped_all(text: Seq<char>) -> Seq<char>
    decreases text.len(),
{
    if text.len() == 0 {
        Seq::empty()
    } else {
        json_escaped_all(text.drop_last()) + json_escaped(text.last())
    }
}

/// `text` as a JSON string: in double quotes, each character escaped as
/// [`json_escaped`] says.
pub open spec fn json_quoted(text: Seq<char>) -> Seq<char> {
    seq!['"'] + json_escaped_all(text) + seq!['"']
}

/// `serde_json::Value::String(text).to_string()`: the compact JSON of a
/// string, escaped as `format_escaped_str_contents` in the crate's
/// `ser.rs` escapes it.
#[verifier::external_body]
pub fn json_quote(text: &str) -> (r: String)
    ensures
        r@ == json_quoted(text@),
{
    serde_json::Value::String(text.to_string()).to_string()
}

/// The compact JSON of the document `text` holds, when it holds one.
pub uninterp spec fn json_compacted(text: Seq<char>) -> Option<Seq<char>>;

/// `serde_json::from_str::<serde_json::Value>(text)`, written back with
/// `to_string`. `None` when `text` is not JSON. The contract only names the
/// result.
#[verifier::external_body]
pub fn json_compact(text: &str) -> (r: Option<String>)
    ensures
        match r {
            Some(json) => json_compacted(text@) == Some(json@),
            None => json_compacted(text@) is None,
        },
{
    match serde_json::from_str::<serde_json::Value>(text) {
        Ok(value) => Some(value.to_string()),
        Err(_) => None,
    }
}

/// The text `String::from_utf8_lossy` reads from `bytes`: their UTF-8,
/// with each invalid sequence as U+FFFD.
pub uninterp spec fn lossy_utf8(bytes: Seq<u8>) -> Seq<char>;

/// `String::from_utf8_lossy`, made owned. The contract only names the
/// result.
#[verifier::external_body]
pub fn utf8_lossy(bytes: &[u8]) -> (r: String)
    ensures
        r@ == lossy_utf8(bytes@),
{
    String::from_utf8_lossy(bytes).into_owned()
}

} // verus!
