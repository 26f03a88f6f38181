//! Request identity and body encoding for the HTTP bridge.
//!
//! Two outside calls stand behind trusted wrappers here: generating a
//! fresh request id and base64-encoding a request body. Everything
//! around them — registering the id, framing the request — is verified.

use base64::Engine;
use vstd::prelude::*;
use vstd::string::StringExecFnsIsAscii;

use crate::pending::PendingTable;

verus! {

/// The URL-safe base64 digit for a six-bit value.
pub open spec fn b64_digit(v: int) -> u8 {
    if v < 26 {
        (65 + v) as u8
    } else if v < 52 {
        (97 + v - 26) as u8
    } else if v < 62 {
        (48 + v - 52) as u8
    } else if v == 62 {
        45u8
    } else {
        95u8
    }
}

/// URL-safe base64 with padding: three input bytes become four digits; a
/// final group of one or two bytes is padded with `=` to four.
pub open spec fn b64url(bytes: Seq<u8>) -> Seq<u8>
    decreases bytes.len(),
{
    if bytes.len() == 0 {
        Seq::empty()
    } else if bytes.len() == 1 {
        let b0 = bytes[0] as int;
        seq![b64_digit(b0 / 4), b64_digit((b0 % 4) * 16), 61u8, 61u8]
    } else if bytes.len() == 2 {
        let b0 = bytes[0] as int;
        let b1 = bytes[1] as int;
        seq![b64_digit(b0 / 4), b64_digit((b0 % 4) * 16 + b1 / 16), b64_digit((b1 % 16) * 4), 61u8]
    } else {
        let b0 = bytes[0] as int;
        let b1 = bytes[1] as int;
        let b2 = bytes[2] as int;
        seq![
            b64_digit(b0 / 4),
            b64_digit((b0 % 4) * 16 + b1 / 16),
            b64_digit((b1 % 16) * 4 + b2 / 64),
            b64_digit(b2 % 64),
        ] + b64url(bytes.skip(3))
    }
}

/// Relies on base64's `URL_SAFE` engine: the URL-safe alphabet
/// (`A-Z a-z 0-9 - _`) with `=` padding, six bits per digit, big-endian
/// within each three-byte group.
#[verifier::external_body]
pub fn b64url_encode(bytes: &Vec<u8>) -> (r: Vec<u8>)
    ensures
        r@ == b64url(bytes@),
{
    base64::engine::general_purpose::URL_SAFE.encode(bytes).into_bytes()
}

/// A character the hyphenated form of a request id may hold at
/// position `i`: a hyphen at the four group breaks, lowercase hex
/// everywhere else.
pub open spec fn uuid_char_ok(c: char, i: int) -> bool {
    if i == 8 || i == 13 || i == 18 || i == 23 {
        c == '-'
    } else {
        ('0' <= c && c <= '9') || ('a' <= c && c <= 'f')
    }
}

/// Relies on uuid's `Uuid::new_v4` and its `Display` form: 36 ASCII
/// characters, lowercase hex in five hyphen-separated groups. The value
/// is random; nothing else is assumed of it.
#[verifier::external_body]
fn fresh_uuid_string() -> (r: String)
    ensures
        r@.len() == 36,
        r.is_ascii(),
        forall|i: int| 0 <= i < 36 ==> uuid_char_ok(#[trigger] r@[i], i),
{
    uuid::Uuid::new_v4().to_string()
}

/// Externalize one HTTP request as its stdout frame: the body is
/// base64-encoded and the whole object is framed as one JSON line.
pub fn encode_request_line(
    method: &Vec<u8>,
    headers: &Vec<(Vec<u8>, Vec<u8>)>,
    remote_addr: &Vec<u8>,
    url: &Vec<u8>,
    body: &Vec<u8>,
    request_id: &Vec<u8>,
) -> (r: Vec<u8>)
    ensures
        r@ == crate::json::spec_request_line(
            method@,
            headers.deep_view(),
            remote_addr@,
            url@,
            b64url(body@),
            request_id@,
        ),
{
    let body_b64 = b64url_encode(body);
    crate::json::request_line(method, headers, remote_addr, url, &body_b64, request_id)
}

/// Open one incoming HTTP request: mint a fresh request id and register
/// the request's response ticket under it. Whatever id comes back, the
/// table afterwards maps it to this ticket.
pub fn open_request(table: &mut PendingTable, ticket: u64) -> (id: String)
    ensures
        final(table)@ == old(table)@.insert(id@, ticket),
        id@.len() == 36,
        id.is_ascii(),
        forall|i: int| 0 <= i < 36 ==> uuid_char_ok(#[trigger] id@[i], i),
{
    let id = fresh_uuid_string();
    let id_key = id.clone();
    table.register(id_key, ticket);
    id
}

} // verus!
