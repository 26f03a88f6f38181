//! JSON framing for the HTTP bridge's line protocol.
//!
//! The bridge writes one JSON object per line on standard output: the
//! externalized request, and log lines about responses. These frames are
//! built here byte by byte, against byte-exact specifications; the shell
//! only prints them.

use vstd::prelude::*;
use vstd::string::StrSliceExecFns;
use vstd::string::StringSliceAdditionalSpecFns;

verus! {

/// The lowercase hex digit for a value below sixteen.
pub open spec fn hex_digit(v: int) -> u8 {
    if v < 10 {
        (48 + v) as u8
    } else {
        (87 + v) as u8
    }
}

/// How one byte appears inside a JSON string: quote and backslash are
/// escaped, control bytes become `\u00XX`, everything else (including
/// multi-byte UTF-8 sequences) passes through.
pub open spec fn esc_byte(b: u8) -> Seq<u8> {
    if b == 34 {
        seq![92u8, 34u8]
    } else if b == 92 {
        seq![92u8, 92u8]
    } else if b < 32 {
        seq![92u8, 117u8, 48u8, 48u8, hex_digit(b as int / 16), hex_digit(b as int % 16)]
    } else {
        seq![b]
    }
}

/// A byte string escaped for use inside a JSON string literal.
pub open spec fn esc(s: Seq<u8>) -> Seq<u8>
    decreases s.len(),
{
    if s.len() == 0 {
        Seq::empty()
    } else {
        esc_byte(s[0]) + esc(s.skip(1))
    }
}

/// Escaping processes one byte at a time.
pub proof fn lemma_esc_snoc(s: Seq<u8>, b: u8)
    ensures
        esc(s.push(b)) == esc(s) + esc_byte(b),
    decreases s.len(),
{
    if s.len() == 0 {
        assert(s.push(b)[0] == b);
        assert(s.push(b).skip(1) =~= Seq::<u8>::empty());
        assert(esc(s.push(b)) =~= esc_byte(b) + esc(Seq::<u8>::empty()));
        assert(esc_byte(b) + Seq::<u8>::empty() =~= esc_byte(b));
        assert(esc(s) + esc_byte(b) =~= esc_byte(b));
    } else {
        assert(s.push(b).skip(1) =~= s.skip(1).push(b));
        lemma_esc_snoc(s.skip(1), b);
        assert(esc(s.push(b)) == esc_byte(s[0]) + (esc(s.skip(1)) + esc_byte(b)));
        assert(esc_byte(s[0]) + (esc(s.skip(1)) + esc_byte(b)) =~= (esc_byte(s[0]) + esc(
            s.skip(1),
        )) + esc_byte(b));
    }
}

/// Append the escaped form of `s` to `out`.
pub fn escape_into(out: &mut Vec<u8>, s: &Vec<u8>)
    ensures
        final(out)@ == old(out)@ + esc(s@),
{
    let n = s.len();
    let mut i: usize = 0;
    while i < n
        invariant
            0 <= i <= n,
            n == s@.len(),
            out@ == old(out)@ + esc(s@.take(i as int)),
        decreases n - i,
    {
        let ghost pre = out@;
        let b = s[i];
        if b == 34 {
            out.push(92);
            out.push(34);
        } else if b == 92 {
            out.push(92);
            out.push(92);
        } else if b < 32 {
            out.push(92);
            out.push(117);
            out.push(48);
            out.push(48);
            let hi = b / 16;
            let lo = b % 16;
            out.push(if hi < 10 { 48 + hi } else { 87 + hi });
            out.push(if lo < 10 { 48 + lo } else { 87 + lo });
        } else {
            out.push(b);
        }
        proof {
            assert(out@ =~= pre + esc_byte(s@[i as int]));
            lemma_esc_snoc(s@.take(i as int), s@[i as int]);
            assert(s@.take(i + 1) =~= s@.take(i as int).push(s@[i as int]));
            assert(out@ =~= old(out)@ + esc(s@.take(i + 1)));
        }
        i = i + 1;
    }
    proof {
        assert(s@.take(n as int) =~= s@);
    }
}

/// The escaped form of a byte string, on its own.
pub fn json_escape(s: &Vec<u8>) -> (r: Vec<u8>)
    ensures
        r@ == esc(s@),
{
    let mut out: Vec<u8> = Vec::new();
    escape_into(&mut out, s);
    out
}

/// Append the bytes of an ASCII scaffolding literal to `out`.
fn push_lit(out: &mut Vec<u8>, s: &str)
    ensures
        final(out)@ == old(out)@ + s.spec_bytes(),
{
    let mut bytes = s.as_bytes_vec();
    out.append(&mut bytes);
}

/// One header pair as a two-element JSON array of strings.
pub open spec fn spec_header_item(k: Seq<u8>, v: Seq<u8>) -> Seq<u8> {
    ("[\"").spec_bytes() + esc(k) + ("\",\"").spec_bytes() + esc(v) + ("\"]").spec_bytes()
}

/// Header pairs as a comma-separated run of two-element arrays.
pub open spec fn spec_headers_json(hs: Seq<(Seq<u8>, Seq<u8>)>) -> Seq<u8>
    decreases hs.len(),
{
    if hs.len() == 0 {
        Seq::empty()
    } else if hs.len() == 1 {
        spec_header_item(hs[0].0, hs[0].1)
    } else {
        spec_headers_json(hs.drop_last()) + (",").spec_bytes() + spec_header_item(
            hs.last().0,
            hs.last().1,
        )
    }
}

/// Append the JSON form of the header list (without the enclosing
/// brackets) to `out`.
fn headers_into(out: &mut Vec<u8>, headers: &Vec<(Vec<u8>, Vec<u8>)>)
    ensures
        final(out)@ == old(out)@ + spec_headers_json(headers.deep_view()),
{
    let ghost hs = headers.deep_view();
    let n = headers.len();
    let mut i: usize = 0;
    while i < n
        invariant
            0 <= i <= n,
            n == hs.len(),
            hs == headers.deep_view(),
            out@ == old(out)@ + spec_headers_json(hs.take(i as int)),
        decreases n - i,
    {
        let ghost pre = out@;
        if i > 0 {
            push_lit(out, ",");
        }
        push_lit(out, "[\"");
        escape_into(out, &headers[i].0);
        push_lit(out, "\",\"");
        escape_into(out, &headers[i].1);
        push_lit(out, "\"]");
        proof {
            assert(headers@[i as int].0@ == hs[i as int].0);
            assert(headers@[i as int].1@ == hs[i as int].1);
            let cur = hs.take(i + 1);
            assert(cur.drop_last() =~= hs.take(i as int));
            assert(cur.last() == hs[i as int]);
            if i == 0 {
                assert(out@ =~= pre + spec_header_item(hs[0].0, hs[0].1));
                assert(out@ =~= old(out)@ + spec_headers_json(cur));
            } else {
                assert(out@ =~= pre + ((",").spec_bytes() + spec_header_item(
                    hs[i as int].0,
                    hs[i as int].1,
                )));
                assert(out@ =~= old(out)@ + spec_headers_json(cur));
            }
        }
        i = i + 1;
    }
    proof {
        assert(hs.take(n as int) =~= hs);
    }
}

/// The request frame: one JSON object carrying the externalized HTTP
/// request, with the body already base64-encoded and the request id
/// freshly generated.
pub open spec fn spec_request_line(
    method: Seq<u8>,
    headers: Seq<(Seq<u8>, Seq<u8>)>,
    remote_addr: Seq<u8>,
    url: Seq<u8>,
    body_b64: Seq<u8>,
    request_id: Seq<u8>,
) -> Seq<u8> {
    ("{\"topic\":\"http.request\",\"content\":{\"method\":\"").spec_bytes() + esc(method) + (
    "\",\"headers\":[").spec_bytes() + spec_headers_json(headers) + ("],\"remote_addr\":\"").spec_bytes()
        + esc(remote_addr) + ("\",\"url\":\"").spec_bytes() + esc(url) + ("\",\"body\":\"").spec_bytes()
        + esc(body_b64) + ("\",\"request_id\":\"").spec_bytes() + esc(request_id) + (
    "\"}}").spec_bytes()
}

/// Build the request frame.
pub fn request_line(
    method: &Vec<u8>,
    headers: &Vec<(Vec<u8>, Vec<u8>)>,
    remote_addr: &Vec<u8>,
    url: &Vec<u8>,
    body_b64: &Vec<u8>,
    request_id: &Vec<u8>,
) -> (r: Vec<u8>)
    ensures
        r@ == spec_request_line(
            method@,
            headers.deep_view(),
            remote_addr@,
            url@,
            body_b64@,
            request_id@,
        ),
{
    let mut out: Vec<u8> = Vec::new();
    push_lit(&mut out, "{\"topic\":\"http.request\",\"content\":{\"method\":\"");
    escape_into(&mut out, method);
    push_lit(&mut out, "\",\"headers\":[");
    headers_into(&mut out, headers);
    push_lit(&mut out, "],\"remote_addr\":\"");
    escape_into(&mut out, remote_addr);
    push_lit(&mut out, "\",\"url\":\"");
    escape_into(&mut out, url);
    push_lit(&mut out, "\",\"body\":\"");
    escape_into(&mut out, body_b64);
    push_lit(&mut out, "\",\"request_id\":\"");
    escape_into(&mut out, request_id);
    push_lit(&mut out, "\"}}");
    proof {
        assert(out@ =~= spec_request_line(
            method@,
            headers.deep_view(),
            remote_addr@,
            url@,
            body_b64@,
            request_id@,
        ));
    }
    out
}

/// A consumed response rendered back as JSON: the `content` of the log
/// lines the bridge emits after answering, or failing to answer, a
/// request.
pub open spec fn spec_response_json(
    request_id: Seq<u8>,
    body: Seq<u8>,
    headers: Option<Seq<(Seq<u8>, Seq<u8>)>>,
) -> Seq<u8> {
    ("{\"request_id\":\"").spec_bytes() + esc(request_id) + ("\",\"body\":\"").spec_bytes() + esc(
        body,
    ) + match headers {
        Some(hs) => ("\",\"headers\":[").spec_bytes() + spec_headers_json(hs) + ("]}").spec_bytes(),
        None => ("\",\"headers\":null}").spec_bytes(),
    }
}

/// Build the JSON form of a consumed response.
pub fn response_json(
    request_id: &Vec<u8>,
    body: &Vec<u8>,
    headers: &Option<Vec<(Vec<u8>, Vec<u8>)>>,
) -> (r: Vec<u8>)
    ensures
        r@ == spec_response_json(request_id@, body@, headers.deep_view()),
{
    let mut out: Vec<u8> = Vec::new();
    push_lit(&mut out, "{\"request_id\":\"");
    escape_into(&mut out, request_id);
    push_lit(&mut out, "\",\"body\":\"");
    escape_into(&mut out, body);
    match headers {
        Some(hs) => {
            push_lit(&mut out, "\",\"headers\":[");
            headers_into(&mut out, hs);
            push_lit(&mut out, "]}");
        },
        None => {
            push_lit(&mut out, "\",\"headers\":null}");
        },
    }
    proof {
        assert(out@ =~= spec_response_json(request_id@, body@, headers.deep_view()));
    }
    out
}

/// The log line for a response that answered a pending request.
pub open spec fn spec_log_delivered(content: Seq<u8>) -> Seq<u8> {
    ("{\"topic\":\"http.response.log\",\"content\":").spec_bytes() + content + (
    ",\"severity\":\"INFO\"}").spec_bytes()
}

/// Build the log line for a delivered response; `content` is the JSON
/// form of the response.
pub fn log_delivered(content: &Vec<u8>) -> (r: Vec<u8>)
    ensures
        r@ == spec_log_delivered(content@),
{
    let mut out: Vec<u8> = Vec::new();
    push_lit(&mut out, "{\"topic\":\"http.response.log\",\"content\":");
    let mut c = content.clone();
    proof {
        assert(c@ == content@);
    }
    out.append(&mut c);
    push_lit(&mut out, ",\"severity\":\"INFO\"}");
    proof {
        assert(out@ =~= spec_log_delivered(content@));
    }
    out
}

/// The log line for a response whose request id is not pending.
pub open spec fn spec_log_unknown_id(content: Seq<u8>) -> Seq<u8> {
    ("{\"topic\":\"http.response.log\",\"content\":").spec_bytes() + content + (
    ",\"severity\":\"ERROR\",\"error\":\"unknown request_id\"}").spec_bytes()
}

/// Build the log line for a response nobody is waiting for; `content` is
/// the JSON form of the response.
pub fn log_unknown_id(content: &Vec<u8>) -> (r: Vec<u8>)
    ensures
        r@ == spec_log_unknown_id(content@),
{
    let mut out: Vec<u8> = Vec::new();
    push_lit(&mut out, "{\"topic\":\"http.response.log\",\"content\":");
    let mut c = content.clone();
    proof {
        assert(c@ == content@);
    }
    out.append(&mut c);
    push_lit(&mut out, ",\"severity\":\"ERROR\",\"error\":\"unknown request_id\"}");
    proof {
        assert(out@ =~= spec_log_unknown_id(content@));
    }
    out
}

/// The log line for an input line that would not parse as a response:
/// the raw line is carried as a JSON string.
pub open spec fn spec_log_parse_error(line: Seq<u8>) -> Seq<u8> {
    ("{\"topic\":\"http.response.log\",\"content\":\"").spec_bytes() + esc(line) + (
    "\",\"severity\":\"ERROR\",\"error\":\"unable to parse response\"}").spec_bytes()
}

/// Build the log line for an unparseable response line.
pub fn log_parse_error(line: &Vec<u8>) -> (r: Vec<u8>)
    ensures
        r@ == spec_log_parse_error(line@),
{
    let mut out: Vec<u8> = Vec::new();
    push_lit(&mut out, "{\"topic\":\"http.response.log\",\"content\":\"");
    escape_into(&mut out, line);
    push_lit(&mut out, "\",\"severity\":\"ERROR\",\"error\":\"unable to parse response\"}");
    proof {
        assert(out@ =~= spec_log_parse_error(line@));
    }
    out
}

} // verus!
