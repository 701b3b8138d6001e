//! Turning what was read from an HTTP response into a `ProbeResult`.

use vstd::prelude::*;
use vstd::slice::slice_subrange;
use crate::model::{is_failure_record, now_rfc3339, opt_string_view, ProbeResult};
use crate::probe::{detect_tech, extract_title, strings_view, tech_guess, title_group, title_text};
use crate::text::{chars_of, lower_each, parse_decimal, parse_unsigned};

verus! {

/// What was read from the response that answered a probe.
pub struct ResponseParts {
    /// The HTTP status code.
    pub status: u16,
    /// The final URL, after redirects, as text.
    pub final_url: String,
    /// The number of redirects followed to reach the final URL.
    pub redirects: usize,
    /// The `Server` header, when present as visible ASCII.
    pub server: Option<String>,
    /// The `X-Powered-By` header, when present as visible ASCII.
    pub powered_by: Option<String>,
    /// The `Content-Type` header, when present as visible ASCII.
    pub content_type: Option<String>,
    /// The `Content-Length` header text, when present as visible ASCII.
    pub content_length: Option<String>,
    /// The response body as read (reading stops at the body cap).
    pub body: Vec<u8>,
    /// Round-trip time of the request, in milliseconds.
    pub elapsed_ms: u128,
}

/// The part of the body that is hashed and searched: the first `max_body` bytes when
/// `max_body` is nonzero and the body is longer, else the whole body.
pub open spec fn capped_body(body: Seq<u8>, max_body: usize) -> Seq<u8> {
    if max_body > 0 && body.len() > max_body {
        body.take(max_body as int)
    } else {
        body
    }
}

/// SHA-256 digest of `data`, as the `sha2` crate computes it.
pub uninterp spec fn sha256(data: Seq<u8>) -> Seq<u8>;

/// The lowercase hex digit for `d < 16`.
pub open spec fn hex_digit(d: u8) -> char {
    if d < 10 {
        ('0' as int + d) as char
    } else {
        ('a' as int + d - 10) as char
    }
}

/// Lowercase hex encoding: two digits per byte, high nibble first.
pub open spec fn hex_lower(data: Seq<u8>) -> Seq<char>
    decreases data.len(),
{
    if data.len() == 0 {
        Seq::empty()
    } else {
        seq![hex_digit(data[0] / 16), hex_digit(data[0] % 16)] + hex_lower(data.drop_first())
    }
}

/// Hex encoding gives two digits per byte.
pub proof fn lemma_hex_lower_len(data: Seq<u8>)
    ensures
        hex_lower(data).len() == 2 * data.len(),
    decreases data.len(),
{
    if data.len() > 0 {
        lemma_hex_lower_len(data.drop_first());
    }
}

/// Text decoded from UTF-8 bytes with each invalid sequence replaced by U+FFFD, as
/// `String::from_utf8_lossy` decodes it.
pub uninterp spec fn utf8_lossy(bytes: Seq<u8>) -> Seq<char>;

/// Calls `sha2::Sha256::digest`: the result is the digest named `sha256(data)`, 32 bytes long.
#[verifier::external_body]
fn sha256_digest(data: &[u8]) -> (r: Vec<u8>)
    ensures
        r@ == sha256(data@),
        r@.len() == 32,
{
    <sha2::Sha256 as sha2::Digest>::digest(data).to_vec()
}

/// Calls `hex::encode`: lowercase hex, two digits per byte.
#[verifier::external_body]
fn hex_encode(data: &[u8]) -> (r: String)
    ensures
        r@ == hex_lower(data@),
{
    hex::encode(data)
}

/// Calls `String::from_utf8_lossy`: the result is named `utf8_lossy(bytes)`.
#[verifier::external_body]
fn decode_lossy(bytes: &[u8]) -> (r: String)
    ensures
        r@ == utf8_lossy(bytes@),
{
    String::from_utf8_lossy(bytes).into_owned()
}

/// The `Content-Length` reported: the header's value when it parses as a `u64`, else the
/// length of the body read.
pub open spec fn content_length_of(header: Option<Seq<char>>, body_len: nat) -> u64 {
    match header {
        Some(h) => match parse_unsigned(h, u64::MAX as nat) {
            Some(v) => v as u64,
            None => body_len as u64,
        },
        None => body_len as u64,
    }
}

/// The title found in the body text.
pub open spec fn title_of_text(text: Seq<char>) -> Option<Seq<char>> {
    match title_group(text) {
        Some(g) => title_text(g),
        None => None,
    }
}

/// `r` records the response `parts` to a probe of `input` at `scheme://host:port`, with
/// `ips` resolved and the body read up to `max_body` bytes; everything but the timestamp.
pub open spec fn is_response_record(
    r: ProbeResult,
    input: Seq<char>,
    host: Seq<char>,
    scheme: Seq<char>,
    port: u16,
    parts: ResponseParts,
    ips: Seq<String>,
    max_body: usize,
) -> bool {
    let body = capped_body(parts.body@, max_body);
    let text = utf8_lossy(body);
    &&& r.input@ == input
    &&& r.ok
    &&& opt_string_view(r.url) == Some(parts.final_url@)
    &&& opt_string_view(r.scheme) == Some(scheme)
    &&& r.host@ == host
    &&& r.port == Some(port)
    &&& r.status == Some(parts.status)
    &&& opt_string_view(r.title) == title_of_text(text)
    &&& r.server == parts.server
    &&& r.content_type == parts.content_type
    &&& r.content_length == Some(content_length_of(opt_string_view(parts.content_length), parts.body@.len()))
    &&& r.redirects == Some(parts.redirects)
    &&& r.ips@ == ips
    &&& strings_view(r.tech@) == tech_guess(
        opt_string_view(parts.server),
        opt_string_view(parts.powered_by),
        lower_each(text),
    )
    &&& opt_string_view(r.body_sha256) == Some(hex_lower(sha256(body)))
    &&& sha256(body).len() == 32
    &&& r.body_sha256 matches Some(h) && h@.len() == 64
    &&& r.response_time_ms == Some(parts.elapsed_ms)
    &&& r.error is None
}

/// A `&str` view of an optional `String`.
fn opt_as_str(o: &Option<String>) -> (r: Option<&str>)
    ensures
        match r {
            Some(s) => opt_string_view(*o) == Some(s@),
            None => o is None,
        },
{
    match o {
        Some(s) => Some(s.as_str()),
        None => None,
    }
}

/// The record of a successful probe of `input` at `scheme://host:port`, stamped `timestamp`:
/// the body is capped at `max_body` bytes (0 = no cap), hashed, decoded for the title and
/// the technology markers; the content length falls back to the whole body's length.
pub fn result_from_response_at(
    input: &str,
    host: &str,
    scheme: &str,
    port: u16,
    parts: ResponseParts,
    ips: Vec<String>,
    max_body: usize,
    timestamp: String,
) -> (r: ProbeResult)
    ensures
        is_response_record(r, input@, host@, scheme@, port, parts, ips@, max_body),
        r.timestamp@ == timestamp@,
{
    let ghost p0 = parts;
    let full_len = parts.body.len();
    let capped: &[u8] = if max_body > 0 && full_len > max_body {
        slice_subrange(parts.body.as_slice(), 0, max_body)
    } else {
        parts.body.as_slice()
    };
    assert(capped@ =~= capped_body(parts.body@, max_body));
    let digest = sha256_digest(capped);
    let body_sha256 = hex_encode(digest.as_slice());
    let text = decode_lossy(capped);
    let title = extract_title(text.as_str());
    let tech = detect_tech(opt_as_str(&parts.server), opt_as_str(&parts.powered_by), text.as_str());
    let content_length: u64 = match &parts.content_length {
        Some(h) => {
            let cs = chars_of(h.as_str());
            match parse_decimal(cs.as_slice(), u64::MAX) {
                Some(v) => v,
                None => full_len as u64,
            }
        },
        None => full_len as u64,
    };
    proof {
        lemma_hex_lower_len(digest@);
    }
    ProbeResult {
        input: input.to_owned(),
        ok: true,
        url: Some(parts.final_url),
        scheme: Some(scheme.to_owned()),
        host: host.to_owned(),
        port: Some(port),
        status: Some(parts.status),
        title,
        server: parts.server,
        content_type: parts.content_type,
        content_length: Some(content_length),
        redirects: Some(parts.redirects),
        ips,
        tech,
        body_sha256: Some(body_sha256),
        response_time_ms: Some(parts.elapsed_ms),
        error: None,
        timestamp,
    }
}

/// The record of a successful probe, stamped now.
pub fn result_from_response(
    input: &str,
    host: &str,
    scheme: &str,
    port: u16,
    parts: ResponseParts,
    ips: Vec<String>,
    max_body: usize,
) -> (r: ProbeResult)
    ensures
        is_response_record(r, input@, host@, scheme@, port, parts, ips@, max_body),
{
    result_from_response_at(input, host, scheme, port, parts, ips, max_body, now_rfc3339())
}

} // verus!

verus! {

/// A record got a response exactly when it holds no error, and a record with a response
/// carries its URL, scheme, port, status, body hash and response time.
pub open spec fn is_consistent_record(r: ProbeResult) -> bool {
    &&& r.ok == r.error is None
    &&& r.ok ==> {
        &&& r.url is Some
        &&& r.scheme is Some
        &&& r.port is Some
        &&& r.status is Some
        &&& r.body_sha256 is Some
        &&& r.response_time_ms is Some
    }
}

/// Both kinds of record the library builds, the failure record and the response record,
/// are consistent.
pub proof fn lemma_records_consistent(
    r: ProbeResult,
    input: Seq<char>,
    host: Seq<char>,
    error: Seq<char>,
    scheme: Seq<char>,
    port: u16,
    parts: ResponseParts,
    ips: Seq<String>,
    max_body: usize,
)
    ensures
        is_failure_record(r, input, host, error) ==> is_consistent_record(r),
        is_response_record(r, input, host, scheme, port, parts, ips, max_body) ==> is_consistent_record(r),
{
}

} // verus!

verus! {

/// The hash covers the first `max_body` bytes of the body, or all of it when it is shorter
/// or there is no cap.
pub proof fn lemma_capped_body_prefix(body: Seq<u8>, max_body: usize)
    ensures
        capped_body(body, max_body).len() == if max_body > 0 && body.len() > max_body {
            max_body as int
        } else {
            body.len() as int
        },
        forall|i: int|
            0 <= i < capped_body(body, max_body).len() ==> #[trigger] capped_body(body, max_body)[i]
                == body[i],
{
}

/// The body hash is written in lowercase hex: only `0`–`9` and `a`–`f`, two per byte, the
/// first of each pair for the high four bits.
pub proof fn lemma_hex_lower_digits(data: Seq<u8>)
    ensures
        hex_lower(data).len() == 2 * data.len(),
        forall|i: int|
            0 <= i < hex_lower(data).len() ==> ('0' <= #[trigger] hex_lower(data)[i] && hex_lower(
                data,
            )[i] <= '9') || ('a' <= hex_lower(data)[i] && hex_lower(data)[i] <= 'f'),
        forall|i: int|
            0 <= i < data.len() ==> hex_value(#[trigger] hex_lower(data)[2 * i]) * 16 + hex_value(
                hex_lower(data)[2 * i + 1],
            ) == data[i],
    decreases data.len(),
{
    lemma_hex_lower_len(data);
    if data.len() > 0 {
        let rest = data.drop_first();
        lemma_hex_lower_digits(rest);
        let b = data[0];
        let h = hex_lower(data);
        let t = hex_lower(rest);
        assert(h =~= seq![hex_digit(b / 16), hex_digit(b % 16)] + t);
        assert forall|i: int| 0 <= i < h.len() implies ('0' <= #[trigger] h[i] && h[i] <= '9') || (
        'a' <= h[i] && h[i] <= 'f') by {
            if i >= 2 {
                assert(h[i] == t[i - 2]);
            }
        }
        assert forall|i: int| 0 <= i < data.len() implies hex_value(#[trigger] h[2 * i]) * 16
            + hex_value(h[2 * i + 1]) == data[i] by {
            if i > 0 {
                assert(h[2 * i] == t[2 * (i - 1)]);
                assert(h[2 * i + 1] == t[2 * (i - 1) + 1]);
                assert(data[i] == rest[i - 1]);
            } else {
                assert(hex_value(hex_digit(b / 16)) == b / 16);
                assert(hex_value(hex_digit(b % 16)) == b % 16);
            }
        }
    }
}

/// The value of a lowercase hex digit.
pub open spec fn hex_value(c: char) -> int {
    if '0' <= c && c <= '9' {
        c as int - '0' as int
    } else {
        c as int - 'a' as int + 10
    }
}

} // verus!
