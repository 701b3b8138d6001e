//! Output schema for a single probe result.
//!
//! This is the shared host/service record the rest of the suite speaks: one record per
//! input host, written as one line of JSON. Keep it stable and additive.

use vstd::prelude::*;

verus! {

/// The result of probing one input host.
#[derive(Debug, Clone)]
pub struct ProbeResult {
    /// The raw input line we were given (e.g. `admin.example.com`).
    pub input: String,
    /// Whether we got any HTTP response at all.
    pub ok: bool,
    /// Final URL after following redirects (the one that produced the response).
    pub url: Option<String>,
    pub scheme: Option<String>,
    pub host: String,
    pub port: Option<u16>,
    pub status: Option<u16>,
    pub title: Option<String>,
    pub server: Option<String>,
    pub content_type: Option<String>,
    pub content_length: Option<u64>,
    /// Number of redirects followed to reach `url`.
    pub redirects: Option<usize>,
    /// Resolved IP addresses for the host.
    pub ips: Vec<String>,
    /// Best-effort technology guesses (from headers + body markers).
    pub tech: Vec<String>,
    /// SHA-256 of the response body, in lowercase hex.
    pub body_sha256: Option<String>,
    /// Round-trip time for the successful request, in milliseconds.
    pub response_time_ms: Option<u128>,
    /// Populated when `ok` is false: the last error encountered.
    pub error: Option<String>,
    /// RFC 3339 timestamp of when the probe completed.
    pub timestamp: String,
}

/// The chars of an optional `String`.
pub open spec fn opt_string_view(o: Option<String>) -> Option<Seq<char>> {
    match o {
        Some(s) => Some(s@),
        None => None,
    }
}

/// `r` is the record of a probe of `input` (host `host`) that got no response, with
/// `error` as the last error: nothing but these three and the timestamp is filled in.
pub open spec fn is_failure_record(r: ProbeResult, input: Seq<char>, host: Seq<char>, error: Seq<char>) -> bool {
    &&& r.input@ == input
    &&& !r.ok
    &&& r.url is None
    &&& r.scheme is None
    &&& r.host@ == host
    &&& r.port is None
    &&& r.status is None
    &&& r.title is None
    &&& r.server is None
    &&& r.content_type is None
    &&& r.content_length is None
    &&& r.redirects is None
    &&& r.ips@.len() == 0
    &&& r.tech@.len() == 0
    &&& r.body_sha256 is None
    &&& r.response_time_ms is None
    &&& opt_string_view(r.error) == Some(error)
}

/// The current time as an RFC 3339 string, from `chrono::Utc::now().to_rfc3339()`.
/// It depends on the clock, so nothing is claimed of it.
#[verifier::external_body]
pub(crate) fn now_rfc3339() -> (r: String) {
    chrono::Utc::now().to_rfc3339()
}

impl ProbeResult {
    /// Build a failed result for `input`/`host` with an error message, stamped `timestamp`.
    pub fn failed_at(input: &str, host: &str, error: String, timestamp: String) -> (r: ProbeResult)
        ensures
            is_failure_record(r, input@, host@, error@),
            r.timestamp@ == timestamp@,
    {
        ProbeResult {
            input: input.to_owned(),
            ok: false,
            url: None,
            scheme: None,
            host: host.to_owned(),
            port: None,
            status: None,
            title: None,
            server: None,
            content_type: None,
            content_length: None,
            redirects: None,
            ips: Vec::new(),
            tech: Vec::new(),
            body_sha256: None,
            response_time_ms: None,
            error: Some(error),
            timestamp,
        }
    }

    /// Build a failed result for `input`/`host` with an error message, stamped now.
    pub fn failed(input: &str, host: &str, error: String) -> (r: ProbeResult)
        ensures
            is_failure_record(r, input@, host@, error@),
    {
        ProbeResult::failed_at(input, host, error, now_rfc3339())
    }
}

} // verus!
