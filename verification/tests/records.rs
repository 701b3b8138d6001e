use std::path::PathBuf;
use vedette::config::{concurrency_limit, schemes_for, Tally};
use vedette::fetch::{sends_referer, BodyCap, RedirectChain, RedirectStep};
use vedette::input::{host_from_line, host_from_queue_item, Source};
use vedette::probe::{ProbeRun, ProbeStep};
use vedette::response::{result_from_response_at, ResponseParts};
use vedette::{ProbeOptions, ProbeResult};

fn s(x: &str) -> String {
    x.to_string()
}

fn parts(body: &[u8]) -> ResponseParts {
    ResponseParts {
        status: 200,
        final_url: s("https://example.com/"),
        redirects: 0,
        server: Some(s("nginx")),
        powered_by: None,
        content_type: Some(s("text/html")),
        content_length: None,
        body: body.to_vec(),
        elapsed_ms: 42,
    }
}

#[test]
fn default_options() {
    let o = ProbeOptions::default();
    assert_eq!(o.schemes, vec![s("https"), s("http")]);
    assert_eq!(o.retries, 1);
    assert_eq!(o.max_body, 2 * 1024 * 1024);
}

#[test]
fn failed_record() {
    let r = ProbeResult::failed_at("in", "h", s("boom"), s("2024-01-01T00:00:00+00:00"));
    assert_eq!(r.input, "in");
    assert!(!r.ok);
    assert_eq!(r.host, "h");
    assert_eq!(r.error, Some(s("boom")));
    assert_eq!(r.timestamp, "2024-01-01T00:00:00+00:00");
    assert!(r.url.is_none() && r.scheme.is_none() && r.port.is_none() && r.status.is_none());
    assert!(r.ips.is_empty() && r.tech.is_empty() && r.body_sha256.is_none());
    let r = ProbeResult::failed("in", "h", s("boom"));
    assert_eq!(r.error, Some(s("boom")));
    assert!(r.timestamp.contains('T'));
}

#[test]
fn retries_then_next_candidate_then_exhausted() {
    let opts = ProbeOptions::default();
    let mut run = ProbeRun::start("example.com", &opts);
    assert_eq!(run.last_err(), "no candidates");
    let mut requested = Vec::new();
    let mut pauses = Vec::new();
    loop {
        match run.next_step() {
            ProbeStep::Request { url, scheme, port } => {
                requested.push((url, scheme, port));
                pauses.push(run.record_failure(format!("err{}", requested.len())));
            }
            ProbeStep::Exhausted => break,
        }
    }
    assert_eq!(
        requested,
        vec![
            (s("https://example.com/"), s("https"), 443),
            (s("https://example.com/"), s("https"), 443),
            (s("http://example.com/"), s("http"), 80),
            (s("http://example.com/"), s("http"), 80),
        ]
    );
    assert_eq!(pauses, vec![true, false, true, false]);
    assert_eq!(run.lookup_address(), Some((s("example.com"), 443)));
    let r = run.failure();
    assert_eq!(r.error, Some(s("err4")));
    assert_eq!(r.host, "example.com");
    assert_eq!(r.input, "example.com");
}

#[test]
fn zero_retries_and_explicit_port() {
    let opts = ProbeOptions { schemes: vec![s("https"), s("http")], retries: 0, max_body: 0 };
    let mut run = ProbeRun::start("h:8080", &opts);
    let mut urls = Vec::new();
    while let ProbeStep::Request { url, .. } = run.next_step() {
        urls.push(url);
        assert!(!run.record_failure(s("x")));
    }
    assert_eq!(urls, vec![s("https://h:8080/"), s("http://h:8080/")]);
}

#[test]
fn no_candidates_is_exhausted_at_once() {
    let opts = ProbeOptions { schemes: vec![], retries: 3, max_body: 0 };
    let run = ProbeRun::start("h", &opts);
    assert!(matches!(run.next_step(), ProbeStep::Exhausted));
    assert_eq!(run.lookup_address(), None);
    assert_eq!(run.failure().error, Some(s("no candidates")));
}

#[test]
fn response_record() {
    let body = b"<html><title> Hi </title>wp-content</html>";
    let r = result_from_response_at(
        "example.com",
        "example.com",
        "https",
        443,
        parts(body),
        vec![s("1.2.3.4")],
        0,
        s("ts"),
    );
    assert!(r.ok);
    assert_eq!(r.url, Some(s("https://example.com/")));
    assert_eq!(r.scheme, Some(s("https")));
    assert_eq!(r.port, Some(443));
    assert_eq!(r.status, Some(200));
    assert_eq!(r.title, Some(s("Hi")));
    assert_eq!(r.server, Some(s("nginx")));
    assert_eq!(r.content_type, Some(s("text/html")));
    assert_eq!(r.content_length, Some(body.len() as u64));
    assert_eq!(r.redirects, Some(0));
    assert_eq!(r.ips, vec![s("1.2.3.4")]);
    assert_eq!(r.tech, vec![s("nginx"), s("WordPress")]);
    assert_eq!(r.response_time_ms, Some(42));
    assert_eq!(r.error, None);
    assert_eq!(r.timestamp, "ts");
}

#[test]
fn body_hash_is_sha256_hex_of_capped_body() {
    let r = result_from_response_at("h", "h", "https", 443, parts(b"hello world"), vec![], 5, s("t"));
    assert_eq!(
        r.body_sha256,
        Some(s("2cf24dba5fb0a30e26e83b2ac5b9e29e1b161e5c1fa7425e73043362938b9824"))
    );
    assert_eq!(r.content_length, Some(11));
    let r = result_from_response_at("h", "h", "https", 443, parts(b""), vec![], 0, s("t"));
    assert_eq!(
        r.body_sha256,
        Some(s("e3b0c44298fc1c149afbf4c8996fb92427ae41e4649b934ca495991b7852b855"))
    );
}

#[test]
fn cap_hides_later_title() {
    let body = b"0123456789<title>late</title>";
    let r = result_from_response_at("h", "h", "https", 443, parts(body), vec![], 10, s("t"));
    assert_eq!(r.title, None);
    let r = result_from_response_at("h", "h", "https", 443, parts(body), vec![], 0, s("t"));
    assert_eq!(r.title, Some(s("late")));
}

#[test]
fn invalid_utf8_is_replaced() {
    let body = b"\xff<title>ok\xfe</title>";
    let r = result_from_response_at("h", "h", "https", 443, parts(body), vec![], 0, s("t"));
    assert_eq!(r.title, Some(s("ok\u{fffd}")));
}

#[test]
fn content_length_header() {
    let mut p = parts(b"abc");
    p.content_length = Some(s("123"));
    let r = result_from_response_at("h", "h", "https", 443, p, vec![], 0, s("t"));
    assert_eq!(r.content_length, Some(123));
    let mut p = parts(b"abc");
    p.content_length = Some(s(" 12"));
    let r = result_from_response_at("h", "h", "https", 443, p, vec![], 0, s("t"));
    assert_eq!(r.content_length, Some(3));
}

#[test]
fn redirect_count_is_the_hops_followed() {
    let mut p = parts(b"");
    p.redirects = 3;
    p.final_url = s("https://example.com/login");
    let r = result_from_response_at("h", "example.com", "https", 443, p, vec![], 0, s("t"));
    assert_eq!(r.redirects, Some(3));
    assert_eq!(r.url, Some(s("https://example.com/login")));
}

#[test]
fn hash_is_64_hex_chars() {
    let r = result_from_response_at("h", "h", "https", 443, parts(b"abc"), vec![], 0, s("t"));
    let h = r.body_sha256.unwrap();
    assert_eq!(h.len(), 64);
    assert!(h.chars().all(|c| c.is_ascii_digit() || ('a'..='f').contains(&c)));
}

#[test]
fn redirects_followed_up_to_ten() {
    let mut chain = RedirectChain::new();
    for i in 1..=10 {
        match chain.on_response(301, Some(format!("https://x/{i}"))) {
            RedirectStep::Follow(u) => assert_eq!(u, format!("https://x/{i}")),
            _ => panic!("expected to follow"),
        }
        assert_eq!(chain.hops, i);
    }
    assert!(matches!(chain.on_response(302, Some(s("https://x/11"))), RedirectStep::TooManyRedirects));
    assert_eq!(chain.hops, 10);
}

#[test]
fn redirect_decisions() {
    let mut chain = RedirectChain::new();
    assert!(matches!(chain.on_response(200, Some(s("https://x/"))), RedirectStep::Done));
    assert!(matches!(chain.on_response(301, None), RedirectStep::Done));
    assert!(matches!(chain.on_response(304, Some(s("https://x/"))), RedirectStep::Done));
    assert!(matches!(chain.on_response(308, Some(s("ftp://x/"))), RedirectStep::BadScheme(ref u) if u == "ftp://x/"));
    assert!(matches!(chain.on_response(303, Some(s("http://x/"))), RedirectStep::Follow(_)));
    assert!(matches!(chain.on_response(307, Some(s("https://x/"))), RedirectStep::Follow(_)));
    assert_eq!(chain.hops, 2);
}

#[test]
fn body_cap_stops_reading() {
    let mut cap = BodyCap::new(10);
    assert!(!cap.is_full());
    assert_eq!(cap.accept(4), 4);
    assert_eq!(cap.accept(4), 4);
    assert!(!cap.is_full());
    assert_eq!(cap.accept(4), 2);
    assert!(cap.is_full());
    assert_eq!(cap.accept(4), 0);
    let mut cap = BodyCap::new(0);
    assert_eq!(cap.accept(1 << 20), 1 << 20);
    assert!(!cap.is_full());
}

#[test]
fn input_lines() {
    assert_eq!(host_from_line("  example.com \r"), Some(s("example.com")));
    assert_eq!(host_from_line("   "), None);
    assert_eq!(host_from_line(""), None);
    assert_eq!(host_from_line("  # comment"), None);
    assert_eq!(host_from_line("a#b"), Some(s("a#b")));
    assert_eq!(host_from_queue_item(" #x "), Some(s("#x")));
    assert_eq!(host_from_queue_item("\t\n"), None);
}

#[test]
fn source_selection() {
    let src = Source::from_args(Some(s("redis://x")), s("q"), Some(PathBuf::from("f")));
    assert!(matches!(src, Source::Redis { ref url, ref queue } if url == "redis://x" && queue == "q"));
    let src = Source::from_args(None, s("q"), Some(PathBuf::from("f")));
    assert!(matches!(src, Source::File(ref p) if p == &PathBuf::from("f")));
    let src = Source::from_args(None, s("q"), None);
    assert!(matches!(src, Source::Stdin));
}

#[test]
fn scheme_flags_and_concurrency() {
    assert_eq!(schemes_for(true, false), vec![s("https")]);
    assert_eq!(schemes_for(false, true), vec![s("http")]);
    assert_eq!(schemes_for(false, false), vec![s("https"), s("http")]);
    assert_eq!(concurrency_limit(0), 1);
    assert_eq!(concurrency_limit(50), 50);
}

#[test]
fn tally_summary() {
    let mut t = Tally::new();
    t.record(true);
    t.record(false);
    t.record(true);
    assert_eq!(t.summary(), "vedette: probed 3 host(s), 2 responded");
    assert_eq!(Tally::new().summary(), "vedette: probed 0 host(s), 0 responded");
}

#[test]
fn referer_only_not_from_https_to_http() {
    assert!(sends_referer("http://a/", "http://b/"));
    assert!(sends_referer("http://a/", "https://b/"));
    assert!(sends_referer("https://a/", "https://b/"));
    assert!(!sends_referer("https://a/", "http://b/"));
}

#[test]
fn relative_location_is_resolved() {
    let mut chain = RedirectChain::new();
    match chain.on_reply(302, "https://a.example/x/y", Some("../z?q=1")) {
        RedirectStep::Follow(u) => assert_eq!(u, "https://a.example/z?q=1"),
        _ => panic!("expected to follow"),
    }
    assert_eq!(chain.hops, 1);
    assert!(matches!(chain.on_reply(302, "https://a.example/", Some("mailto:x@y")), RedirectStep::BadScheme(_)));
    assert!(matches!(chain.on_reply(302, "not a url", Some("/z")), RedirectStep::Done));
    assert!(matches!(chain.on_reply(200, "https://a.example/", Some("/z")), RedirectStep::Done));
}
