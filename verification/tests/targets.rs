use vedette::probe::{
    build_url, default_port, parse_input, split_host_port, split_host_port_opt, url_target,
    Target,
};
use vedette::ProbeOptions;

fn cands(t: &Target) -> Vec<(String, u16)> {
    t.candidates.clone()
}

fn s(x: &str) -> String {
    x.to_string()
}

#[test]
fn default_port_by_scheme() {
    assert_eq!(default_port("http"), 80);
    assert_eq!(default_port("https"), 443);
    assert_eq!(default_port("HTTP"), 443);
    assert_eq!(default_port(""), 443);
    assert_eq!(default_port("ftp"), 443);
}

#[test]
fn bare_host_gets_one_candidate_per_scheme() {
    let opts = ProbeOptions::default();
    let t = parse_input("example.com", &opts.schemes);
    assert_eq!(t.host, "example.com");
    assert_eq!(cands(&t), vec![(s("https"), 443), (s("http"), 80)]);
}

#[test]
fn bare_host_with_port_uses_it_for_every_scheme() {
    let opts = ProbeOptions::default();
    let t = parse_input("  example.com:8080 \n", &opts.schemes);
    assert_eq!(t.host, "example.com");
    assert_eq!(cands(&t), vec![(s("https"), 8080), (s("http"), 8080)]);
}

#[test]
fn full_url_is_the_single_candidate_with_lowercased_scheme() {
    let opts = ProbeOptions::default();
    let t = parse_input("  HTTP://User:pw@Example.com:8443/path?x=1#frag ", &opts.schemes);
    assert_eq!(t.host, "Example.com");
    assert_eq!(cands(&t), vec![(s("http"), 8443)]);
}

#[test]
fn full_url_without_port_uses_scheme_default() {
    let opts = ProbeOptions::default();
    let t = parse_input("https://host.example/login", &opts.schemes);
    assert_eq!(t.host, "host.example");
    assert_eq!(cands(&t), vec![(s("https"), 443)]);
    let t = parse_input("HtTp://host.example?q", &opts.schemes);
    assert_eq!(cands(&t), vec![(s("http"), 80)]);
}

#[test]
fn unparsable_port_stays_in_host() {
    let opts = ProbeOptions::default();
    let t = parse_input("http://host:notaport/", &opts.schemes);
    assert_eq!(t.host, "host:notaport");
    assert_eq!(cands(&t), vec![(s("http"), 80)]);
    let t = parse_input("host:99999", &opts.schemes);
    assert_eq!(t.host, "host:99999");
    assert_eq!(cands(&t), vec![(s("https"), 443), (s("http"), 80)]);
}

#[test]
fn port_may_have_plus_sign() {
    let schemes = vec![s("http")];
    let t = parse_input("host:+81", &schemes);
    assert_eq!(t.host, "host");
    assert_eq!(cands(&t), vec![(s("http"), 81)]);
    let t = parse_input("host:+", &schemes);
    assert_eq!(t.host, "host:+");
}

#[test]
fn no_schemes_no_candidates() {
    let t = parse_input("example.com", &[]);
    assert_eq!(t.host, "example.com");
    assert!(t.candidates.is_empty());
}

#[test]
fn split_host_port_cases() {
    assert_eq!(split_host_port_opt("a.b:1"), (s("a.b"), Some(1)));
    assert_eq!(split_host_port_opt("u@a.b"), (s("a.b"), None));
    assert_eq!(split_host_port_opt("u@v@a.b:65535"), (s("a.b"), Some(65535)));
    assert_eq!(split_host_port_opt("a.b:65536"), (s("a.b:65536"), None));
    assert_eq!(split_host_port_opt("[::1]:8080"), (s("[::1]"), Some(8080)));
    assert_eq!(split_host_port_opt(""), (s(""), None));
    assert_eq!(split_host_port("a.b", "http"), (s("a.b"), 80));
    assert_eq!(split_host_port("a.b", "https"), (s("a.b"), 443));
    assert_eq!(split_host_port("a.b:9", "https"), (s("a.b"), 9));
}

#[test]
fn url_target_takes_authority_up_to_delimiter() {
    let t = url_target(s("https"), "h.example:444#x");
    assert_eq!(t.host, "h.example");
    assert_eq!(cands(&t), vec![(s("https"), 444)]);
}

#[test]
fn build_url_omits_default_port() {
    assert_eq!(build_url("http", "a.example", 80), "http://a.example/");
    assert_eq!(build_url("https", "a.example", 443), "https://a.example/");
    assert_eq!(build_url("https", "a.example", 8443), "https://a.example:8443/");
    assert_eq!(build_url("http", "a.example", 443), "http://a.example:443/");
    assert_eq!(build_url("http", "a.example", 0), "http://a.example:0/");
}

#[test]
fn built_url_parses_back() {
    let opts = ProbeOptions::default();
    for (scheme, host, port) in [
        ("http", "a.example", 80u16),
        ("https", "a.example", 443),
        ("https", "10.0.0.1", 8443),
        ("http", "b", 65535),
        ("HTTP", "c", 8080),
    ] {
        let url = build_url(scheme, host, port);
        let t = parse_input(&url, &opts.schemes);
        assert_eq!(t.host, host);
        assert_eq!(cands(&t), vec![(scheme.to_lowercase(), port)]);
    }
}
