use vedette::probe::{detect_tech, detect_tech_in, extract_title, sorted_unique, title_from_capture};

fn s(x: &str) -> String {
    x.to_string()
}

#[test]
fn title_is_whitespace_normalized() {
    let body = "<html><head><TITLE>\n  Hello \t  World \r\n</title></head></html>";
    assert_eq!(extract_title(body), Some(s("Hello World")));
}

#[test]
fn title_with_attributes_and_first_match() {
    let body = "<title lang=\"en\">First</title><title>Second</title>";
    assert_eq!(extract_title(body), Some(s("First")));
}

#[test]
fn title_spans_lines() {
    let body = "<Title>\nline one\nline two\n</TITLE>";
    assert_eq!(extract_title(body), Some(s("line one line two")));
}

#[test]
fn no_title() {
    assert_eq!(extract_title("<html><body>nothing</body></html>"), None);
    assert_eq!(extract_title("<title>unclosed"), None);
    assert_eq!(extract_title(""), None);
}

#[test]
fn blank_title_is_none() {
    assert_eq!(extract_title("<title> \n\t </title>"), None);
    assert_eq!(extract_title("<title></title>"), None);
    assert_eq!(title_from_capture("   "), None);
}

#[test]
fn long_title_is_cut_to_300_chars() {
    let word = "é".repeat(400);
    let body = format!("<title>{}</title>", word);
    let t = extract_title(&body).unwrap();
    assert_eq!(t.chars().count(), 300);
    assert_eq!(t, "é".repeat(300));
}

#[test]
fn title_from_capture_collapses_unicode_whitespace() {
    assert_eq!(title_from_capture("\u{3000}a\u{a0}\u{2003}b  c\u{85}"), Some(s("a b c")));
    assert_eq!(title_from_capture("x"), Some(s("x")));
}

#[test]
fn tech_from_headers_then_markers() {
    let body = "<div id=__NUXT></div><script src=/wp-content/x.js></script> React";
    let tech = detect_tech(Some("nginx"), Some("PHP/8.1"), body);
    assert_eq!(tech, vec![s("nginx"), s("PHP/8.1"), s("WordPress"), s("Nuxt.js"), s("React")]);
}

#[test]
fn tech_skips_empty_headers_and_repeats() {
    let tech = detect_tech(Some(""), Some("Jenkins"), "Welcome to JENKINS, jenkins!");
    assert_eq!(tech, vec![s("Jenkins")]);
    let tech = detect_tech(None, None, "");
    assert!(tech.is_empty());
}

#[test]
fn tech_all_markers_in_order() {
    let body = "swagger-ui jenkins phpmyadmin kibana grafana x-shopify csrf-param joomla \
                drupal-settings-json react ng-version __nuxt /_next/ wp-content";
    let tech = detect_tech(None, None, body);
    assert_eq!(
        tech,
        vec![
            s("WordPress"),
            s("Next.js"),
            s("Nuxt.js"),
            s("Angular"),
            s("React"),
            s("Drupal"),
            s("Joomla"),
            s("Rails"),
            s("Shopify"),
            s("Grafana"),
            s("Kibana"),
            s("phpMyAdmin"),
            s("Jenkins"),
            s("Swagger"),
        ]
    );
}

#[test]
fn tech_in_is_case_sensitive_on_given_text() {
    assert!(detect_tech_in(None, None, "WP-CONTENT").is_empty());
    assert_eq!(detect_tech_in(None, None, "wp-content"), vec![s("WordPress")]);
}

#[test]
fn addresses_sorted_and_deduplicated() {
    let ips = vec![s("10.0.0.2"), s("10.0.0.10"), s("::1"), s("10.0.0.2"), s("1.1.1.1"), s("::1")];
    let mut expected = ips.clone();
    expected.sort();
    expected.dedup();
    assert_eq!(sorted_unique(ips), expected);
    assert_eq!(sorted_unique(vec![]), Vec::<String>::new());
    assert_eq!(
        sorted_unique(vec![s("b"), s("a"), s("ab"), s("é"), s("z")]),
        vec![s("a"), s("ab"), s("b"), s("z"), s("é")]
    );
}

#[test]
fn tech_ignores_ascii_case() {
    let body = "<script src=/_NEXT/x.js></script> Powered by Grafana";
    assert_eq!(
        detect_tech(None, None, body),
        detect_tech(None, None, &body.to_ascii_uppercase())
    );
    assert_eq!(detect_tech(None, None, body), vec![s("Next.js"), s("Grafana")]);
}

#[test]
fn more_text_keeps_tech() {
    let body = "kibana";
    let more = format!("{} and jenkins", body);
    assert_eq!(detect_tech(Some("x"), None, body), vec![s("x"), s("Kibana")]);
    assert_eq!(detect_tech(Some("x"), None, &more), vec![s("x"), s("Kibana"), s("Jenkins")]);
}

#[test]
fn non_ascii_lowercasing() {
    assert_eq!(detect_tech(None, None, "JÖOMLA JOOMLA"), vec![s("Joomla")]);
}

#[test]
fn lowercasing_beyond_ascii() {
    assert_eq!(detect_tech(None, None, "JEN\u{212A}INS"), vec![s("Jenkins")]);
    assert_eq!(detect_tech(None, None, "ΑΣ JOOMLA ΑΣ"), vec![s("Joomla")]);
    assert_eq!(detect_tech(None, None, "phpmyadmİn"), Vec::<String>::new());
}
