//! Probe targets: turning an input line into a host and candidate URLs.

use vstd::prelude::*;
use vstd::slice::{slice_subrange, slice_to_vec};
use crate::model::{is_failure_record, ProbeResult};
use crate::text::{
    chars_eq, chars_of, decimal, find_chars, find_from, first_occurrence, is_digit, is_ws,
    last_index_of, last_index_of_char, lemma_decimal_digits, lemma_find_from, lemma_last_index_of,
    lemma_parse_decimal_roundtrip, to_lower, all_ascii, ascii_lower, ascii_lower_char, ascii_upper,
    lower_each, lower_char, lowercase_chars, lemma_lower_each_append,
    ascii_upper_char, contains_seq, contains_chars, chars_less, chars_lt,
    lemma_chars_lt_order, occurs_at, push_decimal, trim_start, is_whitespace,
    parse_decimal, parse_unsigned, string_from_chars, to_lowercase, trim, trim_chars,
};

verus! {

/// A normalized probe target derived from one input line.
pub struct Target {
    /// The host to probe.
    pub host: String,
    /// Ordered (scheme, port) candidates to attempt.
    pub candidates: Vec<(String, u16)>,
}

/// The chars of each candidate's scheme, with its port.
pub open spec fn candidates_view(c: Seq<(String, u16)>) -> Seq<(Seq<char>, u16)> {
    c.map_values(|p: (String, u16)| (p.0@, p.1))
}

impl View for Target {
    type V = (Seq<char>, Seq<(Seq<char>, u16)>);

    open spec fn view(&self) -> Self::V {
        (self.host@, candidates_view(self.candidates@))
    }
}

/// The port a scheme uses when none is given: 80 for `http`, 443 otherwise.
pub open spec fn scheme_default_port(scheme: Seq<char>) -> u16 {
    if scheme == "http"@ {
        80
    } else {
        443
    }
}

/// The default port of `scheme`.
pub fn default_port(scheme: &str) -> (port: u16)
    ensures
        port == scheme_default_port(scheme@),
{
    let s = chars_of(scheme);
    let http = chars_of("http");
    if chars_eq(s.as_slice(), http.as_slice()) {
        80
    } else {
        443
    }
}

/// The chars that end the authority part of a URL.
pub open spec fn is_url_delim(c: char) -> bool {
    c == '/' || c == '?' || c == '#'
}

/// The part of `s` before its first `/`, `?` or `#`.
pub open spec fn before_delim(s: Seq<char>) -> Seq<char>
    decreases s.len(),
{
    if s.len() == 0 {
        s
    } else if is_url_delim(s[0]) {
        Seq::empty()
    } else {
        seq![s[0]] + before_delim(s.drop_first())
    }
}

/// The part of `s` after its last `@`, or all of `s`.
pub open spec fn after_last_at(s: Seq<char>) -> Seq<char> {
    match last_index_of(s, '@') {
        Some(i) => s.subrange(i + 1, s.len() as int),
        None => s,
    }
}

/// Host and explicit port of an authority: user info before the last `@` is dropped, and
/// the text after the last `:` is the port when it reads as a `u16`.
pub open spec fn host_port_opt(authority: Seq<char>) -> (Seq<char>, Option<u16>) {
    let a = after_last_at(authority);
    match last_index_of(a, ':') {
        Some(i) => match parse_unsigned(a.subrange(i + 1, a.len() as int), 65535) {
            Some(p) => (a.subrange(0, i), Some(p as u16)),
            None => (a, None),
        },
        None => (a, None),
    }
}

/// Host and port of an authority, the port defaulting to that of `scheme`.
pub open spec fn host_port(authority: Seq<char>, scheme: Seq<char>) -> (Seq<char>, u16) {
    let (h, p) = host_port_opt(authority);
    (
        h,
        match p {
            Some(p) => p,
            None => scheme_default_port(scheme),
        },
    )
}

/// The target of a full URL whose scheme, already lowercased, is `scheme` and whose text
/// after `://` is `rest`.
pub open spec fn url_target_view(scheme: Seq<char>, rest: Seq<char>) -> (Seq<char>, Seq<(Seq<char>, u16)>) {
    let (h, p) = host_port(before_delim(rest), scheme);
    (h, seq![(scheme, p)])
}

/// The target of an input line: a full URL (`scheme://authority...`) gives its one
/// candidate; a bare `host` or `host:port` gives one candidate per scheme, in order.
pub open spec fn input_target_view(input: Seq<char>, schemes: Seq<Seq<char>>) -> (Seq<char>, Seq<(Seq<char>, u16)>) {
    let t = trim(input);
    match first_occurrence(t, "://"@) {
        Some(idx) => url_target_view(to_lower(t.subrange(0, idx)), t.subrange(idx + 3, t.len() as int)),
        None => {
            let (h, p) = host_port_opt(t);
            (
                h,
                schemes.map_values(
                    |s: Seq<char>|
                        (
                            s,
                            match p {
                                Some(p) => p,
                                None => scheme_default_port(s),
                            },
                        ),
                ),
            )
        },
    }
}

/// The part of `s` before its first `/`, `?` or `#`.
fn authority_chars(s: &[char]) -> (r: Vec<char>)
    ensures
        r@ == before_delim(s@),
{
    let n = s.len();
    let mut k: usize = 0;
    assert(s@.skip(0) =~= s@);
    assert(s@.take(0) + before_delim(s@) =~= before_delim(s@));
    while k < n && !(s[k] == '/' || s[k] == '?' || s[k] == '#')
        invariant
            n == s@.len(),
            0 <= k <= n,
            before_delim(s@) == s@.take(k as int) + before_delim(s@.skip(k as int)),
        decreases n - k,
    {
        let ghost tail = s@.skip(k as int);
        assert(tail.drop_first() =~= s@.skip(k + 1));
        assert(s@.take(k + 1) =~= s@.take(k as int) + seq![tail[0]]);
        k = k + 1;
    }
    if k < n {
        assert(is_url_delim(s@.skip(k as int)[0]));
    } else {
        assert(s@.skip(k as int) =~= Seq::<char>::empty());
    }
    assert(before_delim(s@) =~= s@.take(k as int));
    slice_to_vec(slice_subrange(s, 0, k))
}

/// Splits an authority into host and explicit port: user info up to the last `@` is
/// dropped, and the text after the last `:` becomes the port when it parses as a `u16`;
/// otherwise the whole (user-info-free) authority is the host.
pub fn split_host_port_opt(authority: &str) -> (r: (String, Option<u16>))
    ensures
        (r.0@, r.1) == host_port_opt(authority@),
{
    let all = chars_of(authority);
    let a: Vec<char> = match last_index_of_char(all.as_slice(), '@') {
        Some(i) => slice_to_vec(slice_subrange(all.as_slice(), i + 1, all.len())),
        None => all,
    };
    assert(a@ == after_last_at(authority@));
    match last_index_of_char(a.as_slice(), ':') {
        Some(i) => {
            let digits = slice_subrange(a.as_slice(), i + 1, a.len());
            match parse_decimal(digits, 65535) {
                Some(p) => {
                    let host = string_from_chars(slice_subrange(a.as_slice(), 0, i));
                    (host, Some(p as u16))
                },
                None => (string_from_chars(a.as_slice()), None),
            }
        },
        None => (string_from_chars(a.as_slice()), None),
    }
}

/// Splits an authority into host and port, the port defaulting to that of `scheme`.
pub fn split_host_port(authority: &str, scheme: &str) -> (r: (String, u16))
    ensures
        (r.0@, r.1) == host_port(authority@, scheme@),
{
    let (h, p) = split_host_port_opt(authority);
    match p {
        Some(port) => (h, port),
        None => (h, default_port(scheme)),
    }
}

/// The target of a full URL, given its scheme (already lowercased) and its text after `://`.
pub fn url_target(scheme: String, rest: &str) -> (t: Target)
    ensures
        t@ == url_target_view(scheme@, rest@),
{
    let rest_chars = chars_of(rest);
    let authority = string_from_chars(authority_chars(rest_chars.as_slice()).as_slice());
    let (host, port) = split_host_port(authority.as_str(), scheme.as_str());
    let mut candidates: Vec<(String, u16)> = Vec::new();
    candidates.push((scheme, port));
    let t = Target { host, candidates };
    assert(candidates_view(t.candidates@) =~= url_target_view(scheme@, rest@).1);
    t
}

/// Parses an input line into a target. Accepts `host`, `host:port`, or a full URL; a full
/// URL is used verbatim as the single candidate, with its scheme lowercased.
pub fn parse_input(input: &str, schemes: &[String]) -> (t: Target)
    ensures
        t@ == input_target_view(input@, schemes@.map_values(|s: String| s@)),
{
    let raw = chars_of(input);
    let trimmed = trim_chars(raw.as_slice());
    let sep = chars_of("://");
    proof {
        reveal_strlit("://");
    }
    match find_chars(trimmed.as_slice(), sep.as_slice()) {
        Some(idx) => {
            let tl = trimmed.len();
            assert(idx + 3 <= tl);
            let scheme_raw = string_from_chars(slice_subrange(trimmed.as_slice(), 0, idx));
            let scheme = to_lowercase(scheme_raw.as_str());
            let rest = string_from_chars(
                slice_subrange(trimmed.as_slice(), idx + 3, tl),
            );
            url_target(scheme, rest.as_str())
        },
        None => {
            let bare = string_from_chars(trimmed.as_slice());
            let (host, explicit_port) = split_host_port_opt(bare.as_str());
            let ghost sv = schemes@.map_values(|s: String| s@);
            let mut candidates: Vec<(String, u16)> = Vec::new();
            let mut i: usize = 0;
            while i < schemes.len()
                invariant
                    0 <= i <= schemes@.len(),
                    sv == schemes@.map_values(|s: String| s@),
                    candidates_view(candidates@) =~= sv.take(i as int).map_values(
                        |s: Seq<char>|
                            (
                                s,
                                match explicit_port {
                                    Some(p) => p,
                                    None => scheme_default_port(s),
                                },
                            ),
                    ),
                decreases schemes@.len() - i,
            {
                let port = match explicit_port {
                    Some(p) => p,
                    None => default_port(schemes[i].as_str()),
                };
                let ghost before = candidates@;
                let name = schemes[i].clone();
                assert(name@ == sv[i as int]);
                candidates.push((name, port));
                assert(candidates@ =~= before.push((name, port)));
                assert(candidates_view(candidates@) =~= candidates_view(before).push((name@, port)));
                assert(sv.take(i + 1) =~= sv.take(i as int).push(sv[i as int]));
                i = i + 1;
            }
            assert(sv.take(i as int) =~= sv);
            Target { host, candidates }
        },
    }
}

} // verus!

verus! {

/// The URL text for a candidate: `scheme://host/`, with `:port` after the host when the
/// port is not the scheme's default.
pub open spec fn url_text(scheme: Seq<char>, host: Seq<char>, port: u16) -> Seq<char> {
    scheme + "://"@ + host + (if port == scheme_default_port(scheme) {
        Seq::<char>::empty()
    } else {
        seq![':'] + decimal(port as nat)
    }) + "/"@
}

/// The URL to request for one candidate.
pub fn build_url(scheme: &str, host: &str, port: u16) -> (url: String)
    ensures
        url@ == url_text(scheme@, host@, port),
{
    let mut out = chars_of(scheme);
    let mut sep = chars_of("://");
    out.append(&mut sep);
    let mut h = chars_of(host);
    out.append(&mut h);
    if port != default_port(scheme) {
        out.push(':');
        push_decimal(&mut out, port as u64);
    }
    let mut slash = chars_of("/");
    out.append(&mut slash);
    let url = string_from_chars(out.as_slice());
    assert(url@ =~= url_text(scheme@, host@, port));
    url
}

/// The authority of `a + b` ends inside `b` when `a` holds no `/`, `?` or `#`.
proof fn lemma_before_delim_append(a: Seq<char>, b: Seq<char>)
    requires
        forall|i: int| 0 <= i < a.len() ==> !is_url_delim(#[trigger] a[i]),
    ensures
        before_delim(a + b) == a + before_delim(b),
    decreases a.len(),
{
    if a.len() > 0 {
        assert((a + b).drop_first() =~= a.drop_first() + b);
        assert forall|i: int| 0 <= i < a.drop_first().len() implies !is_url_delim(
            #[trigger] a.drop_first()[i],
        ) by {
            assert(a.drop_first()[i] == a[i + 1]);
        }
        lemma_before_delim_append(a.drop_first(), b);
        assert(a =~= seq![a[0]] + a.drop_first());
        assert((a + b)[0] == a[0]);
        assert(a + before_delim(b) =~= seq![a[0]] + (a.drop_first() + before_delim(b)));
    } else {
        assert(a + b =~= b);
        assert(a + before_delim(b) =~= before_delim(b));
    }
}

/// Whether `scheme` is made of lowercase ASCII letters, digits, `+`, `-` and `.`.
pub open spec fn is_lowercase_scheme(scheme: Seq<char>) -> bool {
    forall|i: int|
        0 <= i < scheme.len() ==> ('a' <= #[trigger] scheme[i] && scheme[i] <= 'z') || ('0'
            <= scheme[i] && scheme[i] <= '9') || scheme[i] == '+' || scheme[i] == '-' || scheme[i]
            == '.'
}

/// Parsing the URL that `build_url` makes gives back its host, its (lowercased) scheme,
/// and its port; the port comes back unchanged whenever the URL spells it out or the
/// scheme is already lowercase, and a scheme of lowercase ASCII letters, digits, `+`, `-`
/// and `.` comes back unchanged with its port. The scheme must hold no `:` and no
/// whitespace, and the host no `:`, `@`, `/`, `?` or `#`.
pub proof fn lemma_built_url_parses_back(
    scheme: Seq<char>,
    host: Seq<char>,
    port: u16,
    schemes: Seq<Seq<char>>,
)
    requires
        forall|i: int| 0 <= i < scheme.len() ==> #[trigger] scheme[i] != ':' && !is_ws(scheme[i]),
        forall|i: int|
            0 <= i < host.len() ==> !is_url_delim(#[trigger] host[i]) && host[i] != ':' && host[i]
                != '@',
    ensures
        ({
            let t = input_target_view(url_text(scheme, host, port), schemes);
            &&& t.0 == host
            &&& t.1.len() == 1
            &&& t.1[0].0 == to_lower(scheme)
            &&& (port != scheme_default_port(scheme) || to_lower(scheme) == scheme) ==> t.1[0].1
                == port
            &&& is_lowercase_scheme(scheme) ==> t.1 == seq![(scheme, port)]
        }),
{
    reveal_strlit("://");
    reveal_strlit("/");
    if is_lowercase_scheme(scheme) {
        assert(all_ascii(scheme)) by {
            assert forall|i: int| 0 <= i < scheme.len() implies #[trigger] scheme[i] <= '\x7f' by {
                assert(is_lowercase_scheme(scheme));
            }
        }
        assert(ascii_lower(scheme) =~= scheme);
    }
    let sep = "://"@;
    let explicit = port != scheme_default_port(scheme);
    let dec = decimal(port as nat);
    let port_part = if explicit {
        seq![':'] + dec
    } else {
        Seq::<char>::empty()
    };
    let auth = host + port_part;
    let u = url_text(scheme, host, port);
    let l = scheme.len() as int;
    assert(u =~= scheme + sep + auth + seq!['/']);
    // trimming changes nothing
    assert(!is_ws(u[0])) by {
        if l > 0 {
            assert(u[0] == scheme[0]);
        } else {
            assert(u[0] == ':');
        }
    }
    assert(trim_start(u) == u);
    assert(u.last() == '/');
    assert(trim(u) == u);
    // the first `://` is the one after the scheme
    assert(occurs_at(u, sep, l)) by {
        assert(u.subrange(l, l + 3) =~= sep);
    }
    lemma_find_from(u, sep, 0);
    assert(first_occurrence(u, sep) == Some(l)) by {
        match find_from(u, sep, 0) {
            Some(k) => {
                if k < l {
                    assert(u.subrange(k, k + 3)[0] == ':');
                    assert(u[k] == scheme[k]);
                }
            },
            None => {},
        }
    }
    assert(u.subrange(0, l) =~= scheme);
    let rest = u.subrange(l + 3, u.len() as int);
    assert(rest =~= auth + seq!['/']);
    // the authority is the host and the spelled-out port
    assert forall|i: int| 0 <= i < auth.len() implies !is_url_delim(#[trigger] auth[i]) by {
        if i < host.len() {
            assert(auth[i] == host[i]);
        } else if explicit {
            lemma_decimal_digits(port as nat);
            if i > host.len() {
                assert(auth[i] == dec[i - host.len() - 1]);
                assert(is_digit(dec[i - host.len() - 1]));
            }
        }
    }
    lemma_before_delim_append(auth, seq!['/']);
    assert(before_delim(seq!['/']) == Seq::<char>::empty());
    assert(auth + Seq::<char>::empty() =~= auth);
    assert(before_delim(rest) == auth);
    // no user info
    lemma_last_index_of(auth, '@');
    assert(after_last_at(auth) == auth) by {
        if let Some(i) = last_index_of(auth, '@') {
            if i < host.len() {
                assert(auth[i] == host[i]);
            } else if explicit {
                lemma_decimal_digits(port as nat);
                if i > host.len() {
                    assert(auth[i] == dec[i - host.len() - 1]);
                    assert(is_digit(dec[i - host.len() - 1]));
                }
            }
        }
    }
    lemma_last_index_of(auth, ':');
    if explicit {
        lemma_decimal_digits(port as nat);
        let hl = host.len() as int;
        assert(auth[hl] == ':');
        assert(last_index_of(auth, ':') == Some(hl)) by {
            match last_index_of(auth, ':') {
                Some(i) => {
                    if i < hl {
                        assert(auth[hl] == ':');
                    } else if i > hl {
                        assert(auth[i] == dec[i - hl - 1]);
                        assert(is_digit(dec[i - hl - 1]));
                    }
                },
                None => {},
            }
        }
        assert(auth.subrange(hl + 1, auth.len() as int) =~= dec);
        assert(auth.subrange(0, hl) =~= host);
        lemma_parse_decimal_roundtrip(port as nat, 65535);
    } else {
        assert(auth =~= host);
        assert(last_index_of(auth, ':') is None) by {
            if let Some(i) = last_index_of(auth, ':') {
                assert(auth[i] == host[i]);
            }
        }
    }
}

} // verus!

verus! {

/// The words of `s` (its maximal runs of non-whitespace) joined by single spaces: what
/// `split_whitespace` followed by `join(" ")` gives.
pub open spec fn collapse_ws(s: Seq<char>) -> Seq<char>
    decreases s.len(),
{
    if s.len() == 0 {
        s
    } else {
        let p = s.drop_last();
        let c = s.last();
        let acc = collapse_ws(p);
        if is_ws(c) {
            acc
        } else if acc.len() > 0 && is_ws(p.last()) {
            acc.push(' ').push(c)
        } else {
            acc.push(c)
        }
    }
}

/// The longest title kept, in chars.
pub const MAX_TITLE_CHARS: usize = 300;

/// The title a captured `<title>` body gives: its words joined by single spaces, cut to
/// the first 300 chars; none when it holds no word.
pub open spec fn title_text(raw: Seq<char>) -> Option<Seq<char>> {
    let t = collapse_ws(raw);
    if t.len() == 0 {
        None
    } else if t.len() > MAX_TITLE_CHARS {
        Some(t.take(MAX_TITLE_CHARS as int))
    } else {
        Some(t)
    }
}

/// The words of `s` joined by single spaces.
fn collapse_whitespace(s: &[char]) -> (r: Vec<char>)
    ensures
        r@ == collapse_ws(s@),
{
    let mut out: Vec<char> = Vec::new();
    let mut pending = false;
    let mut i: usize = 0;
    assert(s@.take(0) =~= Seq::<char>::empty());
    while i < s.len()
        invariant
            0 <= i <= s@.len(),
            out@ == collapse_ws(s@.take(i as int)),
            pending == (i > 0 && is_ws(s@[i - 1])),
        decreases s@.len() - i,
    {
        let c = s[i];
        let ghost p = s@.take(i as int);
        assert(s@.take(i + 1).drop_last() =~= p);
        assert(s@.take(i + 1).last() == c);
        if is_whitespace(c) {
            pending = true;
        } else {
            if pending && out.len() > 0 {
                assert(p.last() == s@[i - 1]);
                out.push(' ');
            }
            out.push(c);
            pending = false;
        }
        i = i + 1;
    }
    assert(s@.take(i as int) =~= s@);
    out
}

/// The title a captured `<title>` body gives: whitespace runs collapsed to single spaces,
/// ends trimmed, cut to 300 chars; `None` when nothing but whitespace is left.
pub fn title_from_capture(raw: &str) -> (r: Option<String>)
    ensures
        match r {
            Some(t) => title_text(raw@) == Some(t@),
            None => title_text(raw@) is None,
        },
        r matches Some(t) ==> 0 < t@.len() <= MAX_TITLE_CHARS,
{
    let chars = chars_of(raw);
    let t = collapse_whitespace(chars.as_slice());
    if t.len() == 0 {
        None
    } else if t.len() > MAX_TITLE_CHARS {
        Some(string_from_chars(slice_subrange(t.as_slice(), 0, MAX_TITLE_CHARS)))
    } else {
        Some(string_from_chars(t.as_slice()))
    }
}

/// The pattern that finds a page title: the text between the first `<title ...>` and the
/// next `</title>`, in any case and across lines.
pub open spec fn title_pattern() -> Seq<char> {
    "(?is)<title[^>]*>(.*?)</title>"@
}

/// What the `regex` pattern `pattern` captures in group 1 on its leftmost match in
/// `haystack`; none when the pattern does not compile, does not match, or leaves group 1
/// unset.
pub uninterp spec fn regex_group1(pattern: Seq<char>, haystack: Seq<char>) -> Option<Seq<char>>;

/// What the title pattern captures in `haystack`.
pub open spec fn title_group(haystack: Seq<char>) -> Option<Seq<char>> {
    regex_group1(title_pattern(), haystack)
}

/// Compiles `pattern` with the `regex` crate's `Regex::new` and runs `Regex::captures` on
/// `haystack`, handing back group 1 of the match. The result is named
/// `regex_group1(pattern, haystack)`; nothing more is claimed of it.
#[verifier::external_body]
fn capture_group1(pattern: &str, haystack: &str) -> (r: Option<String>)
    ensures
        match r {
            Some(g) => regex_group1(pattern@, haystack@) == Some(g@),
            None => regex_group1(pattern@, haystack@) is None,
        },
{
    let re = regex::Regex::new(pattern).ok()?;
    let caps = re.captures(haystack)?;
    caps.get(1).map(|m| m.as_str().to_string())
}

/// The title of an HTML body: the contents of its first `<title>` element, normalized.
pub fn extract_title(body: &str) -> (r: Option<String>)
    ensures
        match r {
            Some(t) => title_group(body@) matches Some(g) && title_text(g) == Some(t@),
            None => match title_group(body@) {
                Some(g) => title_text(g) is None,
                None => true,
            },
        },
{
    match capture_group1("(?is)<title[^>]*>(.*?)</title>", body) {
        Some(raw) => title_from_capture(raw.as_str()),
        None => None,
    }
}

} // verus!

verus! {

/// The body markers that betray a technology, in the order they are tried:
/// (lowercase text to look for, technology name).
pub open spec fn tech_markers() -> Seq<(Seq<char>, Seq<char>)> {
    seq![
        ("wp-content"@, "WordPress"@),
        ("/_next/"@, "Next.js"@),
        ("__nuxt"@, "Nuxt.js"@),
        ("ng-version"@, "Angular"@),
        ("react"@, "React"@),
        ("drupal-settings-json"@, "Drupal"@),
        ("joomla"@, "Joomla"@),
        ("csrf-param"@, "Rails"@),
        ("x-shopify"@, "Shopify"@),
        ("grafana"@, "Grafana"@),
        ("kibana"@, "Kibana"@),
        ("phpmyadmin"@, "phpMyAdmin"@),
        ("jenkins"@, "Jenkins"@),
        ("swagger-ui"@, "Swagger"@),
    ]
}

/// The number of body markers.
pub const TECH_MARKER_COUNT: usize = 14;

/// Marker `i`: the text to look for and the technology it names.
fn tech_marker(i: usize) -> (r: (&'static str, &'static str))
    requires
        i < TECH_MARKER_COUNT,
    ensures
        (r.0@, r.1@) == tech_markers()[i as int],
{
    match i {
        0 => ("wp-content", "WordPress"),
        1 => ("/_next/", "Next.js"),
        2 => ("__nuxt", "Nuxt.js"),
        3 => ("ng-version", "Angular"),
        4 => ("react", "React"),
        5 => ("drupal-settings-json", "Drupal"),
        6 => ("joomla", "Joomla"),
        7 => ("csrf-param", "Rails"),
        8 => ("x-shopify", "Shopify"),
        9 => ("grafana", "Grafana"),
        10 => ("kibana", "Kibana"),
        11 => ("phpmyadmin", "phpMyAdmin"),
        12 => ("jenkins", "Jenkins"),
        _ => ("swagger-ui", "Swagger"),
    }
}

/// The chars of an optional string slice.
pub open spec fn opt_str_view(o: Option<&str>) -> Option<Seq<char>> {
    match o {
        Some(s) => Some(s@),
        None => None,
    }
}

/// The chars of each string.
pub open spec fn strings_view(v: Seq<String>) -> Seq<Seq<char>> {
    v.map_values(|s: String| s@)
}

/// The header values that name a technology: `Server`, then `X-Powered-By`, each when
/// present and nonempty.
pub open spec fn header_tech(server: Option<Seq<char>>, powered_by: Option<Seq<char>>) -> Seq<Seq<char>> {
    let a = match server {
        Some(s) if s.len() > 0 => seq![s],
        _ => Seq::empty(),
    };
    match powered_by {
        Some(p) if p.len() > 0 => a.push(p),
        _ => a,
    }
}

/// `tech` after trying the first `k` markers against the lowercased body: a marker's name
/// is appended when its text occurs and the name is not listed yet.
pub open spec fn add_markers(tech: Seq<Seq<char>>, lower: Seq<char>, k: nat) -> Seq<Seq<char>>
    decreases k,
{
    if k == 0 {
        tech
    } else {
        let prev = add_markers(tech, lower, (k - 1) as nat);
        let m = tech_markers()[k - 1];
        if contains_seq(lower, m.0) && !prev.contains(m.1) {
            prev.push(m.1)
        } else {
            prev
        }
    }
}

/// The technologies guessed from the headers and the lowercased body.
pub open spec fn tech_guess(server: Option<Seq<char>>, powered_by: Option<Seq<char>>, lower: Seq<char>) -> Seq<Seq<char>> {
    add_markers(header_tech(server, powered_by), lower, TECH_MARKER_COUNT as nat)
}

/// Whether `name` is one of `list`.
fn listed(list: &Vec<String>, name: &str) -> (r: bool)
    ensures
        r == strings_view(list@).contains(name@),
{
    let target = chars_of(name);
    let mut i: usize = 0;
    while i < list.len()
        invariant
            0 <= i <= list@.len(),
            target@ == name@,
            forall|j: int| 0 <= j < i ==> list@[j]@ != name@,
        decreases list@.len() - i,
    {
        let here = chars_of(list[i].as_str());
        if chars_eq(here.as_slice(), target.as_slice()) {
            assert(strings_view(list@)[i as int] == name@);
            return true;
        }
        i = i + 1;
    }
    assert forall|j: int| 0 <= j < strings_view(list@).len() implies strings_view(list@)[j] != name@ by {
        assert(strings_view(list@)[j] == list@[j]@);
    }
    false
}

/// The technologies guessed from the `Server` and `X-Powered-By` headers and the
/// lowercased body: the nonempty header values first, then each marker's name whose text
/// occurs in the body, in marker order, without repeating a listed name.
pub fn detect_tech_in(server: Option<&str>, powered_by: Option<&str>, lower: &str) -> (tech: Vec<String>)
    ensures
        strings_view(tech@) == tech_guess(opt_str_view(server), opt_str_view(powered_by), lower@),
{
    let mut tech: Vec<String> = Vec::new();
    if let Some(s) = server {
        let cs = chars_of(s);
        if cs.len() != 0 {
            tech.push(string_from_chars(cs.as_slice()));
        }
    }
    if let Some(p) = powered_by {
        let cs = chars_of(p);
        if cs.len() != 0 {
            tech.push(string_from_chars(cs.as_slice()));
        }
    }
    let ghost base = header_tech(opt_str_view(server), opt_str_view(powered_by));
    assert(strings_view(tech@) =~= base);
    let body = chars_of(lower);
    let mut k: usize = 0;
    while k < TECH_MARKER_COUNT
        invariant
            0 <= k <= TECH_MARKER_COUNT,
            body@ == lower@,
            strings_view(tech@) == add_markers(base, lower@, k as nat),
        decreases TECH_MARKER_COUNT - k,
    {
        let (needle, name) = tech_marker(k);
        let needle_chars = chars_of(needle);
        if contains_chars(body.as_slice(), needle_chars.as_slice()) && !listed(&tech, name) {
            let ghost before = tech@;
            tech.push(string_from_chars(chars_of(name).as_slice()));
            assert(strings_view(tech@) =~= strings_view(before).push(name@));
        }
        k = k + 1;
    }
    tech
}

/// Best-effort technology fingerprint from the `Server` and `X-Powered-By` headers and the
/// body, which is lowercased (char by char) before the markers are looked for.
pub fn detect_tech(server: Option<&str>, powered_by: Option<&str>, body: &str) -> (tech: Vec<String>)
    ensures
        strings_view(tech@) == tech_guess(opt_str_view(server), opt_str_view(powered_by), lower_each(body@)),
{
    let lower = string_from_chars(lowercase_chars(body).as_slice());
    detect_tech_in(server, powered_by, lower.as_str())
}

} // verus!

verus! {

/// Every string sorts strictly before all later ones: sorted, with no repeats.
pub open spec fn strictly_sorted(v: Seq<Seq<char>>) -> bool {
    forall|i: int, j: int| 0 <= i < j < v.len() ==> chars_lt(#[trigger] v[i], #[trigger] v[j])
}

/// The addresses, sorted and with duplicates removed: the result is strictly ascending
/// (in `String` order) and holds exactly the addresses given.
pub fn sorted_unique(ips: Vec<String>) -> (r: Vec<String>)
    ensures
        strictly_sorted(strings_view(r@)),
        forall|s: Seq<char>| strings_view(r@).contains(s) <==> strings_view(ips@).contains(s),
{
    let ghost input = strings_view(ips@);
    let mut out: Vec<String> = Vec::new();
    let mut i: usize = 0;
    while i < ips.len()
        invariant
            0 <= i <= ips@.len(),
            input == strings_view(ips@),
            strictly_sorted(strings_view(out@)),
            forall|s: Seq<char>| strings_view(out@).contains(s) <==> input.take(i as int).contains(s),
        decreases ips@.len() - i,
    {
        let x = chars_of(ips[i].as_str());
        let ghost w = strings_view(out@);
        let mut k: usize = 0;
        while k < out.len() && chars_less(chars_of(out[k].as_str()).as_slice(), x.as_slice())
            invariant
                0 <= k <= out@.len(),
                w == strings_view(out@),
                i < input.len(),
                x@ == input[i as int],
                forall|j: int| 0 <= j < k ==> chars_lt(#[trigger] w[j], x@),
            decreases out@.len() - k,
        {
            assert(w[k as int] == out@[k as int]@);
            k = k + 1;
        }
        let ghost t1 = input.take(i + 1);
        let ghost t0 = input.take(i as int);
        assert(t1 =~= t0.push(x@));
        assert forall|s: Seq<char>| #[trigger] t1.contains(s) <==> (t0.contains(s) || s == x@) by {
            if t1.contains(s) {
                let j = choose|j: int| 0 <= j < t1.len() && t1[j] == s;
                if j < i {
                    assert(t0[j] == s);
                }
            }
            if t0.contains(s) {
                let j = choose|j: int| 0 <= j < t0.len() && t0[j] == s;
                assert(t1[j] == s);
            }
            if s == x@ {
                assert(t1[i as int] == s);
            }
        }
        let dup = k < out.len() && chars_eq(chars_of(out[k].as_str()).as_slice(), x.as_slice());
        if dup {
            assert(w[k as int] == out@[k as int]@);
            assert(w[k as int] == x@);
            assert(w.contains(x@));
            assert forall|s: Seq<char>| #[trigger] w.contains(s) <==> t1.contains(s) by {
                assert(w.contains(s) <==> t0.contains(s));
            }
        } else {
            if k < out.len() {
                assert(w[k as int] == out@[k as int]@);
                proof {
                    lemma_chars_lt_order(w[k as int], x@, x@);
                }
            }
            let item = string_from_chars(x.as_slice());
            out.insert(k, item);
            let ghost w2 = strings_view(out@);
            assert(w2 =~= w.insert(k as int, x@));
            proof {
                w.insert_ensures(k as int, x@);
            }
            assert forall|a: int, b: int| 0 <= a < b < w2.len() implies chars_lt(
                #[trigger] w2[a],
                #[trigger] w2[b],
            ) by {
                if b < k {
                    assert(w2[a] == w[a] && w2[b] == w[b]);
                } else if b == k {
                    assert(w2[a] == w[a]);
                } else if a == k {
                    assert(w2[b] == w[b - 1]);
                    if b - 1 > k {
                        assert(chars_lt(w[k as int], w[b - 1]));
                        lemma_chars_lt_order(x@, w[k as int], w[b - 1]);
                    }
                } else if a < k {
                    assert(w2[a] == w[a] && w2[b] == w[b - 1]);
                    assert(chars_lt(w[a], w[b - 1]));
                } else {
                    assert(w2[a] == w[a - 1] && w2[b] == w[b - 1]);
                    assert(chars_lt(w[a - 1], w[b - 1]));
                }
            }
            assert forall|s: Seq<char>| #[trigger] w2.contains(s) <==> t1.contains(s) by {
                if w2.contains(s) {
                    let j = choose|j: int| 0 <= j < w2.len() && w2[j] == s;
                    if j < k {
                        assert(w[j] == s);
                    } else if j > k {
                        assert(w[j - 1] == s);
                    }
                }
                if w.contains(s) {
                    let j = choose|j: int| 0 <= j < w.len() && w[j] == s;
                    if j < k {
                        assert(w2[j] == s);
                    } else {
                        assert(w2[j + 1] == s);
                    }
                }
                if s == x@ {
                    assert(w2[k as int] == s);
                }
                assert(w.contains(s) <==> t0.contains(s));
            }
        }
        i = i + 1;
    }
    assert(input.take(i as int) =~= input);
    out
}

} // verus!

verus! {

/// Options that shape how each host is probed.
#[derive(Clone)]
pub struct ProbeOptions {
    /// Schemes to try, in order, for a bare host (e.g. `["https", "http"]`).
    pub schemes: Vec<String>,
    /// Retries per scheme after the first attempt.
    pub retries: u32,
    /// Cap the response body we read, in bytes (title + hash). 0 = no cap.
    pub max_body: usize,
}

/// The body cap of the default options: 2 MiB.
pub const DEFAULT_MAX_BODY: usize = 2097152;

impl Default for ProbeOptions {
    /// `https` then `http`, one retry, a 2 MiB body cap.
    fn default() -> (r: Self)
        ensures
            strings_view(r.schemes@) == seq!["https"@, "http"@],
            r.retries == 1,
            r.max_body == DEFAULT_MAX_BODY,
    {
        let mut schemes: Vec<String> = Vec::new();
        schemes.push("https".to_owned());
        schemes.push("http".to_owned());
        let r = ProbeOptions { schemes, retries: 1, max_body: DEFAULT_MAX_BODY };
        assert(strings_view(r.schemes@) =~= seq!["https"@, "http"@]);
        r
    }
}

/// What the probe of one input does next.
pub enum ProbeStep {
    /// Request `url`, the candidate `scheme` at `port` of the target's host.
    Request { url: String, scheme: String, port: u16 },
    /// Every candidate has failed every attempt: report the failure.
    Exhausted,
}

/// What a `ProbeRun` holds, as plain values.
pub struct RunView {
    /// The input line being probed.
    pub input: Seq<char>,
    /// The host of its target.
    pub host: Seq<char>,
    /// The (scheme, port) candidates of its target, in order.
    pub candidates: Seq<(Seq<char>, u16)>,
    /// Retries per candidate after its first attempt.
    pub retries: u32,
    /// The candidate being tried.
    pub index: usize,
    /// Failed attempts at the current candidate so far.
    pub attempt: u32,
    /// The last error seen.
    pub last_err: Seq<char>,
}

/// The counters are in range: the candidate index runs up to the number of candidates,
/// the attempts at one candidate up to the retries, and once every candidate is done no
/// attempt is counted.
pub open spec fn run_wf(v: RunView) -> bool {
    &&& v.index <= v.candidates.len()
    &&& v.attempt <= v.retries
    &&& v.index == v.candidates.len() ==> v.attempt == 0
}

/// Requests a probe in state `v` may still make before giving up.
pub open spec fn remaining_attempts(v: RunView) -> int {
    (v.candidates.len() - v.index) * (v.retries + 1) - v.attempt
}

/// The decisions of one probe: which candidate to request, how often to retry it, and
/// when to give up. The caller performs each request and reports failures back.
pub struct ProbeRun {
    input: String,
    target: Target,
    retries: u32,
    index: usize,
    attempt: u32,
    last_err: String,
}

impl View for ProbeRun {
    type V = RunView;

    closed spec fn view(&self) -> RunView {
        RunView {
            input: self.input@,
            host: self.target.host@,
            candidates: candidates_view(self.target.candidates@),
            retries: self.retries,
            index: self.index,
            attempt: self.attempt,
            last_err: self.last_err@,
        }
    }
}

impl ProbeRun {
    #[verifier::type_invariant]
    spec fn counters_in_range(self) -> bool {
        &&& self.index <= self.target.candidates@.len()
        &&& self.attempt <= self.retries
        &&& self.index == self.target.candidates@.len() ==> self.attempt == 0
    }

    /// Starts probing `input`: the target comes from `parse_input` with the configured
    /// schemes, the first candidate is up, and the last error reads `no candidates`.
    pub fn start(input: &str, opts: &ProbeOptions) -> (run: ProbeRun)
        ensures
            run_wf(run@),
            run@.input == input@,
            (run@.host, run@.candidates) == input_target_view(input@, strings_view(opts.schemes@)),
            run@.retries == opts.retries,
            run@.index == 0,
            run@.attempt == 0,
            run@.last_err == "no candidates"@,
            remaining_attempts(run@) == run@.candidates.len() * (opts.retries + 1),
    {
        let target = parse_input(input, opts.schemes.as_slice());
        ProbeRun {
            input: input.to_owned(),
            target,
            retries: opts.retries,
            index: 0,
            attempt: 0,
            last_err: "no candidates".to_owned(),
        }
    }

    /// The host being probed.
    pub fn host(&self) -> (h: &str)
        ensures
            h@ == self@.host,
    {
        self.target.host.as_str()
    }

    /// The last error seen.
    pub fn last_err(&self) -> (e: &str)
        ensures
            e@ == self@.last_err,
    {
        self.last_err.as_str()
    }

    /// The next action: request the current candidate, or give up once none is left.
    pub fn next_step(&self) -> (step: ProbeStep)
        ensures
            run_wf(self@),
            self@.index < self@.candidates.len() <==> step is Request,
            step is Exhausted <==> remaining_attempts(self@) == 0,
            match step {
                ProbeStep::Request { url, scheme, port } => {
                    let c = self@.candidates[self@.index as int];
                    &&& scheme@ == c.0
                    &&& port == c.1
                    &&& url@ == url_text(c.0, self@.host, c.1)
                },
                ProbeStep::Exhausted => true,
            },
    {
        proof {
            use_type_invariant(self);
        }
        if self.index < self.target.candidates.len() {
            proof {
                let n = self.target.candidates@.len() - self.index;
                assert(n * (self.retries + 1) >= self.retries + 1) by (nonlinear_arith)
                    requires
                        n >= 1,
                        self.retries >= 0,
                ;
            }
            let (scheme, port) = &self.target.candidates[self.index];
            let url = build_url(scheme.as_str(), self.target.host.as_str(), *port);
            ProbeStep::Request { url, scheme: scheme.clone(), port: *port }
        } else {
            proof {
                let n = self.target.candidates@.len() - self.index;
                assert(n == 0);
                assert(n * (self.retries + 1) == 0) by (nonlinear_arith)
                    requires
                        n == 0,
                ;
            }
            ProbeStep::Exhausted
        }
    }

    /// Records a failed request with error `err`. The same candidate is retried, after a
    /// pause, until it has failed `retries + 1` times; then the next candidate is up, with
    /// no pause. Returns whether to pause before the next request.
    pub fn record_failure(&mut self, err: String) -> (pause: bool)
        requires
            old(self)@.index < old(self)@.candidates.len(),
        ensures
            run_wf(old(self)@),
            run_wf(final(self)@),
            final(self)@.input == old(self)@.input,
            final(self)@.host == old(self)@.host,
            final(self)@.candidates == old(self)@.candidates,
            final(self)@.retries == old(self)@.retries,
            final(self)@.last_err == err@,
            pause == (old(self)@.attempt < old(self)@.retries),
            pause ==> final(self)@.index == old(self)@.index && final(self)@.attempt == old(
                self,
            )@.attempt + 1,
            !pause ==> final(self)@.index == old(self)@.index + 1 && final(self)@.attempt == 0,
            remaining_attempts(final(self)@) == remaining_attempts(old(self)@) - 1,
    {
        proof {
            use_type_invariant(&*self);
        }
        self.last_err = err;
        if self.attempt < self.retries {
            self.attempt = self.attempt + 1;
            true
        } else {
            proof {
                let n = old(self).target.candidates@.len() - old(self).index;
                let r = old(self).retries + 1;
                assert(n * r - r == (n - 1) * r) by (nonlinear_arith);
            }
            let len = self.target.candidates.len();
            assert(self.index < len);
            self.attempt = 0;
            self.index = self.index + 1;
            false
        }
    }

    /// Where to look up addresses for the failure record: the host and the port of the
    /// first candidate, when there is one.
    pub fn lookup_address(&self) -> (r: Option<(String, u16)>)
        ensures
            match r {
                Some((h, p)) => self@.candidates.len() > 0 && h@ == self@.host && p
                    == self@.candidates[0].1,
                None => self@.candidates.len() == 0,
            },
    {
        if self.target.candidates.len() > 0 {
            Some((self.target.host.clone(), self.target.candidates[0].1))
        } else {
            None
        }
    }

    /// The record of a probe that got no response: the input, the target's host and the
    /// last error, stamped now.
    pub fn failure(&self) -> (r: ProbeResult)
        ensures
            is_failure_record(r, self@.input, self@.host, self@.last_err),
    {
        ProbeResult::failed(self.input.as_str(), self.target.host.as_str(), self.last_err.clone())
    }
}

/// A probe never requests more than (candidates) x (retries + 1) times: starting from
/// that many remaining attempts, each failure uses one, and the probe is exhausted exactly
/// when none is left.
pub proof fn lemma_attempts_bounded(v: RunView)
    requires
        run_wf(v),
    ensures
        0 <= remaining_attempts(v) <= v.candidates.len() * (v.retries + 1),
        remaining_attempts(v) == 0 <==> v.index == v.candidates.len(),
{
    let n = v.candidates.len() - v.index;
    let r = v.retries + 1;
    if n == 0 {
        assert(n * r == 0) by (nonlinear_arith)
            requires
                n == 0,
        ;
    }
    assert(n * r >= 0) by (nonlinear_arith)
        requires
            n >= 0,
            r >= 1,
    ;
    assert(n >= 1 ==> n * r >= r) by (nonlinear_arith)
        requires
            r >= 1,
    ;
    assert(n * r <= v.candidates.len() * r) by (nonlinear_arith)
        requires
            0 <= n <= v.candidates.len(),
            r >= 1,
    ;
}

} // verus!

verus! {

/// Whitespace in `t` is only single spaces, each right after a non-whitespace char and,
/// unless it ends `t`, right before one.
pub open spec fn spaced_words(t: Seq<char>) -> bool {
    forall|i: int|
        0 <= i < t.len() && is_ws(#[trigger] t[i]) ==> {
            &&& t[i] == ' '
            &&& 0 < i
            &&& !is_ws(t[i - 1])
            &&& i + 1 < t.len() ==> !is_ws(t[i + 1])
        }
}

/// Collapsing whitespace leaves words separated by single spaces, with no whitespace at
/// either end.
pub proof fn lemma_collapse_ws_spaced(s: Seq<char>)
    ensures
        spaced_words(collapse_ws(s)),
        collapse_ws(s).len() > 0 ==> !is_ws(collapse_ws(s).last()),
    decreases s.len(),
{
    if s.len() > 0 {
        let p = s.drop_last();
        let c = s.last();
        let acc = collapse_ws(p);
        lemma_collapse_ws_spaced(p);
        if is_ws(c) {
        } else if acc.len() > 0 && is_ws(p.last()) {
            let t = acc.push(' ').push(c);
            assert(t == collapse_ws(s));
            assert forall|i: int| 0 <= i < t.len() && is_ws(#[trigger] t[i]) implies {
                &&& t[i] == ' '
                &&& 0 < i
                &&& !is_ws(t[i - 1])
                &&& i + 1 < t.len() ==> !is_ws(t[i + 1])
            } by {
                if i < acc.len() {
                    assert(t[i] == acc[i]);
                    if i > 0 {
                        assert(t[i - 1] == acc[i - 1]);
                    }
                    if i + 1 < acc.len() {
                        assert(t[i + 1] == acc[i + 1]);
                    }
                } else {
                    assert(i == acc.len());
                    assert(t[i - 1] == acc.last());
                }
            }
        } else {
            let t = acc.push(c);
            assert(t == collapse_ws(s));
            assert forall|i: int| 0 <= i < t.len() && is_ws(#[trigger] t[i]) implies {
                &&& t[i] == ' '
                &&& 0 < i
                &&& !is_ws(t[i - 1])
                &&& i + 1 < t.len() ==> !is_ws(t[i + 1])
            } by {
                assert(t[i] == acc[i]);
                if i > 0 {
                    assert(t[i - 1] == acc[i - 1]);
                }
                if i + 1 < acc.len() {
                    assert(t[i + 1] == acc[i + 1]);
                }
            }
        }
    }
}

/// A title is nonempty, at most 300 chars, starts with a non-whitespace char and holds
/// whitespace only as single spaces between words; when nothing was cut off, it also
/// ends with a non-whitespace char.
pub proof fn lemma_title_normalized(raw: Seq<char>)
    ensures
        title_text(raw) matches Some(t) ==> {
            &&& 0 < t.len() <= MAX_TITLE_CHARS
            &&& spaced_words(t)
            &&& (collapse_ws(raw).len() <= MAX_TITLE_CHARS ==> !is_ws(t.last()))
        },
{
    lemma_collapse_ws_spaced(raw);
    let c = collapse_ws(raw);
    if let Some(t) = title_text(raw) {
        if c.len() > MAX_TITLE_CHARS {
            assert forall|i: int| 0 <= i < t.len() && is_ws(#[trigger] t[i]) implies {
                &&& t[i] == ' '
                &&& 0 < i
                &&& !is_ws(t[i - 1])
                &&& i + 1 < t.len() ==> !is_ws(t[i + 1])
            } by {
                assert(t[i] == c[i]);
                if i > 0 {
                    assert(t[i - 1] == c[i - 1]);
                }
                if i + 1 < t.len() {
                    assert(t[i + 1] == c[i + 1]);
                }
            }
        }
    }
}

/// Trying markers keeps the listed technologies in front, unchanged, and never appends a
/// name that is already listed: no name added by a marker repeats an earlier entry.
pub proof fn lemma_markers_never_repeat(tech: Seq<Seq<char>>, lower: Seq<char>, k: nat)
    ensures
        add_markers(tech, lower, k).len() >= tech.len(),
        add_markers(tech, lower, k).take(tech.len() as int) == tech,
        forall|i: int, j: int|
            0 <= i < j < add_markers(tech, lower, k).len() && j >= tech.len() ==> add_markers(
                tech,
                lower,
                k,
            )[i] != add_markers(tech, lower, k)[j],
    decreases k,
{
    if k == 0 {
        assert(tech.take(tech.len() as int) =~= tech);
    } else {
        let prev = add_markers(tech, lower, (k - 1) as nat);
        lemma_markers_never_repeat(tech, lower, (k - 1) as nat);
        let m = tech_markers()[k - 1];
        if contains_seq(lower, m.0) && !prev.contains(m.1) {
            let cur = prev.push(m.1);
            assert(cur == add_markers(tech, lower, k));
            assert(cur.take(tech.len() as int) =~= prev.take(tech.len() as int));
            assert forall|i: int, j: int|
                0 <= i < j < cur.len() && j >= tech.len() implies cur[i] != cur[j] by {
                if j == prev.len() {
                    assert(cur[i] == prev[i]);
                    assert(cur[j] == m.1);
                    if cur[i] == cur[j] {
                        assert(prev.contains(m.1));
                    }
                } else {
                    assert(cur[i] == prev[i] && cur[j] == prev[j]);
                }
            }
        }
    }
}

} // verus!

verus! {

/// Uppercasing ASCII letters changes nothing once the text is lowercased.
proof fn lemma_lower_each_ascii_upper(body: Seq<char>)
    ensures
        lower_each(ascii_upper(body)) == lower_each(body),
    decreases body.len(),
{
    if body.len() > 0 {
        let c = body.last();
        lemma_lower_each_ascii_upper(body.drop_last());
        assert(ascii_upper(body).drop_last() =~= ascii_upper(body.drop_last()));
        assert(ascii_upper(body).last() == ascii_upper_char(c));
        assert(lower_char(ascii_upper_char(c)) == lower_char(c)) by {
            if 'a' <= c && c <= 'z' {
                assert(ascii_upper_char(c) <= '\x7f');
                assert(ascii_lower_char(ascii_upper_char(c)) == c);
            }
        }
    } else {
        assert(ascii_upper(body) =~= body);
    }
}

/// Technology guesses ignore ASCII case: a body guesses the same technologies as its
/// ASCII-uppercase form.
pub proof fn lemma_tech_ignores_ascii_case(
    server: Option<Seq<char>>,
    powered_by: Option<Seq<char>>,
    body: Seq<char>,
)
    ensures
        tech_guess(server, powered_by, lower_each(ascii_upper(body))) == tech_guess(
            server,
            powered_by,
            lower_each(body),
        ),
{
    lemma_lower_each_ascii_upper(body);
}

/// `idx` picks, in increasing order, the entries of `b` that make up `a`.
pub open spec fn embeds(a: Seq<Seq<char>>, b: Seq<Seq<char>>, idx: Seq<int>) -> bool {
    &&& idx.len() == a.len()
    &&& forall|i: int, j: int| 0 <= i < j < idx.len() ==> #[trigger] idx[i] < #[trigger] idx[j]
    &&& forall|i: int| 0 <= i < idx.len() ==> 0 <= #[trigger] idx[i] < b.len() && b[idx[i]] == a[i]
}

/// `a` is a subsequence of `b`: `b` with some entries left out, the rest in order.
pub open spec fn is_subseq(a: Seq<Seq<char>>, b: Seq<Seq<char>>) -> bool {
    exists|idx: Seq<int>| #[trigger] embeds(a, b, idx)
}

/// Marker names are pairwise different.
proof fn lemma_marker_names_distinct(i: int, j: int)
    requires
        0 <= i < TECH_MARKER_COUNT,
        0 <= j < TECH_MARKER_COUNT,
        i != j,
    ensures
        tech_markers()[i].1 != tech_markers()[j].1,
{
    reveal_strlit("WordPress");
    reveal_strlit("Next.js");
    reveal_strlit("Nuxt.js");
    reveal_strlit("Angular");
    reveal_strlit("React");
    reveal_strlit("Drupal");
    reveal_strlit("Joomla");
    reveal_strlit("Rails");
    reveal_strlit("Shopify");
    reveal_strlit("Grafana");
    reveal_strlit("Kibana");
    reveal_strlit("phpMyAdmin");
    reveal_strlit("Jenkins");
    reveal_strlit("Swagger");
    let a = tech_markers()[i].1;
    let b = tech_markers()[j].1;
    if a == b {
        assert(a.len() == b.len());
        assert(a[0] == b[0]);
        assert(a[1] == b[1]);
    }
}

/// A marker not tried yet is listed after `k` markers exactly when it was listed before.
proof fn lemma_untried_name(tech: Seq<Seq<char>>, lower: Seq<char>, k: nat, j: int)
    requires
        k <= j < TECH_MARKER_COUNT,
    ensures
        add_markers(tech, lower, k).contains(tech_markers()[j].1) == tech.contains(
            tech_markers()[j].1,
        ),
    decreases k,
{
    if k > 0 {
        lemma_untried_name(tech, lower, (k - 1) as nat, j);
        let prev = add_markers(tech, lower, (k - 1) as nat);
        let x = tech_markers()[k - 1].1;
        let y = tech_markers()[j].1;
        lemma_marker_names_distinct(k - 1, j);
        if add_markers(tech, lower, k) != prev {
            let cur = prev.push(x);
            assert(add_markers(tech, lower, k) == cur);
            if cur.contains(y) {
                let t = choose|t: int| 0 <= t < cur.len() && cur[t] == y;
                if t < prev.len() {
                    assert(prev[t] == y);
                }
            }
            if prev.contains(y) {
                let t = choose|t: int| 0 <= t < prev.len() && prev[t] == y;
                assert(cur[t] == y);
            }
        }
    }
}

/// Trying markers against text that contains every needle `lower1` contains keeps every
/// guess made on `lower1`, in order: the guesses on `lower1` are a subsequence.
proof fn lemma_markers_monotone(tech: Seq<Seq<char>>, lower1: Seq<char>, lower2: Seq<char>, k: nat) -> (idx: Seq<int>)
    requires
        k <= TECH_MARKER_COUNT,
        forall|n: Seq<char>| contains_seq(lower1, n) ==> #[trigger] contains_seq(lower2, n),
    ensures
        embeds(add_markers(tech, lower1, k), add_markers(tech, lower2, k), idx),
    decreases k,
{
    if k == 0 {
        let idx = Seq::new(tech.len(), |i: int| i);
        idx
    } else {
        let prev_idx = lemma_markers_monotone(tech, lower1, lower2, (k - 1) as nat);
        let a = add_markers(tech, lower1, (k - 1) as nat);
        let b = add_markers(tech, lower2, (k - 1) as nat);
        let m = tech_markers()[k - 1];
        lemma_untried_name(tech, lower1, (k - 1) as nat, k - 1);
        lemma_untried_name(tech, lower2, (k - 1) as nat, k - 1);
        let a2 = add_markers(tech, lower1, k);
        let b2 = add_markers(tech, lower2, k);
        if a2 != a {
            assert(contains_seq(lower2, m.0));
            assert(a2 == a.push(m.1));
            assert(b2 == b.push(m.1));
            let idx = prev_idx.push(b.len() as int);
            assert forall|i: int, j: int| 0 <= i < j < idx.len() implies #[trigger] idx[i]
                < #[trigger] idx[j] by {
                if j < prev_idx.len() {
                    assert(idx[i] == prev_idx[i] && idx[j] == prev_idx[j]);
                } else {
                    assert(idx[i] == prev_idx[i]);
                }
            }
            assert forall|i: int| 0 <= i < idx.len() implies 0 <= #[trigger] idx[i] < b2.len()
                && b2[idx[i]] == a2[i] by {
                if i < prev_idx.len() {
                    assert(idx[i] == prev_idx[i]);
                }
            }
            idx
        } else {
            if b2 != b {
                assert(b2 == b.push(m.1));
                assert forall|i: int| 0 <= i < prev_idx.len() implies 0 <= #[trigger] prev_idx[i]
                    < b2.len() && b2[prev_idx[i]] == a2[i] by {}
            }
            prev_idx
        }
    }
}

/// More body text never loses a guess: the technologies guessed from a body are a
/// subsequence of those guessed from the body with more text after it.
pub proof fn lemma_more_text_keeps_tech(
    server: Option<Seq<char>>,
    powered_by: Option<Seq<char>>,
    body: Seq<char>,
    extra: Seq<char>,
)
    ensures
        is_subseq(
            tech_guess(server, powered_by, lower_each(body)),
            tech_guess(server, powered_by, lower_each(body + extra)),
        ),
{
    let l1 = lower_each(body);
    let l2 = lower_each(body + extra);
    lemma_lower_each_append(body, extra);
    assert forall|n: Seq<char>| contains_seq(l1, n) implies #[trigger] contains_seq(l2, n) by {
        let i = choose|i: int| occurs_at(l1, n, i);
        assert(l2.subrange(i, i + n.len()) =~= l1.subrange(i, i + n.len()));
        assert(occurs_at(l2, n, i));
    }
    let idx = lemma_markers_monotone(
        header_tech(server, powered_by),
        l1,
        l2,
        TECH_MARKER_COUNT as nat,
    );
    assert(embeds(
        tech_guess(server, powered_by, l1),
        tech_guess(server, powered_by, l2),
        idx,
    ));
}

} // verus!

verus! {

/// A marker tried among the first `k` is listed exactly when it was listed before or its
/// text occurs in `lower`.
proof fn lemma_marker_reported(tech: Seq<Seq<char>>, lower: Seq<char>, k: nat, j: int)
    requires
        0 <= j < k <= TECH_MARKER_COUNT,
    ensures
        add_markers(tech, lower, k).contains(tech_markers()[j].1) <==> (tech.contains(
            tech_markers()[j].1,
        ) || contains_seq(lower, tech_markers()[j].0)),
    decreases k,
{
    let prev = add_markers(tech, lower, (k - 1) as nat);
    let cur = add_markers(tech, lower, k);
    let x = tech_markers()[k - 1].1;
    let y = tech_markers()[j].1;
    if k - 1 == j {
        lemma_untried_name(tech, lower, (k - 1) as nat, j);
    } else {
        lemma_marker_reported(tech, lower, (k - 1) as nat, j);
        lemma_marker_names_distinct(k - 1, j);
    }
    if cur != prev {
        assert(cur == prev.push(x));
        if cur.contains(y) {
            let t = choose|t: int| 0 <= t < cur.len() && cur[t] == y;
            if t < prev.len() {
                assert(prev[t] == y);
            }
        }
        if prev.contains(y) {
            let t = choose|t: int| 0 <= t < prev.len() && prev[t] == y;
            assert(cur[t] == y);
        }
        if x == y {
            assert(cur[prev.len() as int] == y);
        }
    }
}

/// The header values that name a nonempty technology `x` are listed exactly when a header
/// holds `x`.
proof fn lemma_header_contains(server: Option<Seq<char>>, powered_by: Option<Seq<char>>, x: Seq<char>)
    requires
        x.len() > 0,
    ensures
        header_tech(server, powered_by).contains(x) <==> (server == Some(x) || powered_by == Some(x)),
{
    let h = header_tech(server, powered_by);
    if h.contains(x) {
        let t = choose|t: int| 0 <= t < h.len() && h[t] == x;
    }
    if server == Some(x) {
        assert(h[0] == x);
    }
    if powered_by == Some(x) {
        assert(h[h.len() - 1] == x);
    }
}

/// A technology name is reported exactly when a header names it or its marker text occurs
/// in the lowercased body.
pub open spec fn reported_iff(
    server: Option<Seq<char>>,
    powered_by: Option<Seq<char>>,
    lower: Seq<char>,
    needle: Seq<char>,
    name: Seq<char>,
) -> bool {
    tech_guess(server, powered_by, lower).contains(name) <==> (server == Some(name) || powered_by
        == Some(name) || contains_seq(lower, needle))
}

/// Each technology is reported exactly when a header names it or the lowercased body
/// contains its marker text: `wp-content` for WordPress, `/_next/` for Next.js, `__nuxt`
/// for Nuxt.js, `ng-version` for Angular, `react` for React, `drupal-settings-json` for
/// Drupal, `joomla` for Joomla, `csrf-param` for Rails, `x-shopify` for Shopify, `grafana`
/// for Grafana, `kibana` for Kibana, `phpmyadmin` for phpMyAdmin, `jenkins` for Jenkins and
/// `swagger-ui` for Swagger.
pub proof fn lemma_marker_texts(server: Option<Seq<char>>, powered_by: Option<Seq<char>>, lower: Seq<char>)
    ensures
        reported_iff(server, powered_by, lower, "wp-content"@, "WordPress"@),
        reported_iff(server, powered_by, lower, "/_next/"@, "Next.js"@),
        reported_iff(server, powered_by, lower, "__nuxt"@, "Nuxt.js"@),
        reported_iff(server, powered_by, lower, "ng-version"@, "Angular"@),
        reported_iff(server, powered_by, lower, "react"@, "React"@),
        reported_iff(server, powered_by, lower, "drupal-settings-json"@, "Drupal"@),
        reported_iff(server, powered_by, lower, "joomla"@, "Joomla"@),
        reported_iff(server, powered_by, lower, "csrf-param"@, "Rails"@),
        reported_iff(server, powered_by, lower, "x-shopify"@, "Shopify"@),
        reported_iff(server, powered_by, lower, "grafana"@, "Grafana"@),
        reported_iff(server, powered_by, lower, "kibana"@, "Kibana"@),
        reported_iff(server, powered_by, lower, "phpmyadmin"@, "phpMyAdmin"@),
        reported_iff(server, powered_by, lower, "jenkins"@, "Jenkins"@),
        reported_iff(server, powered_by, lower, "swagger-ui"@, "Swagger"@),
{
    reveal_strlit("WordPress");
    reveal_strlit("Next.js");
    reveal_strlit("Nuxt.js");
    reveal_strlit("Angular");
    reveal_strlit("React");
    reveal_strlit("Drupal");
    reveal_strlit("Joomla");
    reveal_strlit("Rails");
    reveal_strlit("Shopify");
    reveal_strlit("Grafana");
    reveal_strlit("Kibana");
    reveal_strlit("phpMyAdmin");
    reveal_strlit("Jenkins");
    reveal_strlit("Swagger");
    let h = header_tech(server, powered_by);
    assert forall|j: int| 0 <= j < TECH_MARKER_COUNT implies reported_iff(
        server,
        powered_by,
        lower,
        #[trigger] tech_markers()[j].0,
        tech_markers()[j].1,
    ) by {
        lemma_marker_reported(h, lower, TECH_MARKER_COUNT as nat, j);
        lemma_header_contains(server, powered_by, tech_markers()[j].1);
    }
    assert(reported_iff(server, powered_by, lower, tech_markers()[0].0, tech_markers()[0].1));
    assert(reported_iff(server, powered_by, lower, tech_markers()[1].0, tech_markers()[1].1));
    assert(reported_iff(server, powered_by, lower, tech_markers()[2].0, tech_markers()[2].1));
    assert(reported_iff(server, powered_by, lower, tech_markers()[3].0, tech_markers()[3].1));
    assert(reported_iff(server, powered_by, lower, tech_markers()[4].0, tech_markers()[4].1));
    assert(reported_iff(server, powered_by, lower, tech_markers()[5].0, tech_markers()[5].1));
    assert(reported_iff(server, powered_by, lower, tech_markers()[6].0, tech_markers()[6].1));
    assert(reported_iff(server, powered_by, lower, tech_markers()[7].0, tech_markers()[7].1));
    assert(reported_iff(server, powered_by, lower, tech_markers()[8].0, tech_markers()[8].1));
    assert(reported_iff(server, powered_by, lower, tech_markers()[9].0, tech_markers()[9].1));
    assert(reported_iff(server, powered_by, lower, tech_markers()[10].0, tech_markers()[10].1));
    assert(reported_iff(server, powered_by, lower, tech_markers()[11].0, tech_markers()[11].1));
    assert(reported_iff(server, powered_by, lower, tech_markers()[12].0, tech_markers()[12].1));
    assert(reported_iff(server, powered_by, lower, tech_markers()[13].0, tech_markers()[13].1));
}

/// The nonempty header values come first, `Server` before `X-Powered-By`, each whether or
/// not the other header is present.
pub proof fn lemma_headers_listed_first(
    server: Option<Seq<char>>,
    powered_by: Option<Seq<char>>,
    lower: Seq<char>,
)
    ensures
        ({
            let t = tech_guess(server, powered_by, lower);
            let has_server = server matches Some(v) && v.len() > 0;
            let has_powered = powered_by matches Some(w) && w.len() > 0;
            &&& has_server ==> t.len() >= 1 && t[0] == server->0
            &&& has_powered && !has_server ==> t.len() >= 1 && t[0] == powered_by->0
            &&& has_powered && has_server ==> t.len() >= 2 && t[1] == powered_by->0
        }),
{
    let h = header_tech(server, powered_by);
    let t = tech_guess(server, powered_by, lower);
    lemma_markers_never_repeat(h, lower, TECH_MARKER_COUNT as nat);
    assert(t.take(h.len() as int) == h);
    if h.len() >= 1 {
        assert(t[0] == t.take(h.len() as int)[0]);
    }
    if h.len() >= 2 {
        assert(t[1] == t.take(h.len() as int)[1]);
    }
}

} // verus!

verus! {

/// The host of a full URL is the text after `://` up to the first `/`, `?` or `#`, or all
/// of it when none follows: for a host free of `/`, `?`, `#`, `@` and `:`, and a tail that
/// is empty or starts with `/`, `?` or `#`, the target is that host at the scheme's
/// default port.
pub proof fn lemma_url_host_ends_at_delimiter(scheme: Seq<char>, host: Seq<char>, tail: Seq<char>)
    requires
        forall|i: int|
            0 <= i < host.len() ==> #[trigger] host[i] != '/' && host[i] != '?' && host[i] != '#'
                && host[i] != '@' && host[i] != ':',
        tail.len() == 0 || tail[0] == '/' || tail[0] == '?' || tail[0] == '#',
    ensures
        url_target_view(scheme, host + tail) == (host, seq![(scheme, scheme_default_port(scheme))]),
{
    assert forall|i: int| 0 <= i < host.len() implies !is_url_delim(#[trigger] host[i]) by {}
    lemma_before_delim_append(host, tail);
    assert(before_delim(tail) == Seq::<char>::empty());
    assert(host + Seq::<char>::empty() =~= host);
    assert(before_delim(host + tail) == host);
    lemma_last_index_of(host, '@');
    lemma_last_index_of(host, ':');
    assert(last_index_of(host, '@') is None) by {
        if let Some(i) = last_index_of(host, '@') {
            assert(host[i] == '@');
        }
    }
    assert(last_index_of(host, ':') is None) by {
        if let Some(i) = last_index_of(host, ':') {
            assert(host[i] == ':');
        }
    }
    assert(after_last_at(host) == host);
}

/// Whether `c` is one of the Unicode `White_Space` code points: U+0009–U+000D, U+0020,
/// U+0085, U+00A0, U+1680, U+2000–U+200A, U+2028, U+2029, U+202F, U+205F and U+3000.
pub open spec fn is_white_space_code_point(u: u32) -> bool {
    (9 <= u <= 13) || u == 32 || u == 133 || u == 160 || u == 5760 || (8192 <= u <= 8202) || u
        == 8232 || u == 8233 || u == 8239 || u == 8287 || u == 12288
}

/// The whitespace that titles and trimming collapse is exactly Unicode `White_Space`.
pub proof fn lemma_whitespace_is_unicode_white_space(c: char)
    ensures
        is_ws(c) <==> is_white_space_code_point(c as u32),
{
}

/// Collapsing whitespace changes nothing in text without whitespace.
proof fn lemma_collapse_without_ws(s: Seq<char>)
    requires
        forall|i: int| 0 <= i < s.len() ==> !is_ws(#[trigger] s[i]),
    ensures
        collapse_ws(s) == s,
    decreases s.len(),
{
    if s.len() > 0 {
        assert forall|i: int| 0 <= i < s.drop_last().len() implies !is_ws(
            #[trigger] s.drop_last()[i],
        ) by {
            assert(s.drop_last()[i] == s[i]);
        }
        lemma_collapse_without_ws(s.drop_last());
        assert(!is_ws(s[s.len() - 1]));
        assert(s.drop_last().push(s.last()) =~= s);
    }
}

/// A captured title of visible ASCII chars (`!` to `~`), at most 300 of them, comes back
/// as it is.
pub proof fn lemma_visible_ascii_title_kept(raw: Seq<char>)
    requires
        0 < raw.len() <= MAX_TITLE_CHARS,
        forall|i: int| 0 <= i < raw.len() ==> '!' <= #[trigger] raw[i] && raw[i] <= '~',
    ensures
        title_text(raw) == Some(raw),
{
    assert forall|i: int| 0 <= i < raw.len() implies !is_ws(#[trigger] raw[i]) by {
        lemma_whitespace_is_unicode_white_space(raw[i]);
        assert('!' <= raw[i] && raw[i] <= '~');
    }
    lemma_collapse_without_ws(raw);
}

/// Words separated by single ASCII spaces, with no whitespace at either end and nothing
/// but visible ASCII in the words, come back as they are, at most 300 chars of them.
pub proof fn lemma_spaced_ascii_title_kept(raw: Seq<char>)
    requires
        0 < raw.len() <= MAX_TITLE_CHARS,
        forall|i: int|
            0 <= i < raw.len() ==> ('!' <= #[trigger] raw[i] && raw[i] <= '~') || raw[i] == ' ',
        raw[0] != ' ',
        raw.last() != ' ',
        forall|i: int| 0 <= i < raw.len() - 1 ==> !(#[trigger] raw[i] == ' ' && raw[i + 1] == ' '),
    ensures
        title_text(raw) == Some(raw),
{
    lemma_collapse_spaced_ascii(raw);
}

/// `collapse_ws` keeps text whose only whitespace is single spaces between visible ASCII
/// words.
proof fn lemma_collapse_spaced_ascii(s: Seq<char>)
    requires
        forall|i: int|
            0 <= i < s.len() ==> ('!' <= #[trigger] s[i] && s[i] <= '~') || s[i] == ' ',
        s.len() > 0 ==> s[0] != ' ' && s.last() != ' ',
        forall|i: int| 0 <= i < s.len() - 1 ==> !(#[trigger] s[i] == ' ' && s[i + 1] == ' '),
    ensures
        collapse_ws(s) == s,
    decreases s.len(),
{
    if s.len() > 0 {
        let p = s.drop_last();
        let c = s.last();
        assert(!is_ws(c)) by {
            lemma_whitespace_is_unicode_white_space(c);
        }
        if p.len() > 0 && p.last() == ' ' {
            let q = p.drop_last();
            assert(q.len() > 0) by {
                if q.len() == 0 {
                    assert(s[0] == ' ');
                }
            }
            assert(q.last() != ' ') by {
                assert(s[s.len() - 3] == q.last());
                assert(s[s.len() - 2] == ' ');
            }
            assert forall|i: int| 0 <= i < q.len() implies ('!' <= #[trigger] q[i] && q[i] <= '~')
                || q[i] == ' ' by {
                assert(q[i] == s[i]);
            }
            assert forall|i: int| 0 <= i < q.len() - 1 implies !(#[trigger] q[i] == ' ' && q[i + 1]
                == ' ') by {
                assert(q[i] == s[i] && q[i + 1] == s[i + 1]);
            }
            assert(q[0] == s[0]);
            lemma_collapse_spaced_ascii(q);
            assert(is_ws(p.last()));
            assert(!is_ws(q.last())) by {
                lemma_whitespace_is_unicode_white_space(q.last());
            }
            assert(collapse_ws(p) == collapse_ws(q)) by {
                assert(p.drop_last() =~= q);
            }
            assert(s =~= q.push(' ').push(c));
        } else {
            assert forall|i: int| 0 <= i < p.len() implies ('!' <= #[trigger] p[i] && p[i] <= '~')
                || p[i] == ' ' by {
                assert(p[i] == s[i]);
            }
            assert forall|i: int| 0 <= i < p.len() - 1 implies !(#[trigger] p[i] == ' ' && p[i + 1]
                == ' ') by {
                assert(p[i] == s[i] && p[i + 1] == s[i + 1]);
            }
            if p.len() > 0 {
                assert(p[0] == s[0]);
            }
            lemma_collapse_spaced_ascii(p);
            if p.len() > 0 {
                assert(!is_ws(p.last())) by {
                    lemma_whitespace_is_unicode_white_space(p.last());
                }
            }
            assert(s =~= p.push(c));
        }
    }
}

} // verus!

verus! {

/// Only `http` defaults to port 80; every other scheme defaults to 443.
pub proof fn lemma_default_ports(scheme: Seq<char>)
    ensures
        scheme_default_port(scheme) == 80 <==> scheme == seq!['h', 't', 't', 'p'],
        scheme_default_port(scheme) != 80 ==> scheme_default_port(scheme) == 443,
{
    reveal_strlit("http");
    assert("http"@ =~= seq!['h', 't', 't', 'p']);
}

/// A captured title of visible ASCII longer than 300 chars comes back as its first 300.
pub proof fn lemma_long_title_cut(raw: Seq<char>)
    requires
        raw.len() > MAX_TITLE_CHARS,
        forall|i: int| 0 <= i < raw.len() ==> '!' <= #[trigger] raw[i] && raw[i] <= '~',
    ensures
        title_text(raw) == Some(raw.take(300)),
{
    assert forall|i: int| 0 <= i < raw.len() implies !is_ws(#[trigger] raw[i]) by {
        lemma_whitespace_is_unicode_white_space(raw[i]);
    }
    lemma_collapse_without_ws(raw);
}

} // verus!
