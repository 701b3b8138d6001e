//! Decisions taken while one request is answered: which redirects to follow, and where
//! to stop reading the body.

use vstd::prelude::*;
use crate::text::{
    chars_eq, chars_of, find_chars, find_from, first_occurrence, lemma_find_from, occurs_at,
};
use vstd::slice::{slice_subrange, slice_to_vec};

verus! {

/// The most redirects one request follows.
pub const MAX_REDIRECTS: usize = 10;

/// The statuses whose `Location` is followed: 301, 302, 303, 307 and 308.
pub open spec fn is_redirect_status(status: u16) -> bool {
    status == 301 || status == 302 || status == 303 || status == 307 || status == 308
}

/// The scheme of an absolute URL: the text before its first `:`.
pub open spec fn scheme_of(url: Seq<char>) -> Seq<char> {
    match first_occurrence(url, ":"@) {
        Some(i) => url.take(i),
        None => url,
    }
}

/// What to do with one response of a request.
pub enum RedirectStep {
    /// This is the final response.
    Done,
    /// Request this URL next.
    Follow(String),
    /// A redirect past the limit: the request fails.
    TooManyRedirects,
    /// A redirect to this URL, whose scheme is neither `http` nor `https`: the request fails.
    BadScheme(String),
}

/// The redirects followed so far by one request.
pub struct RedirectChain {
    /// Redirects followed so far.
    pub hops: usize,
}

impl RedirectChain {
    /// A request before its first response.
    pub fn new() -> (c: RedirectChain)
        ensures
            c.hops == 0,
    {
        RedirectChain { hops: 0 }
    }

    /// Decides on a response with `status` whose `Location`, resolved against the URL
    /// requested, is `location`. A redirect status with a location is followed while fewer
    /// than 10 redirects have been followed and the location's scheme is `http` or
    /// `https`; any other response is final.
    pub fn on_response(&mut self, status: u16, location: Option<String>) -> (step: RedirectStep)
        ensures
            is_redirect_status(status) && location is Some ==> {
                let loc = location->0;
                if old(self).hops >= MAX_REDIRECTS {
                    step is TooManyRedirects && final(self).hops == old(self).hops
                } else if scheme_of(loc@) != "http"@ && scheme_of(loc@) != "https"@ {
                    step == RedirectStep::BadScheme(loc) && final(self).hops == old(self).hops
                } else {
                    step == RedirectStep::Follow(loc) && final(self).hops == old(self).hops + 1
                }
            },
            !(is_redirect_status(status) && location is Some) ==> step is Done && final(self).hops
                == old(self).hops,
            step is Follow ==> old(self).hops < 10 && final(self).hops == old(self).hops + 1,
            step is Follow <==> is_redirect_status(status) && location is Some && old(self).hops < 10
                && (scheme_of(location->0@) == "http"@ || scheme_of(location->0@) == "https"@),
            is_redirect_status(status) <==> (status == 301 || status == 302 || status == 303
                || status == 307 || status == 308),
    {
        let redirect = status == 301 || status == 302 || status == 303 || status == 307
            || status == 308;
        if !redirect {
            return RedirectStep::Done;
        }
        match location {
            Some(loc) => {
                if self.hops >= MAX_REDIRECTS {
                    return RedirectStep::TooManyRedirects;
                }
                let scheme_chars = url_scheme(loc.as_str());
                let scheme = scheme_chars.as_slice();
                let http = chars_of("http");
                let https = chars_of("https");
                let is_http = chars_eq(scheme, http.as_slice());
                let is_https = chars_eq(scheme, https.as_slice());
                assert(is_http == (scheme_of(loc@) == "http"@));
                assert(is_https == (scheme_of(loc@) == "https"@));
                if !is_http && !is_https {
                    return RedirectStep::BadScheme(loc);
                }
                self.hops = self.hops + 1;
                RedirectStep::Follow(loc)
            },
            None => RedirectStep::Done,
        }
    }
}

/// The scheme of an absolute URL.
fn url_scheme(url: &str) -> (r: Vec<char>)
    ensures
        r@ == scheme_of(url@),
{
    let chars = chars_of(url);
    let colon = chars_of(":");
    match find_chars(chars.as_slice(), colon.as_slice()) {
        Some(i) => {
            proof {
                reveal_strlit(":");
            }
            let r = slice_to_vec(slice_subrange(chars.as_slice(), 0, i));
            assert(r@ =~= scheme_of(url@));
            r
        },
        None => chars,
    }
}

/// Whether a followed redirect names the page it came from: always, except when it
/// leaves an `https` page for an `http` one.
pub fn sends_referer(previous: &str, next: &str) -> (r: bool)
    ensures
        r == !(scheme_of(next@) == "http"@ && scheme_of(previous@) == "https"@),
{
    let next_scheme = url_scheme(next);
    let previous_scheme = url_scheme(previous);
    let http = chars_of("http");
    let https = chars_of("https");
    !(chars_eq(next_scheme.as_slice(), http.as_slice()) && chars_eq(
        previous_scheme.as_slice(),
        https.as_slice(),
    ))
}

/// The absolute URL that `reference` names relative to `base`, as `url::Url::join` (through
/// `reqwest::Url`) resolves it; none when `base` does not parse or the join fails.
pub uninterp spec fn url_join(base: Seq<char>, reference: Seq<char>) -> Option<Seq<char>>;

/// Parses `base` with `reqwest::Url::parse` and resolves `reference` against it with
/// `Url::join`, as text. The result is named `url_join(base, reference)`.
#[verifier::external_body]
fn join_url(base: &str, reference: &str) -> (r: Option<String>)
    ensures
        match r {
            Some(u) => url_join(base@, reference@) == Some(u@),
            None => url_join(base@, reference@) is None,
        },
{
    let base = reqwest::Url::parse(base).ok()?;
    base.join(reference).ok().map(|u| u.to_string())
}

impl RedirectChain {
    /// Decides on a response with `status` to a request for `current` whose `Location`
    /// header reads `location`: the location is resolved against `current`, then decided
    /// on as `on_response` does.
    pub fn on_reply(&mut self, status: u16, current: &str, location: Option<&str>) -> (step: RedirectStep)
        ensures
            ({
                let target = match location {
                    Some(l) => url_join(current@, l@),
                    None => None,
                };
                &&& is_redirect_status(status) && target is Some ==> {
                    let loc = target->0;
                    if old(self).hops >= MAX_REDIRECTS {
                        step is TooManyRedirects && final(self).hops == old(self).hops
                    } else if scheme_of(loc) != "http"@ && scheme_of(loc) != "https"@ {
                        step matches RedirectStep::BadScheme(u) && u@ == loc && final(self).hops
                            == old(self).hops
                    } else {
                        step matches RedirectStep::Follow(u) && u@ == loc && final(self).hops == old(
                            self,
                        ).hops + 1
                    }
                }
                &&& !(is_redirect_status(status) && target is Some) ==> step is Done
                    && final(self).hops == old(self).hops
            }),
    {
        let target = match location {
            Some(l) => join_url(current, l),
            None => None,
        };
        self.on_response(status, target)
    }
}

/// How much of a body has been read, against the cap on it.
pub struct BodyCap {
    /// The most bytes to read; 0 means no cap.
    pub max_body: usize,
    /// Bytes kept so far.
    pub read: usize,
}

impl BodyCap {
    /// Nothing read yet.
    pub fn new(max_body: usize) -> (c: BodyCap)
        ensures
            c.max_body == max_body,
            c.read == 0,
    {
        BodyCap { max_body, read: 0 }
    }

    /// Whether reading should stop: the cap is reached.
    pub fn is_full(&self) -> (full: bool)
        ensures
            full == (self.max_body > 0 && self.read >= self.max_body),
    {
        self.max_body > 0 && self.read >= self.max_body
    }

    /// How many bytes of a chunk of `chunk_len` bytes to keep: all of it without a cap,
    /// else as many as still fit under the cap.
    pub fn accept(&mut self, chunk_len: usize) -> (keep: usize)
        requires
            old(self).max_body > 0 ==> old(self).read <= old(self).max_body,
            old(self).max_body == 0 ==> old(self).read + chunk_len <= usize::MAX,
        ensures
            final(self).max_body == old(self).max_body,
            keep <= chunk_len,
            old(self).max_body == 0 ==> keep == chunk_len,
            old(self).max_body > 0 ==> keep == if chunk_len <= old(self).max_body - old(self).read {
                chunk_len
            } else {
                (old(self).max_body - old(self).read) as usize
            },
            final(self).read == old(self).read + keep,
            final(self).max_body > 0 ==> final(self).read <= final(self).max_body,
    {
        let keep = if self.max_body == 0 {
            chunk_len
        } else {
            let room = self.max_body - self.read;
            if chunk_len <= room {
                chunk_len
            } else {
                room
            }
        };
        self.read = self.read + keep;
        keep
    }
}

} // verus!

verus! {

/// The scheme of a URL ends at its first `:`: whatever follows, a port, a path or a query
/// with more colons, is not part of it.
pub proof fn lemma_scheme_before_first_colon(a: Seq<char>, b: Seq<char>)
    requires
        forall|i: int| 0 <= i < a.len() ==> a[i] != ':',
    ensures
        scheme_of(a + seq![':'] + b) == a,
{
    reveal_strlit(":");
    let u = a + seq![':'] + b;
    let colon = ":"@;
    assert(colon =~= seq![':']);
    assert(u.subrange(a.len() as int, a.len() + 1int) =~= colon);
    assert(occurs_at(u, colon, a.len() as int));
    lemma_find_from(u, colon, 0);
    match find_from(u, colon, 0) {
        Some(k) => {
            if k < a.len() {
                assert(u.subrange(k, k + 1)[0] == u[k]);
                assert(u[k] == a[k]);
            }
        },
        None => {},
    }
    assert(u.take(a.len() as int) =~= a);
}

/// Every redirect to an `http://` or `https://` URL, whatever its host, port, path or
/// query, is followed while fewer than 10 redirects have been followed.
pub proof fn lemma_web_redirects_followed(rest: Seq<char>)
    ensures
        scheme_of("http://"@ + rest) == "http"@,
        scheme_of("https://"@ + rest) == "https"@,
{
    reveal_strlit("http://");
    reveal_strlit("https://");
    reveal_strlit("http");
    reveal_strlit("https");
    let h = "http"@;
    let hs = "https"@;
    assert("http://"@ + rest =~= h + seq![':'] + (seq!['/', '/'] + rest));
    assert("https://"@ + rest =~= hs + seq![':'] + (seq!['/', '/'] + rest));
    lemma_scheme_before_first_colon(h, seq!['/', '/'] + rest);
    lemma_scheme_before_first_colon(hs, seq!['/', '/'] + rest);
}

} // verus!
