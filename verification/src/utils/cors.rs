use vstd::prelude::*;
use axum::http::header::InvalidHeaderValue;
use axum::http::HeaderValue;
use crate::utils::text::{chars_of, string_from_chars, trim, trim_chars};

verus! {

/// The pieces of `s` between commas, as `str::split(',')` gives them: one
/// more piece than there are commas.
pub open spec fn split_commas(s: Seq<char>) -> Seq<Seq<char>>
    decreases s.len(),
{
    if s.len() == 0 {
        seq![Seq::empty()]
    } else {
        let rest = split_commas(s.drop_last());
        if s.last() == ',' {
            rest.push(Seq::empty())
        } else {
            rest.update(rest.len() - 1, rest.last().push(s.last()))
        }
    }
}

/// The trimmed pieces that are not empty, in order.
pub open spec fn nonempty_trimmed(pieces: Seq<Seq<char>>) -> Seq<Seq<char>>
    decreases pieces.len(),
{
    if pieces.len() == 0 {
        Seq::empty()
    } else {
        let rest = nonempty_trimmed(pieces.drop_last());
        if trim(pieces.last()).len() > 0 {
            rest.push(trim(pieces.last()))
        } else {
            rest
        }
    }
}

/// The origins listed in a comma-separated setting: split at commas,
/// trimmed, empty entries dropped.
pub open spec fn origin_entries(raw: Seq<char>) -> Seq<Seq<char>> {
    nonempty_trimmed(split_commas(raw))
}

proof fn lemma_split_commas_nonempty(s: Seq<char>)
    ensures
        split_commas(s).len() >= 1,
    decreases s.len(),
{
    if s.len() > 0 {
        lemma_split_commas_nonempty(s.drop_last());
    }
}

/// Splits a comma-separated list, trims each entry and drops the empty ones.
pub fn split_origins(raw: &str) -> (origins: Vec<String>)
    ensures
        origins@.map_values(|o: String| o@) == origin_entries(raw@),
{
    let chars = chars_of(raw);
    let n = chars.len();
    let mut origins: Vec<String> = Vec::new();
    let mut current: Vec<char> = Vec::new();
    let mut i: usize = 0;
    assert(chars@.subrange(0, 0) =~= Seq::<char>::empty());
    while i < n
        invariant
            chars@ == raw@,
            n == chars@.len(),
            i <= n,
            split_commas(chars@.subrange(0, i as int)).len() >= 1,
            origins@.map_values(|o: String| o@) == nonempty_trimmed(split_commas(chars@.subrange(0, i as int)).drop_last()),
            current@ == split_commas(chars@.subrange(0, i as int)).last(),
        decreases n - i,
    {
        let ghost prefix = chars@.subrange(0, i as int);
        let ghost next = chars@.subrange(0, i + 1);
        assert(next.drop_last() =~= prefix);
        proof {
            lemma_split_commas_nonempty(prefix);
        }
        let c = chars[i];
        if c == ',' {
            let trimmed = trim_chars(&current);
            if trimmed.len() > 0 {
                let ghost before = origins@;
                origins.push(string_from_chars(trimmed.as_slice()));
                assert(origins@.map_values(|o: String| o@) =~= before.map_values(|o: String| o@).push(trimmed@));
            }
            assert(split_commas(next).drop_last() =~= split_commas(prefix));
            current = Vec::new();
        } else {
            current.push(c);
            assert(split_commas(next).drop_last() =~= split_commas(prefix).drop_last());
        }
        i += 1;
    }
    assert(chars@.subrange(0, n as int) =~= chars@);
    let trimmed = trim_chars(&current);
    if trimmed.len() > 0 {
        let ghost before = origins@;
        origins.push(string_from_chars(trimmed.as_slice()));
        assert(origins@.map_values(|o: String| o@) =~= before.map_values(|o: String| o@).push(trimmed@));
    }
    proof {
        let pieces = split_commas(chars@);
        lemma_split_commas_nonempty(chars@);
        assert(pieces.drop_last().push(pieces.last()) =~= pieces);
    }
    origins
}

/// Whether `url::Url::parse` accepts `s`.
pub uninterp spec fn url_parses(s: Seq<char>) -> bool;

/// The scheme of the URL that `s` parses to (`Url::scheme`).
pub uninterp spec fn url_scheme(s: Seq<char>) -> Seq<char>;

/// Whether the URL that `s` parses to has a host (`Url::host`).
pub uninterp spec fn url_has_host(s: Seq<char>) -> bool;

/// The path of the URL that `s` parses to (`Url::path`).
pub uninterp spec fn url_path(s: Seq<char>) -> Seq<char>;

/// Whether the URL that `s` parses to has a query (`Url::query`).
pub uninterp spec fn url_has_query(s: Seq<char>) -> bool;

/// Whether the URL that `s` parses to has a fragment (`Url::fragment`).
pub uninterp spec fn url_has_fragment(s: Seq<char>) -> bool;

/// A URL together with the text it was parsed from.
pub struct ParsedUrl {
    url: url::Url,
    source: String,
}

impl ParsedUrl {
    pub closed spec fn source(&self) -> Seq<char> {
        self.source@
    }
}

/// `url::Url::parse`.
/// Trusted: whether parsing succeeds depends on the text alone.
#[verifier::external_body]
fn parse_url(s: &str) -> (parsed: Result<ParsedUrl, url::ParseError>)
    ensures
        parsed is Ok <==> url_parses(s@),
        parsed matches Ok(p) ==> p.source() == s@,
{
    match url::Url::parse(s) {
        Ok(url) => Ok(ParsedUrl { url, source: s.to_string() }),
        Err(e) => Err(e),
    }
}

/// `url::Url::scheme`.
/// Trusted: the scheme is a function of the parsed text.
#[verifier::external_body]
fn scheme_of(p: &ParsedUrl) -> (scheme: String)
    ensures
        scheme@ == url_scheme(p.source()),
{
    p.url.scheme().to_string()
}

/// `url::Url::host`, whether it is present.
/// Trusted: presence of the host is a function of the parsed text.
#[verifier::external_body]
fn has_host(p: &ParsedUrl) -> (present: bool)
    ensures
        present == url_has_host(p.source()),
{
    p.url.host().is_some()
}

/// `url::Url::path`.
/// Trusted: the path is a function of the parsed text.
#[verifier::external_body]
fn path_of(p: &ParsedUrl) -> (path: String)
    ensures
        path@ == url_path(p.source()),
{
    p.url.path().to_string()
}

/// `url::Url::query`, whether it is present.
/// Trusted: presence of the query is a function of the parsed text.
#[verifier::external_body]
fn has_query(p: &ParsedUrl) -> (present: bool)
    ensures
        present == url_has_query(p.source()),
{
    p.url.query().is_some()
}

/// `url::Url::fragment`, whether it is present.
/// Trusted: presence of the fragment is a function of the parsed text.
#[verifier::external_body]
fn has_fragment(p: &ParsedUrl) -> (present: bool)
    ensures
        present == url_has_fragment(p.source()),
{
    p.url.fragment().is_some()
}

/// A byte that `http` accepts in a header value: visible ASCII, a tab, or
/// any byte from 0x80 on.
pub open spec fn header_byte_ok(b: u8) -> bool {
    (b >= 32 && b != 127) || b == 9
}

/// `http::HeaderValue::from_str` (through axum).
/// Trusted: the source checks every byte of the UTF-8 encoding of the text with
/// `b >= 32 && b != 127 || b == b'\t'` and fails if any byte fails.
#[verifier::external_body]
fn parse_header_value(s: &str) -> (value: Result<HeaderValue, InvalidHeaderValue>)
    ensures
        value is Ok <==> forall|i: int|
            0 <= i < vstd::utf8::encode_utf8(s@).len() ==> header_byte_ok(#[trigger] vstd::utf8::encode_utf8(s@)[i]),
{
    HeaderValue::from_str(s)
}

/// Why an allowed origin is refused.
#[derive(Debug)]
pub enum CorsRejection {
    /// Not a URL.
    InvalidUrl(url::ParseError),
    /// The scheme is neither `http` nor `https`.
    SchemeNotHttp,
    /// There is no host.
    MissingHost,
    /// There is a path other than `/`.
    HasPath,
    /// There is a query.
    HasQuery,
    /// There is a fragment.
    HasFragment,
    /// The origin cannot be sent as a header value.
    InvalidHeaderValue,
}

/// A refused origin and the reason.
#[derive(Debug)]
pub struct CorsOriginError {
    pub origin: String,
    pub reason: CorsRejection,
}

/// The URL checks of an origin, up to and including the header check.
pub open spec fn url_checks_pass(o: Seq<char>) -> bool {
    &&& url_parses(o)
    &&& (url_scheme(o) == "http"@ || url_scheme(o) == "https"@)
    &&& url_has_host(o)
    &&& (url_path(o).len() == 0 || url_path(o) == "/"@)
    &&& !url_has_query(o)
    &&& !url_has_fragment(o)
}

/// An allowed origin: an http(s) URL with a host and no path, query or
/// fragment, that is also a valid header value.
pub open spec fn origin_valid(o: Seq<char>) -> bool {
    let bytes = vstd::utf8::encode_utf8(o);
    &&& url_checks_pass(o)
    &&& forall|i: int| 0 <= i < bytes.len() ==> header_byte_ok(#[trigger] bytes[i])
}

/// `reason` is the first check that origin `o` fails, in the order URL,
/// scheme, host, path, query, fragment, header value.
pub open spec fn is_first_failure(o: Seq<char>, reason: CorsRejection) -> bool {
    let bytes = vstd::utf8::encode_utf8(o);
    match reason {
        CorsRejection::InvalidUrl(_) => !url_parses(o),
        CorsRejection::SchemeNotHttp => url_parses(o) && !(url_scheme(o) == "http"@ || url_scheme(o) == "https"@),
        CorsRejection::MissingHost => url_parses(o) && (url_scheme(o) == "http"@ || url_scheme(o) == "https"@)
            && !url_has_host(o),
        CorsRejection::HasPath => url_parses(o) && (url_scheme(o) == "http"@ || url_scheme(o) == "https"@)
            && url_has_host(o) && !(url_path(o).len() == 0 || url_path(o) == "/"@),
        CorsRejection::HasQuery => url_parses(o) && (url_scheme(o) == "http"@ || url_scheme(o) == "https"@)
            && url_has_host(o) && (url_path(o).len() == 0 || url_path(o) == "/"@) && url_has_query(o),
        CorsRejection::HasFragment => url_parses(o) && (url_scheme(o) == "http"@ || url_scheme(o) == "https"@)
            && url_has_host(o) && (url_path(o).len() == 0 || url_path(o) == "/"@) && !url_has_query(o)
            && url_has_fragment(o),
        CorsRejection::InvalidHeaderValue => url_checks_pass(o) && !(forall|i: int|
            0 <= i < bytes.len() ==> header_byte_ok(#[trigger] bytes[i])),
    }
}

fn is_http_scheme(scheme: &String) -> (http: bool)
    ensures
        http == (scheme@ == "http"@ || scheme@ == "https"@),
{
    let chars = chars_of(scheme.as_str());
    let http = chars_of("http");
    let https = chars_of("https");
    crate::utils::text::chars_eq(chars.as_slice(), http.as_slice())
        || crate::utils::text::chars_eq(chars.as_slice(), https.as_slice())
}

fn is_root_path(path: &String) -> (root: bool)
    ensures
        root == (path@.len() == 0 || path@ == "/"@),
{
    let chars = chars_of(path.as_str());
    let slash = chars_of("/");
    chars.len() == 0 || crate::utils::text::chars_eq(chars.as_slice(), slash.as_slice())
}

/// What the origin checks read of a parsed URL.
pub struct UrlFacts {
    pub scheme: String,
    pub has_host: bool,
    pub path: String,
    pub has_query: bool,
    pub has_fragment: bool,
}

/// The first of the URL checks that a parsed origin fails: scheme http or
/// https, a host, no path but `/`, no query, no fragment.
pub open spec fn facts_first_failure(
    scheme: Seq<char>,
    host: bool,
    path: Seq<char>,
    query: bool,
    fragment: bool,
) -> Option<CorsRejection> {
    if !(scheme == "http"@ || scheme == "https"@) {
        Some(CorsRejection::SchemeNotHttp)
    } else if !host {
        Some(CorsRejection::MissingHost)
    } else if !(path.len() == 0 || path == "/"@) {
        Some(CorsRejection::HasPath)
    } else if query {
        Some(CorsRejection::HasQuery)
    } else if fragment {
        Some(CorsRejection::HasFragment)
    } else {
        None
    }
}

/// The verdict of the URL checks on the facts of a parsed origin.
pub fn url_facts_verdict(facts: &UrlFacts) -> (rejection: Option<CorsRejection>)
    ensures
        rejection == facts_first_failure(
            facts.scheme@,
            facts.has_host,
            facts.path@,
            facts.has_query,
            facts.has_fragment,
        ),
{
    if !is_http_scheme(&facts.scheme) {
        return Some(CorsRejection::SchemeNotHttp);
    }
    if !facts.has_host {
        return Some(CorsRejection::MissingHost);
    }
    if !is_root_path(&facts.path) {
        return Some(CorsRejection::HasPath);
    }
    if facts.has_query {
        return Some(CorsRejection::HasQuery);
    }
    if facts.has_fragment {
        return Some(CorsRejection::HasFragment);
    }
    None
}

/// The first check that `origin` fails, if any.
fn check_origin(origin: &String) -> (rejection: Option<CorsRejection>)
    ensures
        rejection is None <==> origin_valid(origin@),
        rejection matches Some(reason) ==> is_first_failure(origin@, reason),
{
    let parsed = match parse_url(origin.as_str()) {
        Ok(p) => p,
        Err(e) => return Some(CorsRejection::InvalidUrl(e)),
    };
    let facts = UrlFacts {
        scheme: scheme_of(&parsed),
        has_host: has_host(&parsed),
        path: path_of(&parsed),
        has_query: has_query(&parsed),
        has_fragment: has_fragment(&parsed),
    };
    match url_facts_verdict(&facts) {
        Some(reason) => return Some(reason),
        None => {},
    }
    match parse_header_value(origin.as_str()) {
        Ok(_) => None,
        Err(_) => Some(CorsRejection::InvalidHeaderValue),
    }
}

/// Parse CORS allowed origins from a comma-separated string. Each origin must
/// be a URL with an http or https scheme and a host, and no path, query or
/// fragment, that can be sent as a header value; the first one that is not
/// is reported with the check it fails.
pub fn parse_cors_origins(raw: &str) -> (origins: Result<Vec<String>, CorsOriginError>)
    ensures
        origins is Ok <==> forall|k: int|
            0 <= k < origin_entries(raw@).len() ==> origin_valid(#[trigger] origin_entries(raw@)[k]),
        origins matches Ok(list) ==> list@.map_values(|o: String| o@) == origin_entries(raw@),
        origins matches Err(e) ==> exists|k: int|
            0 <= k < origin_entries(raw@).len() && (forall|j: int|
                0 <= j < k ==> origin_valid(#[trigger] origin_entries(raw@)[j])) && e.origin@ == origin_entries(raw@)[k]
                && is_first_failure(origin_entries(raw@)[k], e.reason),
{
    let list = split_origins(raw);
    let ghost entries = origin_entries(raw@);
    let mut k: usize = 0;
    while k < list.len()
        invariant
            entries == origin_entries(raw@),
            list@.map_values(|o: String| o@) == entries,
            k <= list@.len(),
            forall|j: int| 0 <= j < k ==> origin_valid(#[trigger] entries[j]),
        decreases list@.len() - k,
    {
        assert(list@[k as int]@ == entries[k as int]);
        match check_origin(&list[k]) {
            Some(reason) => {
                let origin = list[k].clone();
                assert(!origin_valid(entries[k as int]));
                let err = CorsOriginError { origin, reason };
                assert(exists|k2: int|
                    0 <= k2 < entries.len() && (forall|j: int| 0 <= j < k2 ==> origin_valid(#[trigger] entries[j]))
                        && err.origin@ == entries[k2] && is_first_failure(entries[k2], err.reason)) by {
                    assert(0 <= k < entries.len());
                    assert(err.origin@ == entries[k as int] && is_first_failure(entries[k as int], err.reason));
                }
                return Err(err);
            },
            None => {},
        }
        k += 1;
    }
    Ok(list)
}

} // verus!
