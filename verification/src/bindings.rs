//! The calls that this library makes into `url`, `urlencoding`, `base64`,
//! `regex` and into the parts of std that vstd does not specify. Each item
//! here is believed, not proved: its doc comment says what it claims.
use base64::Engine;
use vstd::prelude::*;
use vstd::utf8::{decode_utf8, encode_utf8, valid_utf8};

verus! {

// ---------------------------------------------------------------------------
// Views of plain values
// ---------------------------------------------------------------------------

pub open spec fn opt_chars(o: Option<String>) -> Option<Seq<char>> {
    match o {
        Some(s) => Some(s@),
        None => None,
    }
}

pub open spec fn opt_bytes(o: Option<Vec<u8>>) -> Option<Seq<u8>> {
    match o {
        Some(b) => Some(b@),
        None => None,
    }
}

pub open spec fn strings_view(v: Seq<String>) -> Seq<Seq<char>> {
    v.map_values(|s: String| s@)
}

pub open spec fn opt_strings(o: Option<Vec<String>>) -> Option<Seq<Seq<char>>> {
    match o {
        Some(v) => Some(strings_view(v@)),
        None => None,
    }
}

pub open spec fn pairs_view(v: Seq<(String, String)>) -> Seq<(Seq<char>, Seq<char>)> {
    v.map_values(|p: (String, String)| (p.0@, p.1@))
}

// ---------------------------------------------------------------------------
// url
// ---------------------------------------------------------------------------

/// `url::Url::parse(s)` returns `Ok`.
pub uninterp spec fn url_parses(s: Seq<char>) -> bool;

/// `Url::host_str` of the URL that `url::Url::parse(s)` gives.
pub uninterp spec fn url_host(s: Seq<char>) -> Option<Seq<char>>;

/// `Url::port` of the URL that `url::Url::parse(s)` gives.
pub uninterp spec fn url_port(s: Seq<char>) -> Option<u16>;

/// `Url::username` of the URL that `url::Url::parse(s)` gives.
pub uninterp spec fn url_username(s: Seq<char>) -> Seq<char>;

/// `Url::fragment` of the URL that `url::Url::parse(s)` gives.
pub uninterp spec fn url_fragment(s: Seq<char>) -> Option<Seq<char>>;

/// The pairs, in order, that `Url::query_pairs` yields for the URL that
/// `url::Url::parse(s)` gives.
pub uninterp spec fn url_query_pairs(s: Seq<char>) -> Seq<(Seq<char>, Seq<char>)>;

/// What the link parsers read of a parsed URL, as plain values.
pub struct UrlParts {
    pub host: Option<String>,
    pub port: Option<u16>,
    pub username: String,
    pub fragment: Option<String>,
    pub query_pairs: Vec<(String, String)>,
}

/// Calls `url::Url::parse` and reads `host_str`, `port`, `username`,
/// `fragment` and `query_pairs` of the result. Claims only that the result
/// is `Some` exactly when the parse succeeds and that each part is the named
/// result of the corresponding `url` function on `s`; the WHATWG parsing
/// rules themselves are not stated.
#[verifier::external_body]
pub(crate) fn parse_url(s: &str) -> (r: Option<UrlParts>)
    ensures
        r is Some <==> url_parses(s@),
        r matches Some(p) ==> {
            &&& opt_chars(p.host) == url_host(s@)
            &&& p.port == url_port(s@)
            &&& p.username@ == url_username(s@)
            &&& opt_chars(p.fragment) == url_fragment(s@)
            &&& pairs_view(p.query_pairs@) == url_query_pairs(s@)
        },
{
    let u = url::Url::parse(s).ok()?;
    Some(UrlParts {
        host: u.host_str().map(|h| h.to_string()),
        port: u.port(),
        username: u.username().to_string(),
        fragment: u.fragment().map(|f| f.to_string()),
        query_pairs: u.query_pairs().map(|(k, v)| (k.into_owned(), v.into_owned())).collect(),
    })
}

// ---------------------------------------------------------------------------
// urlencoding
// ---------------------------------------------------------------------------

pub open spec fn is_hex_digit(b: u8) -> bool {
    (0x30 <= b <= 0x39) || (0x41 <= b <= 0x46) || (0x61 <= b <= 0x66)
}

pub open spec fn hex_value(b: u8) -> int {
    if 0x30 <= b <= 0x39 {
        b - 0x30
    } else if 0x41 <= b <= 0x46 {
        b - 0x41 + 10
    } else {
        b - 0x61 + 10
    }
}

/// Percent-decoding of bytes: `%` followed by two hex digits becomes the
/// byte they spell; every other byte, a lone `%` included, is kept.
pub open spec fn percent_decode_bytes(b: Seq<u8>) -> Seq<u8>
    decreases b.len(),
{
    if b.len() == 0 {
        seq![]
    } else if b[0] == 0x25 && b.len() >= 3 && is_hex_digit(b[1]) && is_hex_digit(b[2]) {
        seq![(hex_value(b[1]) * 16 + hex_value(b[2])) as u8] + percent_decode_bytes(b.skip(3))
    } else {
        seq![b[0]] + percent_decode_bytes(b.skip(1))
    }
}

/// `urlencoding::decode(s).ok()`: the UTF-8 bytes of `s` percent-decoded,
/// read back as UTF-8, or `None` where they are not valid UTF-8.
pub open spec fn percent_decoded(s: Seq<char>) -> Option<Seq<char>> {
    let b = percent_decode_bytes(encode_utf8(s));
    if valid_utf8(b) {
        Some(decode_utf8(b))
    } else {
        None
    }
}

/// Calls `urlencoding::decode`. Claims what its source does: percent
/// sequences of two hex digits are decoded, everything else is kept byte
/// for byte, and the result is `Err` exactly when the bytes are not UTF-8.
#[verifier::external_body]
pub(crate) fn percent_decode(s: &str) -> (r: Option<String>)
    ensures
        opt_chars(r) == percent_decoded(s@),
{
    urlencoding::decode(s).ok().map(|c| c.into_owned())
}

// ---------------------------------------------------------------------------
// base64
// ---------------------------------------------------------------------------

/// `base64::engine::general_purpose::URL_SAFE.decode(s)` as `Some` bytes on
/// `Ok`.
pub uninterp spec fn base64_url_safe_decoded(s: Seq<char>) -> Option<Seq<u8>>;

/// `base64::engine::general_purpose::STANDARD.decode(s)` as `Some` bytes on
/// `Ok`.
pub uninterp spec fn base64_standard_decoded(s: Seq<char>) -> Option<Seq<u8>>;

/// Calls `Engine::decode` of `general_purpose::URL_SAFE` on the UTF-8 bytes
/// of `s`. Claims only that the result is the named result on `s`; the
/// alphabet and padding rules are not stated.
#[verifier::external_body]
pub(crate) fn decode_base64_url_safe(s: &str) -> (r: Option<Vec<u8>>)
    ensures
        opt_bytes(r) == base64_url_safe_decoded(s@),
{
    base64::engine::general_purpose::URL_SAFE.decode(s).ok()
}

/// Calls `Engine::decode` of `general_purpose::STANDARD` on the UTF-8 bytes
/// of `s`. Claims only that the result is the named result on `s`.
#[verifier::external_body]
pub(crate) fn decode_base64_standard(s: &str) -> (r: Option<Vec<u8>>)
    ensures
        opt_bytes(r) == base64_standard_decoded(s@),
{
    base64::engine::general_purpose::STANDARD.decode(s).ok()
}

// ---------------------------------------------------------------------------
// regex
// ---------------------------------------------------------------------------

/// The texts, in order, of the matches that `Regex::new(pattern)` finds in
/// `text` with `find_iter`, or `None` where the pattern does not compile.
pub uninterp spec fn regex_matches(pattern: Seq<char>, text: Seq<char>) -> Option<Seq<Seq<char>>>;

/// Calls `regex::Regex::new(pattern)` and collects `find_iter(text)` as
/// strings. Claims only that the result is the named result on its
/// arguments; the regular-expression semantics are not stated.
#[verifier::external_body]
pub(crate) fn find_all(pattern: &str, text: &str) -> (r: Option<Vec<String>>)
    ensures
        opt_strings(r) == regex_matches(pattern@, text@),
{
    let re = regex::Regex::new(pattern).ok()?;
    Some(re.find_iter(text).map(|m| m.as_str().to_string()).collect())
}

// ---------------------------------------------------------------------------
// std
// ---------------------------------------------------------------------------

/// Calls `String::from_utf8`. Claims what its documentation says: the bytes
/// are accepted exactly when they are valid UTF-8, and then read as such.
#[verifier::external_body]
pub(crate) fn string_from_utf8(b: Vec<u8>) -> (r: Option<String>)
    ensures
        r is Some <==> valid_utf8(b@),
        r matches Some(s) ==> s@ == decode_utf8(b@),
{
    String::from_utf8(b).ok()
}

/// `String::from_utf8_lossy(b)`: invalid sequences become U+FFFD.
pub uninterp spec fn utf8_lossy(b: Seq<u8>) -> Seq<char>;

/// Calls `String::from_utf8_lossy`. Claims that the result is the named
/// result on `b`, and, as its documentation says, that valid UTF-8 is read
/// as such.
#[verifier::external_body]
pub(crate) fn string_from_utf8_lossy(b: &[u8]) -> (r: String)
    ensures
        r@ == utf8_lossy(b@),
        valid_utf8(b@) ==> r@ == decode_utf8(b@),
{
    String::from_utf8_lossy(b).into_owned()
}

/// Calls `String::push`. Claims what its documentation says: the character
/// is appended.
#[verifier::external_body]
pub(crate) fn push_char(s: &mut String, c: char)
    ensures
        final(s)@ == old(s)@.push(c),
{
    s.push(c);
}

} // verus!
