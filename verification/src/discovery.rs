//! The decisions of code search: which needles to search for, which headers
//! to send, how to page through results, how to read a file's contents and
//! which of the relays found in it to keep.
use crate::bindings::{
    base64_standard_decoded, decode_base64_standard, push_char,
    string_from_utf8_lossy, utf8_lossy,
};
use crate::parser::{_kind, _relay, relays_view, RelayView};
use crate::text::{chars_of, str_eq};
use vstd::prelude::*;
use vstd::utf8::{decode_utf8, valid_utf8};

verus! {

#[allow(non_upper_case_globals)]
pub const _agent: &'static str = "rifter-cli";

#[allow(non_upper_case_globals)]
pub const _api_ver: &'static str = "2022-11-28";

// ---------------------------------------------------------------------------
// Search terms and headers
// ---------------------------------------------------------------------------

/// The quoted scheme strings that code search looks for, per protocol.
pub open spec fn needles(kind: _kind) -> Seq<Seq<char>> {
    match kind {
        _kind::Vless => seq!["\"vless://\""@],
        _kind::Trojan => seq!["\"trojan://\""@],
        _kind::Shadowsocks => seq!["\"ss://\""@],
        _kind::Hysteria2 => seq!["\"hysteria2://\""@, "\"hy2://\""@],
    }
}

/// The quoted scheme strings that code search looks for.
pub fn __needles_for(kind: _kind) -> (r: Vec<&'static str>)
    ensures
        r@.map_values(|s: &'static str| s@) == needles(kind),
{
    let r = match kind {
        _kind::Vless => vec!["\"vless://\""],
        _kind::Trojan => vec!["\"trojan://\""],
        _kind::Shadowsocks => vec!["\"ss://\""],
        _kind::Hysteria2 => vec!["\"hysteria2://\"", "\"hy2://\""],
    };
    proof {
        assert(r@.map_values(|s: &'static str| s@) =~= needles(kind));
    }
    r
}

/// The request headers of every API call.
pub open spec fn badge(token: Seq<char>) -> Seq<(Seq<char>, Seq<char>)> {
    seq![
        ("Authorization"@, "Bearer "@ + token),
        ("User-Agent"@, _agent@),
        ("Accept"@, "application/vnd.github+json"@),
        ("X-GitHub-Api-Version"@, _api_ver@),
    ]
}

/// The request headers of every API call.
pub fn __badge(token: &str) -> (r: Vec<(&'static str, String)>)
    ensures
        r@.map_values(|p: (&'static str, String)| (p.0@, p.1@)) == badge(token@),
{
    let r = vec![
        ("Authorization", "Bearer ".to_owned().concat(token)),
        ("User-Agent", _agent.to_owned()),
        ("Accept", "application/vnd.github+json".to_owned()),
        ("X-GitHub-Api-Version", _api_ver.to_owned()),
    ];
    proof {
        assert(r@.map_values(|p: (&'static str, String)| (p.0@, p.1@)) =~= badge(token@));
    }
    r
}

// ---------------------------------------------------------------------------
// Paging through search results
// ---------------------------------------------------------------------------

/// Results asked for per page: the cap, but at least one and at most 100.
pub open spec fn per_page_of(cap: usize) -> usize {
    if cap > 100 {
        100
    } else if cap < 1 {
        1
    } else {
        cap
    }
}

/// How a search request came back.
#[derive(Clone, Copy, Debug, PartialEq, Eq, Structural)]
pub enum StatusClass {
    /// 403 or 429: back off and ask again.
    RateLimited,
    /// Any other status outside 200..=299: give up.
    Failed,
    /// 200..=299: read the page.
    Success,
}

pub open spec fn status_class(code: u16) -> StatusClass {
    if code == 403 || code == 429 {
        StatusClass::RateLimited
    } else if 200 <= code <= 299 {
        StatusClass::Success
    } else {
        StatusClass::Failed
    }
}

/// How a search request with this HTTP status is handled.
pub fn classify_status(code: u16) -> (r: StatusClass)
    ensures
        r == status_class(code),
{
    if code == 403 || code == 429 {
        StatusClass::RateLimited
    } else if 200 <= code && code <= 299 {
        StatusClass::Success
    } else {
        StatusClass::Failed
    }
}

/// Where a paged search stands: how many hits it may collect, how many it
/// asks for per page, the page it asks for next and how many it has.
#[derive(Clone, Copy, Debug)]
pub struct TrawlState {
    pub cap: usize,
    pub per_page: usize,
    pub page: u32,
    pub collected: usize,
}

impl TrawlState {
    pub open spec fn wf(self) -> bool {
        &&& self.collected <= self.cap
        &&& self.per_page == per_page_of(self.cap)
        &&& self.page >= 1
    }

    /// A search that may collect `cap` hits, starting at page 1.
    pub fn new(cap: usize) -> (r: TrawlState)
        ensures
            r.wf(),
            r.cap == cap,
            r.page == 1,
            r.collected == 0,
    {
        let per_page = if cap > 100 {
            100
        } else if cap < 1 {
            1
        } else {
            cap
        };
        TrawlState { cap, per_page, page: 1, collected: 0 }
    }

    /// Whether the search still wants hits.
    pub fn wants_more(&self) -> (r: bool)
        ensures
            r == (self.collected < self.cap),
    {
        self.collected < self.cap
    }

    /// A page with `got` results came back. Returns how many of them to
    /// keep (as many as still fit under the cap) and whether the search is
    /// over (an empty or short page); otherwise the next page is asked for.
    pub fn on_page(&mut self, got: usize) -> (r: (usize, bool))
        requires
            old(self).wf(),
            old(self).collected < old(self).cap,
            got >= old(self).per_page ==> old(self).page < u32::MAX,
        ensures
            final(self).wf(),
            final(self).cap == old(self).cap,
            r.0 == (if got < old(self).cap - old(self).collected {
                got
            } else {
                (old(self).cap - old(self).collected) as usize
            }),
            final(self).collected == old(self).collected + r.0,
            r.1 == (got == 0 || got < old(self).per_page),
            final(self).page == (if r.1 {
                old(self).page
            } else {
                (old(self).page + 1) as u32
            }),
    {
        let room = self.cap - self.collected;
        let take = if got < room {
            got
        } else {
            room
        };
        self.collected = self.collected + take;
        let done = got == 0 || got < self.per_page;
        if !done {
            self.page = self.page + 1;
        }
        (take, done)
    }
}

/// The cap of each needle's search: the protocol's cap shared among its
/// needles, at least one.
pub open spec fn per_needle_cap_of(cap: usize, needles: usize) -> usize {
    let n: usize = if needles < 1 {
        1
    } else {
        needles
    };
    if cap / n < 1 {
        1
    } else {
        (cap / n) as usize
    }
}

/// The cap of each needle's search.
pub fn per_needle_cap(cap: usize, needles: usize) -> (r: usize)
    ensures
        r == per_needle_cap_of(cap, needles),
{
    let n = if needles < 1 {
        1
    } else {
        needles
    };
    let per = cap / n;
    if per < 1 {
        1
    } else {
        per
    }
}

// ---------------------------------------------------------------------------
// File contents
// ---------------------------------------------------------------------------

/// Why a file's contents could not be read.
#[derive(Clone, Debug, PartialEq, Eq)]
pub enum SlurpError {
    /// The reply carried no inline body (the file may be too large).
    NoInlineBody,
    /// The body came in an encoding other than base64.
    UnexpectedEncoding(String),
    /// The body was not valid base64.
    BadBase64,
}

/// `char::is_whitespace`: the characters with the Unicode White_Space
/// property.
pub open spec fn is_white_space(c: char) -> bool {
    ||| ('\u{9}' <= c && c <= '\u{d}')
    ||| c == ' '
    ||| c == '\u{85}'
    ||| c == '\u{a0}'
    ||| c == '\u{1680}'
    ||| ('\u{2000}' <= c && c <= '\u{200a}')
    ||| c == '\u{2028}'
    ||| c == '\u{2029}'
    ||| c == '\u{202f}'
    ||| c == '\u{205f}'
    ||| c == '\u{3000}'
}

pub open spec fn without_white_space(s: Seq<char>) -> Seq<char> {
    s.filter(|c: char| !is_white_space(c))
}

fn is_white_space_exec(c: char) -> (r: bool)
    ensures
        r == is_white_space(c),
{
    ('\u{9}' <= c && c <= '\u{d}') || c == ' ' || c == '\u{85}' || c == '\u{a0}' || c == '\u{1680}'
        || ('\u{2000}' <= c && c <= '\u{200a}') || c == '\u{2028}' || c == '\u{2029}' || c
        == '\u{202f}' || c == '\u{205f}' || c == '\u{3000}'
}

/// `s` with every white-space character removed.
pub fn strip_white_space(s: &str) -> (r: String)
    ensures
        r@ == without_white_space(s@),
{
    let cs = chars_of(s);
    let mut r = String::new();
    let n = cs.len();
    for i in 0..n
        invariant
            n == cs@.len(),
            cs@ == s@,
            r@ == without_white_space(s@.take(i as int)),
    {
        proof {
            reveal(Seq::filter);
            assert(s@.take(i + 1).drop_last() =~= s@.take(i as int));
            assert(s@.take(i + 1).last() == cs@[i as int]);
        }
        if !is_white_space_exec(cs[i]) {
            push_char(&mut r, cs[i]);
        }
    }
    proof {
        assert(s@.take(n as int) =~= s@);
    }
    r
}

/// Stripping white space leaves none, keeps every other character in
/// order (text without white space is left as it is), and strips the parts
/// of a text one after the other.
pub proof fn law_strip_white_space(a: Seq<char>, b: Seq<char>)
    ensures
        forall|i: int|
            0 <= i < without_white_space(a).len() ==> !is_white_space(
                #[trigger] without_white_space(a)[i],
            ),
        (forall|i: int| 0 <= i < a.len() ==> !is_white_space(#[trigger] a[i]))
            ==> without_white_space(a) == a,
        without_white_space(a + b) == without_white_space(a) + without_white_space(b),
{
    let pred = |c: char| !is_white_space(c);
    assert forall|i: int| 0 <= i < without_white_space(a).len() implies !is_white_space(
        #[trigger] without_white_space(a)[i],
    ) by {
        a.lemma_filter_pred(pred, i);
    }
    if forall|i: int| 0 <= i < a.len() ==> !is_white_space(#[trigger] a[i]) {
        lemma_keep_clean(a);
    }
    Seq::filter_distributes_over_add(a, b, pred);
}

proof fn lemma_keep_clean(a: Seq<char>)
    requires
        forall|i: int| 0 <= i < a.len() ==> !is_white_space(#[trigger] a[i]),
    ensures
        without_white_space(a) == a,
    decreases a.len(),
{
    reveal(Seq::filter);
    if a.len() > 0 {
        assert forall|i: int| 0 <= i < a.drop_last().len() implies !is_white_space(
            #[trigger] a.drop_last()[i],
        ) by {
            assert(a.drop_last()[i] == a[i]);
        }
        lemma_keep_clean(a.drop_last());
        assert(!is_white_space(a[a.len() - 1]));
        assert(a.drop_last().push(a.last()) =~= a);
    }
}

/// Each needle's search may collect at least one hit, and the needles'
/// caps together never exceed the protocol's cap when it leaves each
/// needle at least one; they fall short of it by less than one per needle.
pub proof fn law_per_needle_cap(cap: usize, needles: usize)
    ensures
        per_needle_cap_of(cap, needles) >= 1,
        needles >= 1 && cap >= needles ==> per_needle_cap_of(cap, needles) * needles <= cap
            && cap < (per_needle_cap_of(cap, needles) + 1) * needles,
        needles == 0 ==> per_needle_cap_of(cap, needles) == (if cap < 1 {
            1
        } else {
            cap
        }),
{
    if needles >= 1 && cap >= needles {
        let q = cap / needles;
        assert(q >= 1) by (nonlinear_arith)
            requires
                needles >= 1,
                cap >= needles,
                q == cap / needles,
        ;
        assert(q * needles <= cap && cap < (q + 1) * needles) by (nonlinear_arith)
            requires
                needles >= 1,
                q == cap / needles,
        ;
    }
}

/// The text of a file as the contents API returns it: the body must be
/// inline and base64; white space is dropped before decoding, and bytes
/// that are not UTF-8 are read leniently.
pub fn decode_contents(content: Option<String>, encoding: Option<String>) -> (r: Result<
    String,
    SlurpError,
>)
    ensures
        match (content, encoding) {
            (Some(c), Some(e)) => if e@ == "base64"@ {
                match base64_standard_decoded(without_white_space(c@)) {
                    Some(b) => r matches Ok(t) && t@ == utf8_lossy(b) && (valid_utf8(b) ==> t@
                        == decode_utf8(b)),
                    None => r == Err::<String, SlurpError>(SlurpError::BadBase64),
                }
            } else {
                r matches Err(SlurpError::UnexpectedEncoding(x)) && x@ == e@
            },
            _ => r == Err::<String, SlurpError>(SlurpError::NoInlineBody),
        },
{
    let (c, e) = match (content, encoding) {
        (Some(c), Some(e)) => (c, e),
        _ => return Err(SlurpError::NoInlineBody),
    };
    if !str_eq(e.as_str(), "base64") {
        return Err(SlurpError::UnexpectedEncoding(e));
    }
    let cleaned = strip_white_space(c.as_str());
    match decode_base64_standard(cleaned.as_str()) {
        Some(bytes) => Ok(string_from_utf8_lossy(bytes.as_slice())),
        None => Err(SlurpError::BadBase64),
    }
}

// ---------------------------------------------------------------------------
// Relays found in a file
// ---------------------------------------------------------------------------

/// A relay with the repository and path it was found in.
pub open spec fn with_source(v: RelayView, repo: Seq<char>, path: Seq<char>) -> RelayView {
    RelayView { source_repo: Some(repo), source_path: Some(path), ..v }
}

/// The relays of the searched protocol among those found in a file, each
/// marked with where it was found.
pub open spec fn claimed(s: Seq<RelayView>, kind: _kind, repo: Seq<char>, path: Seq<char>) -> Seq<
    RelayView,
> {
    s.filter(|v: RelayView| v.kind == kind).map_values(|v: RelayView| with_source(v, repo, path))
}

/// Each relay kept from a file is of the searched protocol and marked with
/// the repository and path it was found in, all else as found; every relay
/// of that protocol found there is kept, and nothing else.
pub proof fn law_claimed(s: Seq<RelayView>, kind: _kind, repo: Seq<char>, path: Seq<char>, i: int, j: int)
    ensures
        0 <= i < claimed(s, kind, repo, path).len() ==> {
            let c = claimed(s, kind, repo, path)[i];
            &&& c.kind == kind
            &&& c.source_repo == Some(repo)
            &&& c.source_path == Some(path)
            &&& exists|o: int|
                0 <= o < s.len() && s[o].kind == kind && c == (RelayView {
                    source_repo: Some(repo),
                    source_path: Some(path),
                    ..s[o]
                })
        },
        0 <= j < s.len() && s[j].kind == kind ==> claimed(s, kind, repo, path).contains(
            (RelayView { source_repo: Some(repo), source_path: Some(path), ..s[j] }),
        ),
        claimed(s, kind, repo, path).len() <= s.len(),
{
    let pred = |v: RelayView| v.kind == kind;
    let f = s.filter(pred);
    let g = |v: RelayView| with_source(v, repo, path);
    s.lemma_filter_len(pred);
    if 0 <= i < claimed(s, kind, repo, path).len() {
        s.lemma_filter_pred(pred, i);
        assert(f.contains(f[i]));
        s.lemma_filter_contains_rev(pred, f[i]);
        let o = choose|o: int| 0 <= o < s.len() && s[o] == f[i];
        assert(claimed(s, kind, repo, path)[i] == g(f[i]));
        assert(claimed(s, kind, repo, path)[i] == (RelayView {
            source_repo: Some(repo),
            source_path: Some(path),
            ..s[o]
        }));
    }
    if 0 <= j < s.len() && s[j].kind == kind {
        s.lemma_filter_contains(pred, j);
        let q = choose|q: int| 0 <= q < f.len() && f[q] == s[j];
        assert(claimed(s, kind, repo, path)[q] == g(s[j]));
    }
}

/// The relays of the searched protocol among those found in a file, each
/// marked with the repository and path it was found in.
pub fn claim_relays(found: Vec<_relay>, kind: _kind, repo: &str, path: &str) -> (r: Vec<_relay>)
    ensures
        relays_view(r@) == claimed(relays_view(found@), kind, repo@, path@),
{
    let ghost s = relays_view(found@);
    let mut out: Vec<_relay> = Vec::new();
    for x in it: found
        invariant
            s == relays_view(it.seq()),
            relays_view(out@) == claimed(s.take(it.index() as int), kind, repo@, path@),
    {
        let ghost i = it.index();
        let ghost before = out@;
        proof {
            reveal(Seq::filter);
            assert(s.take(i + 1).drop_last() =~= s.take(i as int));
            assert(s.take(i + 1).last() == x@);
        }
        if x._kind == kind {
            let mut y = x;
            y.source_repo = Some(repo.to_owned());
            y.source_path = Some(path.to_owned());
            out.push(y);
            proof {
                assert(y@ =~= with_source(x@, repo@, path@));
                assert(relays_view(out@) =~= relays_view(before).push(y@));
                assert(s.take(i + 1).filter(|v: RelayView| v.kind == kind) =~= s.take(
                    i as int,
                ).filter(|v: RelayView| v.kind == kind).push(x@));
                assert(relays_view(out@) =~= claimed(s.take(i + 1), kind, repo@, path@));
            }
        } else {
            proof {
                assert(s.take(i + 1).filter(|v: RelayView| v.kind == kind) =~= s.take(
                    i as int,
                ).filter(|v: RelayView| v.kind == kind));
            }
        }
    }
    proof {
        assert(s.take(s.len() as int) =~= s);
    }
    out
}

} // verus!
