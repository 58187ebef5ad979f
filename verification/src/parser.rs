//! Share links of the four relay protocols (`vless://`, `trojan://`,
//! `ss://`, `hysteria2://` and its alias `hy2://`) turned into relay records.
use crate::bindings::{
    base64_standard_decoded, base64_url_safe_decoded, decode_base64_standard,
    decode_base64_url_safe, find_all, opt_chars, pairs_view, parse_url, percent_decode,
    percent_decode_bytes, percent_decoded, regex_matches, string_from_utf8, strings_view,
    url_fragment, url_host, url_parses, url_port, url_query_pairs, url_username, UrlParts,
};
use crate::text::{
    ascii_lowercase, chars_of, contains_seq, eq_ignore_case, eq_ignore_case_exec, has_prefix,
    has_prefix_ignore_case, has_prefix_ignore_case_exec, has_prefix_str, is_first_occurrence,
    leading_digits, leading_digits_str, lower_code, occurs_at, parse_u16, parse_u16_str,
    replace_first, replace_first_str, same_up_to_case, split_once, split_once_char, str_eq,
};
use vstd::prelude::*;
use vstd::utf8::{decode_utf8, encode_scalar, encode_utf8, valid_utf8};

verus! {

// ---------------------------------------------------------------------------
// Protocols
// ---------------------------------------------------------------------------

/// The relay protocols this library understands.
#[derive(Clone, Copy, Debug, PartialEq, Eq, Structural)]
pub enum _kind {
    Vless,
    Trojan,
    Shadowsocks,
    Hysteria2,
}

/// The canonical lower-case name of each protocol.
pub open spec fn kind_name(k: _kind) -> Seq<char> {
    match k {
        _kind::Vless => "vless"@,
        _kind::Trojan => "trojan"@,
        _kind::Shadowsocks => "shadowsocks"@,
        _kind::Hysteria2 => "hysteria2"@,
    }
}

/// The protocol that a name denotes, in any ASCII case; `ss` and `hy2` are
/// accepted as aliases.
pub open spec fn kind_named(s: Seq<char>) -> Option<_kind> {
    if eq_ignore_case(s, "vless"@) {
        Some(_kind::Vless)
    } else if eq_ignore_case(s, "trojan"@) {
        Some(_kind::Trojan)
    } else if eq_ignore_case(s, "ss"@) || eq_ignore_case(s, "shadowsocks"@) {
        Some(_kind::Shadowsocks)
    } else if eq_ignore_case(s, "hysteria2"@) || eq_ignore_case(s, "hy2"@) {
        Some(_kind::Hysteria2)
    } else {
        None
    }
}

/// `l` is `s` with ASCII upper-case letters turned to lower case.
pub open spec fn is_lowercase_of(l: Seq<char>, s: Seq<char>) -> bool {
    &&& l.len() == s.len()
    &&& forall|i: int| 0 <= i < s.len() ==> #[trigger] (l[i] as u32) == lower_code(s[i])
}

impl _kind {
    /// The canonical lower-case name of the protocol.
    pub fn as_str(&self) -> (r: &'static str)
        ensures
            r@ == kind_name(*self),
    {
        match self {
            _kind::Vless => "vless",
            _kind::Trojan => "trojan",
            _kind::Shadowsocks => "shadowsocks",
            _kind::Hysteria2 => "hysteria2",
        }
    }

    /// The protocol that `s` names (see `kind_named`); otherwise the error
    /// `unknown protocol: ` followed by `s` in lower case.
    pub fn parse_name(s: &str) -> (r: Result<_kind, String>)
        ensures
            match r {
                Ok(k) => kind_named(s@) == Some(k),
                Err(e) => {
                    &&& kind_named(s@) is None
                    &&& has_prefix(e@, "unknown protocol: "@)
                    &&& is_lowercase_of(e@.skip("unknown protocol: "@.len() as int), s@)
                },
            },
    {
        let cs = chars_of(s);
        if eq_ignore_case_exec(&cs, "vless") {
            Ok(_kind::Vless)
        } else if eq_ignore_case_exec(&cs, "trojan") {
            Ok(_kind::Trojan)
        } else if eq_ignore_case_exec(&cs, "ss") || eq_ignore_case_exec(&cs, "shadowsocks") {
            Ok(_kind::Shadowsocks)
        } else if eq_ignore_case_exec(&cs, "hysteria2") || eq_ignore_case_exec(&cs, "hy2") {
            Ok(_kind::Hysteria2)
        } else {
            let lowered = ascii_lowercase(s);
            let e = "unknown protocol: ".to_owned().concat(lowered.as_str());
            proof {
                let p = "unknown protocol: "@;
                assert(e@.take(p.len() as int) =~= p);
                assert(e@.skip(p.len() as int) =~= lowered@);
            }
            Err(e)
        }
    }
}

impl std::str::FromStr for _kind {
    type Err = String;

    fn from_str(s: &str) -> (r: Result<Self, Self::Err>)
        ensures
            match r {
                Ok(k) => kind_named(s@) == Some(k),
                Err(e) => {
                    &&& kind_named(s@) is None
                    &&& has_prefix(e@, "unknown protocol: "@)
                    &&& is_lowercase_of(e@.skip("unknown protocol: "@.len() as int), s@)
                },
            },
    {
        _kind::parse_name(s)
    }
}

// ---------------------------------------------------------------------------
// Extra parameters
// ---------------------------------------------------------------------------

/// The map that inserting the pairs in order builds; a later pair wins over
/// an earlier one with the same key.
pub open spec fn pairs_map(s: Seq<(Seq<char>, Seq<char>)>) -> Map<Seq<char>, Seq<char>>
    decreases s.len(),
{
    if s.len() == 0 {
        Map::empty()
    } else {
        pairs_map(s.drop_last()).insert(s.last().0, s.last().1)
    }
}

pub proof fn lemma_pairs_map_last(s: Seq<(Seq<char>, Seq<char>)>, k: Seq<char>, i: int)
    requires
        0 <= i < s.len(),
        s[i].0 == k,
        forall|j: int| i < j < s.len() ==> s[j].0 != k,
    ensures
        pairs_map(s).contains_key(k),
        pairs_map(s)[k] == s[i].1,
    decreases s.len(),
{
    if i < s.len() - 1 {
        assert(s.last() == s[s.len() - 1]);
        lemma_pairs_map_last(s.drop_last(), k, i);
    }
}

pub proof fn lemma_pairs_map_absent(s: Seq<(Seq<char>, Seq<char>)>, k: Seq<char>)
    requires
        forall|j: int| 0 <= j < s.len() ==> s[j].0 != k,
    ensures
        !pairs_map(s).contains_key(k),
    decreases s.len(),
{
    if s.len() > 0 {
        assert(s.last() == s[s.len() - 1]);
        lemma_pairs_map_absent(s.drop_last(), k);
    }
}

/// Extra link parameters: a string-to-string map.
#[derive(Clone, Debug)]
pub struct Extras {
    entries: Vec<(String, String)>,
}

impl View for Extras {
    type V = Map<Seq<char>, Seq<char>>;

    closed spec fn view(&self) -> Map<Seq<char>, Seq<char>> {
        pairs_map(pairs_view(self.entries@))
    }
}

impl Extras {
    /// The empty map.
    pub fn new() -> (r: Extras)
        ensures
            r@ == Map::<Seq<char>, Seq<char>>::empty(),
    {
        let r = Extras { entries: Vec::new() };
        proof {
            assert(pairs_view(r.entries@) =~= seq![]);
        }
        r
    }

    /// The map that inserting `pairs` in order builds.
    pub fn from_pairs(pairs: Vec<(String, String)>) -> (r: Extras)
        ensures
            r@ == pairs_map(pairs_view(pairs@)),
    {
        Extras { entries: pairs }
    }

    /// Sets `key` to `value`, replacing what `key` held.
    pub fn insert(&mut self, key: String, value: String)
        ensures
            final(self)@ == old(self)@.insert(key@, value@),
    {
        let ghost before = self.entries@;
        self.entries.push((key, value));
        proof {
            assert(pairs_view(self.entries@).drop_last() =~= pairs_view(before));
        }
    }

    /// The value that `key` holds.
    pub fn get(&self, key: &str) -> (r: Option<&String>)
        ensures
            r matches Some(v) ==> self@.contains_key(key@) && self@[key@] == v@,
            r is None ==> !self@.contains_key(key@),
    {
        let ghost pv = pairs_view(self.entries@);
        let mut i: usize = self.entries.len();
        while i > 0
            invariant
                i <= self.entries.len(),
                pv == pairs_view(self.entries@),
                forall|j: int| i <= j < pv.len() ==> pv[j].0 != key@,
            decreases i,
        {
            i = i - 1;
            if str_eq(self.entries[i].0.as_str(), key) {
                proof {
                    lemma_pairs_map_last(pv, key@, i as int);
                }
                return Some(&self.entries[i].1);
            }
        }
        proof {
            lemma_pairs_map_absent(pv, key@);
        }
        None
    }

    /// A copy of this map.
    pub fn duplicate(&self) -> (r: Extras)
        ensures
            r@ == self@,
    {
        let mut entries: Vec<(String, String)> = Vec::new();
        let n = self.entries.len();
        for i in 0..n
            invariant
                n == self.entries@.len(),
                entries@ == self.entries@.take(i as int),
        {
            let k = self.entries[i].0.clone();
            let v = self.entries[i].1.clone();
            entries.push((k, v));
            proof {
                assert(entries@ =~= self.entries@.take(i + 1));
            }
        }
        proof {
            assert(entries@ =~= self.entries@);
        }
        Extras { entries }
    }

    /// The pairs inserted so far, in order; inserting them in order into an
    /// empty map gives this map.
    pub fn entries(&self) -> (r: &Vec<(String, String)>)
        ensures
            pairs_map(pairs_view(r@)) == self@,
    {
        &self.entries
    }
}

// ---------------------------------------------------------------------------
// Relay records
// ---------------------------------------------------------------------------

/// One relay: where it is, how to authenticate, what to call it, and what
/// later stages (discovery, validation) learned of it.
#[derive(Clone, Debug)]
pub struct _relay {
    pub _kind: _kind,
    pub _addr: String,
    pub _port: u16,
    pub _secret: String,
    pub _tag: String,
    pub _extra: Extras,
    pub source_repo: Option<String>,
    pub source_path: Option<String>,
    pub alive: Option<bool>,
    pub ping_ms: Option<u64>,
    pub checked_at: Option<String>,
}

/// A relay record as plain values.
#[verifier::ext_equal]
pub struct RelayView {
    pub kind: _kind,
    pub addr: Seq<char>,
    pub port: u16,
    pub secret: Seq<char>,
    pub tag: Seq<char>,
    pub extra: Map<Seq<char>, Seq<char>>,
    pub source_repo: Option<Seq<char>>,
    pub source_path: Option<Seq<char>>,
    pub alive: Option<bool>,
    pub ping_ms: Option<u64>,
    pub checked_at: Option<Seq<char>>,
}

impl View for _relay {
    type V = RelayView;

    open spec fn view(&self) -> RelayView {
        RelayView {
            kind: self._kind,
            addr: self._addr@,
            port: self._port,
            secret: self._secret@,
            tag: self._tag@,
            extra: self._extra@,
            source_repo: opt_chars(self.source_repo),
            source_path: opt_chars(self.source_path),
            alive: self.alive,
            ping_ms: self.ping_ms,
            checked_at: opt_chars(self.checked_at),
        }
    }
}

fn copy_opt_string(o: &Option<String>) -> (r: Option<String>)
    ensures
        opt_chars(r) == opt_chars(*o),
{
    match o {
        Some(s) => Some(s.clone()),
        None => None,
    }
}

impl _relay {
    /// A copy of this relay.
    pub fn duplicate(&self) -> (r: _relay)
        ensures
            r@ == self@,
    {
        _relay {
            _kind: self._kind,
            _addr: self._addr.clone(),
            _port: self._port,
            _secret: self._secret.clone(),
            _tag: self._tag.clone(),
            _extra: self._extra.duplicate(),
            source_repo: copy_opt_string(&self.source_repo),
            source_path: copy_opt_string(&self.source_path),
            alive: self.alive,
            ping_ms: self.ping_ms,
            checked_at: copy_opt_string(&self.checked_at),
        }
    }
}

pub open spec fn opt_relay(o: Option<_relay>) -> Option<RelayView> {
    match o {
        Some(r) => Some(r@),
        None => None,
    }
}

pub open spec fn relays_view(s: Seq<_relay>) -> Seq<RelayView> {
    s.map_values(|r: _relay| r@)
}

/// A relay as a parser makes it: nothing yet known of its source or
/// liveness.
pub open spec fn fresh(
    kind: _kind,
    addr: Seq<char>,
    port: u16,
    secret: Seq<char>,
    tag: Seq<char>,
    extra: Map<Seq<char>, Seq<char>>,
) -> RelayView {
    RelayView {
        kind,
        addr,
        port,
        secret,
        tag,
        extra,
        source_repo: None,
        source_path: None,
        alive: None,
        ping_ms: None,
        checked_at: None,
    }
}

fn fresh_relay(kind: _kind, addr: String, port: u16, secret: String, tag: String, extra: Extras) -> (r:
    _relay)
    ensures
        r@ == fresh(kind, addr@, port, secret@, tag@, extra@),
{
    _relay {
        _kind: kind,
        _addr: addr,
        _port: port,
        _secret: secret,
        _tag: tag,
        _extra: extra,
        source_repo: None,
        source_path: None,
        alive: None,
        ping_ms: None,
        checked_at: None,
    }
}

// ---------------------------------------------------------------------------
// What each link parses to
// ---------------------------------------------------------------------------

/// The protocol that a link's scheme announces, in any ASCII case.
pub open spec fn sniff(u: Seq<char>) -> Option<_kind> {
    if has_prefix_ignore_case(u, "vless://"@) {
        Some(_kind::Vless)
    } else if has_prefix_ignore_case(u, "trojan://"@) {
        Some(_kind::Trojan)
    } else if has_prefix_ignore_case(u, "ss://"@) {
        Some(_kind::Shadowsocks)
    } else if has_prefix_ignore_case(u, "hysteria2://"@) || has_prefix_ignore_case(u, "hy2://"@) {
        Some(_kind::Hysteria2)
    } else {
        None
    }
}

/// `s` percent-decoded, or `s` itself where that fails.
pub open spec fn decoded_or_raw(s: Seq<char>) -> Seq<char> {
    match percent_decoded(s) {
        Some(d) => d,
        None => s,
    }
}

/// The tag of a link: its fragment, percent-decoded where possible, or
/// the fallback where there is no fragment.
pub open spec fn tag_from(fragment: Option<Seq<char>>, fallback: Seq<char>) -> Seq<char> {
    match fragment {
        Some(f) => decoded_or_raw(f),
        None => fallback,
    }
}

/// A URL-shaped link of the given protocol: it must parse and carry a host
/// and an explicit port.
pub open spec fn url_relay(kind: _kind, u: Seq<char>, fallback: Seq<char>) -> Option<RelayView> {
    if url_parses(u) && url_host(u) is Some && url_port(u) is Some {
        Some(
            fresh(
                kind,
                url_host(u)->0,
                url_port(u)->0,
                url_username(u),
                tag_from(url_fragment(u), fallback),
                pairs_map(url_query_pairs(u)),
            ),
        )
    } else {
        None
    }
}

/// The relay that the parts of a parsed link describe: it needs a host and
/// a port; the tag comes from the fragment and the extras from the query.
pub open spec fn parts_relay(kind: _kind, parts: UrlParts, fallback: Seq<char>) -> Option<RelayView> {
    match (parts.host, parts.port) {
        (Some(host), Some(port)) => Some(
            fresh(
                kind,
                host@,
                port,
                parts.username@,
                tag_from(opt_chars(parts.fragment), fallback),
                pairs_map(pairs_view(parts.query_pairs@)),
            ),
        ),
        _ => None,
    }
}

/// A Hysteria2 link with its first `hy2://` spelled `hysteria2://`.
pub open spec fn hy2_normalized(u: Seq<char>) -> Seq<char> {
    replace_first(u, "hy2://"@, "hysteria2://"@)
}

/// `chunk` padded with `=` to a whole number of base64 quads, judged by its
/// length in UTF-8 bytes.
pub open spec fn padded(chunk: Seq<char>) -> Seq<char> {
    let n = encode_utf8(chunk).len() % 4;
    if n == 2 {
        chunk + "=="@
    } else if n == 3 {
        chunk + "="@
    } else {
        chunk
    }
}

/// Lenient base64: padded, decoded with the URL-safe alphabet or else the
/// standard one, and read as UTF-8.
pub open spec fn loosened(chunk: Seq<char>) -> Option<Seq<char>> {
    let p = padded(chunk);
    let bytes = match base64_url_safe_decoded(p) {
        Some(b) => Some(b),
        None => base64_standard_decoded(p),
    };
    match bytes {
        Some(b) => if valid_utf8(b) {
            Some(decode_utf8(b))
        } else {
            None
        },
        None => None,
    }
}

/// The extra parameters of a Shadowsocks relay: its cipher.
pub open spec fn method_map(method: Seq<char>) -> Map<Seq<char>, Seq<char>> {
    Map::empty().insert("method"@, method)
}

/// The decoded legacy form `method:secret@host:port`.
pub open spec fn ss_legacy(decoded: Seq<char>, tag: Seq<char>) -> Option<RelayView> {
    match split_once(decoded, '@') {
        None => None,
        Some((creds, hostport)) => match split_once(creds, ':') {
            None => None,
            Some((method, secret)) => match split_once(hostport, ':') {
                None => None,
                Some((addr, port_str)) => match parse_u16(port_str) {
                    None => None,
                    Some(port) => Some(
                        fresh(_kind::Shadowsocks, addr, port, secret, tag, method_map(method)),
                    ),
                },
            },
        },
    }
}

/// The form `base64(method:secret)@host:port...`; the port is the run of
/// digits that follows the first `:` of `host:port...`.
pub open spec fn ss_userinfo(userinfo: Seq<char>, hostport: Seq<char>, tag: Seq<char>) -> Option<
    RelayView,
> {
    match loosened(userinfo) {
        None => None,
        Some(decoded) => ss_userinfo_decoded(decoded, hostport, tag),
    }
}

/// The userinfo form once its credentials are decoded to `method:secret`.
pub open spec fn ss_userinfo_decoded(decoded: Seq<char>, hostport: Seq<char>, tag: Seq<char>) -> Option<
    RelayView,
> {
    match split_once(decoded, ':') {
        None => None,
        Some((method, secret)) => match split_once(hostport, ':') {
            None => None,
            Some((addr, port_str)) => match parse_u16(leading_digits(port_str)) {
                None => None,
                Some(port) => Some(
                    fresh(_kind::Shadowsocks, addr, port, secret, tag, method_map(method)),
                ),
            },
        },
    }
}

/// The part of a Shadowsocks link before its first `#`, and the raw tag
/// after it (`ss` where there is none).
pub open spec fn ss_head_and_tag(body: Seq<char>) -> (Seq<char>, Seq<char>) {
    match split_once(body, '#') {
        Some(p) => p,
        None => (body, "ss"@),
    }
}

/// A Shadowsocks link, in either of its two forms.
pub open spec fn ss_relay(u: Seq<char>) -> Option<RelayView> {
    if !has_prefix(u, "ss://"@) {
        None
    } else {
        let body = u.skip("ss://"@.len() as int);
        let head = ss_head_and_tag(body).0;
        let tag = decoded_or_raw(ss_head_and_tag(body).1);
        match split_once(head, '@') {
            Some((userinfo, hostport)) => ss_userinfo(userinfo, hostport, tag),
            None => match loosened(head) {
                Some(decoded) => ss_legacy(decoded, tag),
                None => None,
            },
        }
    }
}

/// The relay that a single share link describes, if any.
pub open spec fn carve(u: Seq<char>) -> Option<RelayView> {
    match sniff(u) {
        Some(_kind::Vless) => url_relay(_kind::Vless, u, "vless"@),
        Some(_kind::Trojan) => url_relay(_kind::Trojan, u, "trojan"@),
        Some(_kind::Shadowsocks) => ss_relay(u),
        Some(_kind::Hysteria2) => url_relay(_kind::Hysteria2, hy2_normalized(u), "hysteria2"@),
        None => None,
    }
}

/// The relays that a list of candidate links describes, in order; links
/// that describe none are skipped.
pub open spec fn harvest(ms: Seq<Seq<char>>) -> Seq<RelayView> {
    ms.filter_map(|m: Seq<char>| carve(m))
}

/// The pattern that picks candidate share links out of free text.
pub const LINK_PATTERN: &'static str = r#"(?i)(vless|trojan|ss|hysteria2|hy2)://[^\s'"<>]+"#;

// ---------------------------------------------------------------------------
// Parsers
// ---------------------------------------------------------------------------

/// The protocol that the link's scheme announces, in any ASCII case.
pub fn __scheme_sniff(uri: &str) -> (r: Option<_kind>)
    ensures
        r == sniff(uri@),
{
    let cs = chars_of(uri);
    if has_prefix_ignore_case_exec(&cs, "vless://") {
        Some(_kind::Vless)
    } else if has_prefix_ignore_case_exec(&cs, "trojan://") {
        Some(_kind::Trojan)
    } else if has_prefix_ignore_case_exec(&cs, "ss://") {
        Some(_kind::Shadowsocks)
    } else if has_prefix_ignore_case_exec(&cs, "hysteria2://") || has_prefix_ignore_case_exec(
        &cs,
        "hy2://",
    ) {
        Some(_kind::Hysteria2)
    } else {
        None
    }
}

/// The query parameters of a parsed link, a later one winning over an
/// earlier one with the same name.
pub fn __query_shred(parts: &UrlParts) -> (r: Extras)
    ensures
        r@ == pairs_map(pairs_view(parts.query_pairs@)),
{
    let mut pairs: Vec<(String, String)> = Vec::new();
    let n = parts.query_pairs.len();
    for i in 0..n
        invariant
            n == parts.query_pairs@.len(),
            pairs@ == parts.query_pairs@.take(i as int),
    {
        let k = parts.query_pairs[i].0.clone();
        let v = parts.query_pairs[i].1.clone();
        pairs.push((k, v));
        proof {
            assert(pairs@ =~= parts.query_pairs@.take(i + 1));
        }
    }
    proof {
        assert(pairs@ =~= parts.query_pairs@);
    }
    Extras::from_pairs(pairs)
}

/// `s` percent-decoded, or `s` itself where that fails.
fn decode_or_keep(s: String) -> (r: String)
    ensures
        r@ == decoded_or_raw(s@),
{
    match percent_decode(s.as_str()) {
        Some(d) => d,
        None => s,
    }
}

/// The tag of a parsed link: its fragment, percent-decoded where possible,
/// or `fallback` where there is no fragment.
pub fn __tag_pluck(parts: &UrlParts, fallback: &str) -> (r: String)
    ensures
        r@ == tag_from(opt_chars(parts.fragment), fallback@),
{
    match &parts.fragment {
        Some(f) => decode_or_keep(f.clone()),
        None => fallback.to_owned(),
    }
}

/// The relay that the parts of a parsed link describe: it needs a host and
/// a port; the tag is the decoded fragment or `fallback`, the extras the
/// query parameters.
pub fn relay_from_parts(kind: _kind, parts: &UrlParts, fallback: &str) -> (r: Option<_relay>)
    ensures
        opt_relay(r) == parts_relay(kind, *parts, fallback@),
{
    let addr = match &parts.host {
        Some(h) => h.clone(),
        None => return None,
    };
    let port = match parts.port {
        Some(p) => p,
        None => return None,
    };
    let tag = __tag_pluck(parts, fallback);
    let extra = __query_shred(parts);
    let r = fresh_relay(kind, addr, port, parts.username.clone(), tag, extra);
    proof {
        assert(r@ =~= parts_relay(kind, *parts, fallback@)->0);
    }
    Some(r)
}

/// A URL-shaped link of the given protocol.
fn url_carve(kind: _kind, uri: &str, fallback: &str) -> (r: Option<_relay>)
    ensures
        opt_relay(r) == url_relay(kind, uri@, fallback@),
{
    let parts = match parse_url(uri) {
        Some(p) => p,
        None => return None,
    };
    let r = relay_from_parts(kind, &parts, fallback);
    proof {
        if r is Some {
            assert(r->0@ =~= url_relay(kind, uri@, fallback@)->0);
        }
    }
    r
}

/// A `vless://` link.
pub fn __vless_carve(uri: &str) -> (r: Option<_relay>)
    ensures
        opt_relay(r) == url_relay(_kind::Vless, uri@, "vless"@),
{
    url_carve(_kind::Vless, uri, "vless")
}

/// A `trojan://` link.
pub fn __trojan_carve(uri: &str) -> (r: Option<_relay>)
    ensures
        opt_relay(r) == url_relay(_kind::Trojan, uri@, "trojan"@),
{
    url_carve(_kind::Trojan, uri, "trojan")
}

/// A `hysteria2://` or `hy2://` link; its first `hy2://` is read as
/// `hysteria2://`.
pub fn __hy2_carve(uri: &str) -> (r: Option<_relay>)
    ensures
        opt_relay(r) == url_relay(_kind::Hysteria2, hy2_normalized(uri@), "hysteria2"@),
{
    let normalized = replace_first_str(uri, "hy2://", "hysteria2://");
    url_carve(_kind::Hysteria2, normalized.as_str(), "hysteria2")
}

/// Lenient base64 of a text: padded, decoded with either alphabet, read as
/// UTF-8.
pub fn __b64_loosen(chunk: &str) -> (r: Option<String>)
    ensures
        opt_chars(r) == loosened(chunk@),
{
    let n = chunk.as_bytes().len() % 4;
    let padded_text: String = if n == 2 {
        chunk.to_owned().concat("==")
    } else if n == 3 {
        chunk.to_owned().concat("=")
    } else {
        chunk.to_owned()
    };
    proof {
        assert(n == encode_utf8(chunk@).len() % 4);
        assert(padded_text@ == padded(chunk@));
    }
    let bytes = match decode_base64_url_safe(padded_text.as_str()) {
        Some(b) => Some(b),
        None => decode_base64_standard(padded_text.as_str()),
    };
    match bytes {
        Some(b) => string_from_utf8(b),
        None => None,
    }
}

/// The decoded legacy Shadowsocks form `method:secret@host:port`.
pub fn __ss_legacy_carve(decoded: &str, tag: &str) -> (r: Option<_relay>)
    ensures
        opt_relay(r) == ss_legacy(decoded@, tag@),
{
    let (creds, hostport) = match split_once_char(decoded, '@') {
        Some(p) => p,
        None => return None,
    };
    let (method, secret) = match split_once_char(creds.as_str(), ':') {
        Some(p) => p,
        None => return None,
    };
    let (addr, port_str) = match split_once_char(hostport.as_str(), ':') {
        Some(p) => p,
        None => return None,
    };
    let port = match parse_u16_str(port_str.as_str()) {
        Some(p) => p,
        None => return None,
    };
    let mut extra = Extras::new();
    extra.insert("method".to_owned(), method);
    let r = fresh_relay(_kind::Shadowsocks, addr, port, secret, tag.to_owned(), extra);
    proof {
        assert(r@ =~= ss_legacy(decoded@, tag@)->0);
    }
    Some(r)
}

/// The form `base64(method:secret)@host:port...`.
fn ss_userinfo_carve(userinfo: &str, hostport: &str, tag: String) -> (r: Option<_relay>)
    ensures
        opt_relay(r) == ss_userinfo(userinfo@, hostport@, tag@),
{
    match __b64_loosen(userinfo) {
        Some(decoded) => ss_userinfo_from_decoded(decoded.as_str(), hostport, tag),
        None => None,
    }
}

/// The userinfo Shadowsocks form once its credentials are decoded:
/// `method:secret` and `host:port...`, where the port is the run of digits
/// after the first `:`.
pub fn ss_userinfo_from_decoded(decoded: &str, hostport: &str, tag: String) -> (r: Option<_relay>)
    ensures
        opt_relay(r) == ss_userinfo_decoded(decoded@, hostport@, tag@),
{
    let (method, secret) = match split_once_char(decoded, ':') {
        Some(p) => p,
        None => return None,
    };
    let (addr, port_str) = match split_once_char(hostport, ':') {
        Some(p) => p,
        None => return None,
    };
    let port_clean = leading_digits_str(port_str.as_str());
    let port = match parse_u16_str(port_clean.as_str()) {
        Some(p) => p,
        None => return None,
    };
    let mut extra = Extras::new();
    extra.insert("method".to_owned(), method);
    let r = fresh_relay(_kind::Shadowsocks, addr, port, secret, tag, extra);
    proof {
        assert(r@ =~= ss_userinfo_decoded(decoded@, hostport@, tag@)->0);
    }
    Some(r)
}

/// An `ss://` link, in either of its two forms.
pub fn __ss_carve(uri: &str) -> (r: Option<_relay>)
    ensures
        opt_relay(r) == ss_relay(uri@),
{
    if !has_prefix_str(uri, "ss://") {
        return None;
    }
    let plen = "ss://".unicode_len();
    let n = uri.unicode_len();
    let body = uri.substring_char(plen, n);
    proof {
        assert(body@ =~= uri@.skip("ss://"@.len() as int));
    }
    let (head, tag_raw) = match split_once_char(body, '#') {
        Some(p) => p,
        None => (body.to_owned(), "ss".to_owned()),
    };
    let tag = decode_or_keep(tag_raw);
    match split_once_char(head.as_str(), '@') {
        Some((userinfo, hostport)) => ss_userinfo_carve(userinfo.as_str(), hostport.as_str(), tag),
        None => match __b64_loosen(head.as_str()) {
            Some(decoded) => __ss_legacy_carve(decoded.as_str(), tag.as_str()),
            None => None,
        },
    }
}

/// The relay that a single share link describes, if any.
pub fn __single_carve(uri: &str) -> (r: Option<_relay>)
    ensures
        opt_relay(r) == carve(uri@),
{
    match __scheme_sniff(uri) {
        Some(_kind::Vless) => __vless_carve(uri),
        Some(_kind::Trojan) => __trojan_carve(uri),
        Some(_kind::Shadowsocks) => __ss_carve(uri),
        Some(_kind::Hysteria2) => __hy2_carve(uri),
        None => None,
    }
}

/// The relays that the candidate links describe, in order.
pub fn harvest_matches(matches: &Vec<String>) -> (r: Vec<_relay>)
    ensures
        relays_view(r@) == harvest(strings_view(matches@)),
{
    let mut out: Vec<_relay> = Vec::new();
    let n = matches.len();
    for i in 0..n
        invariant
            n == matches@.len(),
            relays_view(out@) == harvest(strings_view(matches@).take(i as int)),
    {
        let ghost before = out@;
        let ghost ms = strings_view(matches@).take(i + 1);
        proof {
            assert(ms.drop_last() =~= strings_view(matches@).take(i as int));
            assert(ms.last() == matches@[i as int]@);
        }
        match __single_carve(matches[i].as_str()) {
            Some(r) => {
                out.push(r);
                proof {
                    assert(relays_view(out@) =~= relays_view(before) + seq![r@]);
                }
            },
            None => {},
        }
    }
    proof {
        assert(strings_view(matches@).take(n as int) =~= strings_view(matches@));
    }
    out
}

/// Every share link that `LINK_PATTERN` finds in the text, parsed; links
/// that do not parse are skipped.
pub fn __blob_harvest(blob: &str) -> (r: Vec<_relay>)
    ensures
        relays_view(r@) == match regex_matches(LINK_PATTERN@, blob@) {
            Some(ms) => harvest(ms),
            None => Seq::<RelayView>::empty(),
        },
{
    match find_all(LINK_PATTERN, blob) {
        Some(ms) => harvest_matches(&ms),
        None => {
            let r: Vec<_relay> = Vec::new();
            proof {
                assert(relays_view(r@) =~= Seq::<RelayView>::empty());
            }
            r
        },
    }
}

// ---------------------------------------------------------------------------
// Laws
// ---------------------------------------------------------------------------

/// The protocol a link announces does not depend on the ASCII case of its
/// scheme.
pub proof fn law_sniff_ignores_case(a: Seq<char>, b: Seq<char>)
    requires
        same_up_to_case(a, b),
    ensures
        sniff(a) == sniff(b),
{
    assert forall|p: Seq<char>| has_prefix_ignore_case(a, p) == has_prefix_ignore_case(b, p) by {
        if p.len() <= a.len() {
            assert forall|i: int| 0 <= i < p.len() implies (lower_code(a[i]) == lower_code(p[i])
                <==> lower_code(b[i]) == lower_code(p[i])) by {
                assert(lower_code(a[i]) == lower_code(b[i]));
            }
        }
    }
}

/// Reading back the canonical name of a protocol gives that protocol.
pub proof fn law_kind_name_round_trip(k: _kind)
    ensures
        kind_named(kind_name(k)) == Some(k),
{
    reveal_strlit("vless");
    reveal_strlit("trojan");
    reveal_strlit("ss");
    reveal_strlit("shadowsocks");
    reveal_strlit("hysteria2");
    reveal_strlit("hy2");
}

/// Names that agree up to ASCII case name the same protocol.
pub proof fn law_kind_named_ignores_case(a: Seq<char>, b: Seq<char>)
    requires
        same_up_to_case(a, b),
    ensures
        kind_named(a) == kind_named(b),
{
    assert forall|p: Seq<char>| eq_ignore_case(a, p) == eq_ignore_case(b, p) by {
        if a.len() == p.len() {
            assert forall|i: int| 0 <= i < p.len() implies (lower_code(a[i]) == lower_code(p[i])
                <==> lower_code(b[i]) == lower_code(p[i])) by {
                assert(lower_code(a[i]) == lower_code(b[i]));
            }
        }
    }
}

proof fn lemma_lowered_char(c: char, d: char)
    requires
        c as u32 == lower_code(d),
    ensures
        lower_code(c) == lower_code(d),
{
}

/// A text and its ASCII lower-case form agree up to ASCII case.
pub proof fn lemma_lowercase_same_up_to_case(l: Seq<char>, s: Seq<char>)
    requires
        is_lowercase_of(l, s),
    ensures
        same_up_to_case(l, s),
{
    assert forall|i: int| 0 <= i < l.len() implies lower_code(#[trigger] l[i]) == lower_code(
        s[i],
    ) by {
        lemma_lowered_char(l[i], s[i]);
    }
}

/// Parsing a protocol name does not depend on case: a name and its ASCII
/// lower-case form name the same protocol, and parsing the canonical name
/// of a protocol gives that protocol.
pub proof fn law_kind_parse_lowercase(l: Seq<char>, s: Seq<char>, k: _kind)
    requires
        is_lowercase_of(l, s),
    ensures
        kind_named(l) == kind_named(s),
        kind_named(kind_name(k)) == Some(k),
{
    lemma_lowercase_same_up_to_case(l, s);
    law_kind_named_ignores_case(l, s);
    law_kind_name_round_trip(k);
}

/// The relay that a link describes is of the protocol its scheme announces.
pub proof fn law_carve_keeps_kind(u: Seq<char>)
    ensures
        carve(u) matches Some(r) ==> sniff(u) == Some(r.kind),
{
}

/// A parser only describes the relay: where it was found and whether it
/// answers are left for later stages to fill in.
pub proof fn law_carve_is_fresh(u: Seq<char>)
    ensures
        carve(u) matches Some(r) ==> {
            &&& r.source_repo is None
            &&& r.source_path is None
            &&& r.alive is None
            &&& r.ping_ms is None
            &&& r.checked_at is None
        },
{
}

/// Every relay harvested from a list of links is the relay of one of them.
pub proof fn law_harvest_from_links(ms: Seq<Seq<char>>, r: RelayView)
    requires
        harvest(ms).contains(r),
    ensures
        exists|m: Seq<char>| ms.contains(m) && carve(m) == Some(r),
{
    ms.lemma_filter_map_contains(|m: Seq<char>| carve(m), r);
}

proof fn lemma_no_hy2_in_hysteria2_prefix(rest: Seq<char>, j: int)
    requires
        0 <= j < 12,
    ensures
        !occurs_at("hysteria2://"@ + rest, "hy2://"@, j),
{
    reveal_strlit("hysteria2://");
    reveal_strlit("hy2://");
    let u = "hysteria2://"@ + rest;
    let p = "hy2://"@;
    if occurs_at(u, p, j) {
        assert(u.subrange(j, j + 6)[0] == u[j]);
        assert(u.subrange(j, j + 6)[2] == u[j + 2]);
        if j == 0 {
            assert(u[2] == 's');
        } else {
            assert(u[j] == "hysteria2://"@[j]);
        }
    }
}

proof fn lemma_sniff_h_links(u: Seq<char>, p: Seq<char>)
    requires
        p == "hy2://"@ || p == "hysteria2://"@,
        has_prefix(u, p),
    ensures
        sniff(u) == Some(_kind::Hysteria2),
{
    reveal_strlit("hy2://");
    reveal_strlit("hysteria2://");
    reveal_strlit("vless://");
    reveal_strlit("trojan://");
    reveal_strlit("ss://");
    assert(u[0] == u.take(p.len() as int)[0]);
    assert(u[0] == 'h');
    assert(lower_code(u[0]) != lower_code("vless://"@[0]));
    assert(lower_code(u[0]) != lower_code("trojan://"@[0]));
    assert(lower_code(u[0]) != lower_code("ss://"@[0]));
    assert(has_prefix_ignore_case(u, p)) by {
        assert forall|i: int| 0 <= i < p.len() implies lower_code(#[trigger] u[i]) == lower_code(
            p[i],
        ) by {
            assert(u[i] == u.take(p.len() as int)[i]);
        }
    }
}

proof fn lemma_hy2_rewritten(rest: Seq<char>)
    ensures
        hy2_normalized("hy2://"@ + rest) == "hysteria2://"@ + rest,
{
    reveal_strlit("hy2://");
    let a = "hy2://"@ + rest;
    let p = "hy2://"@;
    assert(is_first_occurrence(a, p, 0)) by {
        assert(a.subrange(0, 6) =~= p);
    }
    crate::text::lemma_first_occurrence(a, p, 0);
    assert(a.take(0) + "hysteria2://"@ + a.skip(6) =~= "hysteria2://"@ + rest);
}

proof fn lemma_hysteria2_kept(rest: Seq<char>)
    requires
        !contains_seq(rest, "hy2://"@),
    ensures
        hy2_normalized("hysteria2://"@ + rest) == "hysteria2://"@ + rest,
{
    reveal_strlit("hy2://");
    reveal_strlit("hysteria2://");
    let b = "hysteria2://"@ + rest;
    let p = "hy2://"@;
    assert forall|j: int| !occurs_at(b, p, j) by {
        if 0 <= j < 12 {
            lemma_no_hy2_in_hysteria2_prefix(rest, j);
        } else if j >= 12 && occurs_at(b, p, j) {
            assert(b.subrange(j, j + 6) =~= rest.subrange(j - 12, j - 6));
            assert(occurs_at(rest, p, j - 12));
        }
    }
    assert(!exists|j: int| is_first_occurrence(b, p, j));
}

/// `hy2://` is an alias of `hysteria2://`: both spellings of a link
/// describe the same relay, as long as the rest of the link does not itself
/// hold `hy2://` (the first occurrence is the one rewritten).
pub proof fn law_hy2_alias(rest: Seq<char>)
    requires
        !contains_seq(rest, "hy2://"@),
    ensures
        carve("hy2://"@ + rest) == carve("hysteria2://"@ + rest),
{
    let a = "hy2://"@ + rest;
    let b = "hysteria2://"@ + rest;
    assert(a.take("hy2://"@.len() as int) =~= "hy2://"@);
    assert(b.take("hysteria2://"@.len() as int) =~= "hysteria2://"@);
    lemma_sniff_h_links(a, "hy2://"@);
    lemma_sniff_h_links(b, "hysteria2://"@);
    lemma_hy2_rewritten(rest);
    lemma_hysteria2_kept(rest);
}

proof fn lemma_scalar_has_no_percent(c: char)
    requires
        c != '%',
    ensures
        !encode_scalar(c as u32).contains(0x25u8),
{
    let v = c as u32;
    assert(v != 0x25u32);
    assert((0xC0u8 | (((v >> 6u32) & 0x1Fu32) as u8)) != 0x25u8) by (bit_vector);
    assert((0xE0u8 | (((v >> 12u32) & 0x0Fu32) as u8)) != 0x25u8) by (bit_vector);
    assert((0xF0u8 | (((v >> 18u32) & 0x7u32) as u8)) != 0x25u8) by (bit_vector);
    assert((0x80u8 | ((v & 0x3Fu32) as u8)) != 0x25u8) by (bit_vector);
    assert((0x80u8 | (((v >> 6u32) & 0x3Fu32) as u8)) != 0x25u8) by (bit_vector);
    assert((0x80u8 | (((v >> 12u32) & 0x3Fu32) as u8)) != 0x25u8) by (bit_vector);
    assert(v <= 0x7Fu32 && v != 0x25u32 ==> ((v & 0x7Fu32) as u8) != 0x25u8) by (bit_vector);
    let e = encode_scalar(v);
    assert forall|i: int| 0 <= i < e.len() implies e[i] != 0x25u8 by {}
}

proof fn lemma_encoding_has_no_percent(s: Seq<char>)
    requires
        !s.contains('%'),
    ensures
        !encode_utf8(s).contains(0x25u8),
    decreases s.len(),
{
    if s.len() > 0 {
        assert(s[0] != '%');
        lemma_scalar_has_no_percent(s[0]);
        assert(!s.drop_first().contains('%')) by {
            if s.drop_first().contains('%') {
                let i = choose|i: int| 0 <= i < s.drop_first().len() && s.drop_first()[i] == '%';
                assert(s[i + 1] == '%');
            }
        }
        lemma_encoding_has_no_percent(s.drop_first());
        let a = encode_scalar(s[0] as u32);
        let b = encode_utf8(s.drop_first());
        assert forall|i: int| 0 <= i < (a + b).len() implies (a + b)[i] != 0x25u8 by {
            if i < a.len() {
                assert((a + b)[i] == a[i]);
            } else {
                assert((a + b)[i] == b[i - a.len()]);
            }
        }
    }
}

proof fn lemma_percent_decode_identity(b: Seq<u8>)
    requires
        !b.contains(0x25u8),
    ensures
        percent_decode_bytes(b) == b,
    decreases b.len(),
{
    if b.len() > 0 {
        assert(b[0] != 0x25u8);
        assert(!b.skip(1).contains(0x25u8)) by {
            if b.skip(1).contains(0x25u8) {
                let i = choose|i: int| 0 <= i < b.skip(1).len() && b.skip(1)[i] == 0x25u8;
                assert(b[i + 1] == 0x25u8);
            }
        }
        lemma_percent_decode_identity(b.skip(1));
        assert(seq![b[0]] + b.skip(1) =~= b);
    }
}

/// A link fragment without percent escapes is its tag exactly as written.
pub proof fn law_tag_without_escapes(fragment: Seq<char>, fallback: Seq<char>)
    requires
        !fragment.contains('%'),
    ensures
        tag_from(Some(fragment), fallback) == fragment,
{
    lemma_encoding_has_no_percent(fragment);
    lemma_percent_decode_identity(encode_utf8(fragment));
    vstd::utf8::encode_utf8_valid_utf8(fragment);
    vstd::utf8::encode_utf8_decode_utf8(fragment);
}

// ---------------------------------------------------------------------------
// Laws stated over the outside results alone
// ---------------------------------------------------------------------------

proof fn lemma_sniff_ss(u: Seq<char>)
    requires
        has_prefix(u, "ss://"@),
    ensures
        sniff(u) == Some(_kind::Shadowsocks),
{
    reveal_strlit("vless://");
    reveal_strlit("trojan://");
    reveal_strlit("ss://");
    let p = "ss://"@;
    assert(u[0] == u.take(p.len() as int)[0]);
    assert(u[0] == 's');
    assert(lower_code(u[0]) != lower_code("vless://"@[0]));
    assert(lower_code(u[0]) != lower_code("trojan://"@[0]));
    assert(has_prefix_ignore_case(u, p)) by {
        assert forall|i: int| 0 <= i < p.len() implies lower_code(#[trigger] u[i]) == lower_code(
            p[i],
        ) by {
            assert(u[i] == u.take(p.len() as int)[i]);
        }
    }
}

/// The tag of a Shadowsocks link is its fragment (everything after the
/// first `#`), percent-decoded where the decoding is valid UTF-8 and as
/// written otherwise, whichever of the two forms the link takes.
pub proof fn law_ss_tag(head: Seq<char>, fragment: Seq<char>)
    requires
        !head.contains('#'),
    ensures
        carve("ss://"@ + head + "#"@ + fragment) matches Some(r) ==> r.tag == (
        match percent_decoded(fragment) {
            Some(d) => d,
            None => fragment,
        }),
        carve("ss://"@ + head + "#"@ + fragment) matches Some(r) ==> r.kind
            == _kind::Shadowsocks,
{
    reveal_strlit("ss://");
    reveal_strlit("#");
    let u = "ss://"@ + head + "#"@ + fragment;
    assert(u.take(5) =~= "ss://"@);
    lemma_sniff_ss(u);
    let body = u.skip(5);
    assert(body =~= head + "#"@ + fragment);
    assert(crate::text::is_first_at(body, '#', head.len() as int)) by {
        assert(body[head.len() as int] == '#');
        assert forall|j: int| 0 <= j < head.len() implies body[j] != '#' by {
            assert(body[j] == head[j]);
            if head[j] == '#' {
                assert(head.contains('#'));
            }
        }
    }
    crate::text::lemma_first_index(body, '#', head.len() as int);
    assert(body.take(head.len() as int) =~= head);
    assert(body.skip(head.len() as int + 1) =~= fragment);
}

/// A Shadowsocks link without `#` is tagged `ss`.
pub proof fn law_ss_untagged(body: Seq<char>)
    requires
        !body.contains('#'),
    ensures
        carve("ss://"@ + body) matches Some(r) ==> r.tag == "ss"@ && r.kind
            == _kind::Shadowsocks,
{
    reveal_strlit("ss://");
    let u = "ss://"@ + body;
    assert(u.take(5) =~= "ss://"@);
    lemma_sniff_ss(u);
    assert(u.skip(5) =~= body);
    assert forall|j: int| 0 <= j < body.len() implies body[j] != '#' by {
        if body[j] == '#' {
            assert(body.contains('#'));
        }
    }
    crate::text::lemma_no_first_index(body, '#');
    assert(split_once(body, '#') is None);
    assert(ss_head_and_tag(body) == (body, "ss"@));
    reveal_strlit("ss");
    assert(!"ss"@.contains('%')) by {
        if "ss"@.contains('%') {
            let i = choose|i: int| 0 <= i < "ss"@.len() && "ss"@[i] == '%';
            assert("ss"@[i] == 's');
        }
    }
    law_tag_without_escapes("ss"@, "ss"@);
    assert(decoded_or_raw("ss"@) == "ss"@);
}

proof fn lemma_split_at(a: Seq<char>, c: char, b: Seq<char>)
    requires
        !a.contains(c),
    ensures
        split_once(a + seq![c] + b, c) == Some((a, b)),
{
    let s = a + seq![c] + b;
    assert(s[a.len() as int] == c);
    assert forall|j: int| 0 <= j < a.len() implies s[j] != c by {
        assert(s[j] == a[j]);
        if a[j] == c {
            assert(a.contains(c));
        }
    }
    assert(crate::text::is_first_at(s, c, a.len() as int));
    crate::text::lemma_first_index(s, c, a.len() as int);
    assert(s.take(a.len() as int) =~= a);
    assert(s.skip(a.len() as int + 1) =~= b);
}

/// The credentials of a Shadowsocks link in the userinfo form, once
/// decoded to `method:secret`, give the relay its cipher (up to the first
/// `:`) and its secret (the rest, colons included); the host is what
/// precedes the first `:` after the `@`, and the port is the run of digits
/// that follows it, so the link describes a relay exactly when those digits
/// are a port number.
pub proof fn law_ss_credentials(
    method: Seq<char>,
    secret: Seq<char>,
    addr: Seq<char>,
    port_text: Seq<char>,
    tag: Seq<char>,
)
    requires
        !method.contains(':'),
        !addr.contains(':'),
    ensures
        ss_userinfo_decoded(method + seq![':'] + secret, addr + seq![':'] + port_text, tag) is Some
            <==> parse_u16(leading_digits(port_text)) is Some,
        ss_userinfo_decoded(method + seq![':'] + secret, addr + seq![':'] + port_text, tag)
            matches Some(r) ==> {
            &&& r.kind == _kind::Shadowsocks
            &&& r.secret == secret
            &&& r.addr == addr
            &&& r.port == parse_u16(leading_digits(port_text))->0
            &&& r.tag == tag
            &&& r.extra.dom() == set!["method"@]
            &&& r.extra["method"@] == method
        },
{
    lemma_split_at(method, ':', secret);
    lemma_split_at(addr, ':', port_text);
    assert(set!["method"@] =~= method_map(method).dom());
}

/// The legacy form of a Shadowsocks link, once decoded to
/// `method:secret@host:port`, gives the relay its cipher (up to the first
/// `:`), its secret (the rest up to the first `@`), its host (up to the
/// next `:`) and its port (all that follows, as a number).
pub proof fn law_ss_legacy_fields(
    method: Seq<char>,
    secret: Seq<char>,
    addr: Seq<char>,
    port_text: Seq<char>,
    tag: Seq<char>,
)
    requires
        !method.contains(':'),
        !method.contains('@'),
        !secret.contains('@'),
        !addr.contains(':'),
    ensures
        ss_legacy(method + seq![':'] + secret + seq!['@'] + addr + seq![':'] + port_text, tag) is Some
            <==> parse_u16(port_text) is Some,
        ss_legacy(method + seq![':'] + secret + seq!['@'] + addr + seq![':'] + port_text, tag)
            matches Some(r) ==> {
            &&& r.kind == _kind::Shadowsocks
            &&& r.secret == secret
            &&& r.addr == addr
            &&& r.port == parse_u16(port_text)->0
            &&& r.tag == tag
            &&& r.extra.dom() == set!["method"@]
            &&& r.extra["method"@] == method
        },
{
    let creds = method + seq![':'] + secret;
    let hostport = addr + seq![':'] + port_text;
    assert(!creds.contains('@')) by {
        if creds.contains('@') {
            let i = choose|i: int| 0 <= i < creds.len() && creds[i] == '@';
            if i < method.len() {
                assert(creds[i] == method[i]);
                assert(method.contains('@'));
            } else if i > method.len() {
                assert(creds[i] == secret[i - method.len() - 1]);
                assert(secret.contains('@'));
            }
        }
    }
    assert(method + seq![':'] + secret + seq!['@'] + addr + seq![':'] + port_text =~= creds + seq![
        '@',
    ] + hostport);
    lemma_split_at(creds, '@', hostport);
    lemma_split_at(method, ':', secret);
    lemma_split_at(addr, ':', port_text);
    assert(set!["method"@] =~= method_map(method).dom());
}

/// A Shadowsocks link `ss://userinfo@hostport#fragment` takes the userinfo
/// form: the userinfo is decoded leniently from base64 and the rest is read
/// from the host part; one whose part before `#` holds no `@` takes the
/// legacy form, decoded whole. Either way the tag is the fragment,
/// percent-decoded where that is valid UTF-8.
pub proof fn law_ss_forms(userinfo: Seq<char>, hostport: Seq<char>, head: Seq<char>, fragment: Seq<char>)
    requires
        !userinfo.contains('@'),
        !userinfo.contains('#'),
        !hostport.contains('#'),
        !head.contains('@'),
        !head.contains('#'),
    ensures
        carve("ss://"@ + userinfo + seq!['@'] + hostport + seq!['#'] + fragment) == match loosened(
            userinfo,
        ) {
            Some(d) => ss_userinfo_decoded(d, hostport, decoded_or_raw(fragment)),
            None => None::<RelayView>,
        },
        carve("ss://"@ + head + seq!['#'] + fragment) == match loosened(head) {
            Some(d) => ss_legacy(d, decoded_or_raw(fragment)),
            None => None::<RelayView>,
        },
{
    reveal_strlit("ss://");
    let front = userinfo + seq!['@'] + hostport;
    assert(!front.contains('#')) by {
        if front.contains('#') {
            let i = choose|i: int| 0 <= i < front.len() && front[i] == '#';
            if i < userinfo.len() {
                assert(front[i] == userinfo[i]);
                assert(userinfo.contains('#'));
            } else if i > userinfo.len() {
                assert(front[i] == hostport[i - userinfo.len() - 1]);
                assert(hostport.contains('#'));
            }
        }
    }
    let u1 = "ss://"@ + userinfo + seq!['@'] + hostport + seq!['#'] + fragment;
    assert(u1.take(5) =~= "ss://"@);
    lemma_sniff_ss(u1);
    assert(u1.skip(5) =~= front + seq!['#'] + fragment);
    lemma_split_at(front, '#', fragment);
    lemma_split_at(userinfo, '@', hostport);
    let u2 = "ss://"@ + head + seq!['#'] + fragment;
    assert(u2.take(5) =~= "ss://"@);
    lemma_sniff_ss(u2);
    assert(u2.skip(5) =~= head + seq!['#'] + fragment);
    lemma_split_at(head, '#', fragment);
    assert forall|j: int| 0 <= j < head.len() implies head[j] != '@' by {
        if head[j] == '@' {
            assert(head.contains('@'));
        }
    }
    crate::text::lemma_no_first_index(head, '@');
}

/// The text that the `url` crate parses for a link of a URL-shaped
/// protocol: the link itself, with the first `hy2://` of a Hysteria2 link
/// spelled `hysteria2://`.
pub open spec fn url_text(u: Seq<char>, k: _kind) -> Seq<char> {
    if k == _kind::Hysteria2 {
        replace_first(u, "hy2://"@, "hysteria2://"@)
    } else {
        u
    }
}

/// A link of a URL-shaped protocol (vless, trojan, hysteria2 or hy2)
/// describes a relay exactly when its URL parses with a host and a port;
/// the relay has the announced protocol, the URL's host, port and user name
/// as address, port and secret, the fragment (percent-decoded where that is
/// valid UTF-8, else as written; the protocol's name where there is none)
/// as tag, the query parameters as extras (a later one winning), and no
/// history.
pub proof fn law_url_link(u: Seq<char>, k: _kind)
    requires
        sniff(u) == Some(k),
        k != _kind::Shadowsocks,
    ensures
        carve(u) is Some <==> (url_parses(url_text(u, k)) && url_host(url_text(u, k)) is Some
            && url_port(url_text(u, k)) is Some),
        carve(u) matches Some(r) ==> {
            let n = url_text(u, k);
            &&& r.kind == k
            &&& r.addr == url_host(n)->0
            &&& r.port == url_port(n)->0
            &&& r.secret == url_username(n)
            &&& r.tag == match url_fragment(n) {
                Some(f) => match percent_decoded(f) {
                    Some(d) => d,
                    None => f,
                },
                None => kind_name(k),
            }
            &&& r.extra == pairs_map(url_query_pairs(n))
            &&& r.source_repo is None
            &&& r.source_path is None
            &&& r.alive is None
            &&& r.ping_ms is None
            &&& r.checked_at is None
        },
{
}

/// Harvesting a list of links is harvesting its parts in turn: nothing is
/// lost, added or reordered at any length.
pub proof fn law_harvest_concat(a: Seq<Seq<char>>, b: Seq<Seq<char>>)
    ensures
        harvest(a + b) == harvest(a) + harvest(b),
    decreases b.len(),
{
    if b.len() == 0 {
        assert(a + b =~= a);
        assert(harvest(b) =~= Seq::<RelayView>::empty());
        assert(harvest(a) + harvest(b) =~= harvest(a));
    } else {
        law_harvest_concat(a, b.drop_last());
        assert((a + b).drop_last() =~= a + b.drop_last());
        assert((a + b).last() == b.last());
        match carve(b.last()) {
            Some(r) => {
                assert(harvest(a) + harvest(b) =~= (harvest(a) + harvest(b.drop_last())) + seq![r]);
            },
            None => {},
        }
    }
}

/// A single link harvests to its relay when it describes one, and to
/// nothing otherwise; no links harvest to nothing.
pub proof fn law_harvest_single(m: Seq<char>)
    ensures
        harvest(seq![m]) == match carve(m) {
            Some(r) => seq![r],
            None => Seq::<RelayView>::empty(),
        },
        harvest(Seq::<Seq<char>>::empty()) == Seq::<RelayView>::empty(),
{
    assert(harvest(Seq::<Seq<char>>::empty()) =~= Seq::<RelayView>::empty());
    assert(seq![m].drop_last() =~= Seq::<Seq<char>>::empty());
    assert(seq![m].last() == m);
    assert(harvest(seq![m].drop_last()) =~= Seq::<RelayView>::empty());
    match carve(m) {
        Some(r) => {
            assert(Seq::<RelayView>::empty() + seq![r] =~= seq![r]);
        },
        None => {},
    }
}

/// Harvesting yields one relay per link that describes one.
pub proof fn law_harvest_count(ms: Seq<Seq<char>>)
    ensures
        harvest(ms).len() == ms.filter(|m: Seq<char>| carve(m) is Some).len(),
    decreases ms.len(),
{
    reveal(Seq::filter);
    if ms.len() > 0 {
        law_harvest_count(ms.drop_last());
    }
}

} // verus!
