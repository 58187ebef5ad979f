//! The decisions of the command-line commands: which protocols a selection
//! means, which relays a search shows, which relays a pruning keeps.
use crate::bindings::opt_chars;
use crate::parser::{_kind, _relay, relays_view, RelayView};
use crate::text::{contains_seq, contains_str};
use vstd::prelude::*;

verus! {

/// A protocol selection on the command line; `All` selects every protocol.
#[derive(Clone, Copy, Debug, PartialEq, Eq, Structural)]
pub enum _proto {
    Vless,
    Trojan,
    Ss,
    Hysteria2,
    All,
}

/// The protocol a single selection names (none for `All`).
pub open spec fn proto_kind(p: _proto) -> Option<_kind> {
    match p {
        _proto::Vless => Some(_kind::Vless),
        _proto::Trojan => Some(_kind::Trojan),
        _proto::Ss => Some(_kind::Shadowsocks),
        _proto::Hysteria2 => Some(_kind::Hysteria2),
        _proto::All => None,
    }
}

/// Every protocol, in the order the commands visit them.
pub open spec fn all_kinds() -> Seq<_kind> {
    seq![_kind::Vless, _kind::Trojan, _kind::Shadowsocks, _kind::Hysteria2]
}

/// The protocols that a selection means: all of them when the selection is
/// empty or holds `All`, else the named ones in the order given.
pub open spec fn widen(ps: Seq<_proto>) -> Seq<_kind> {
    if ps.len() == 0 || ps.contains(_proto::All) {
        all_kinds()
    } else {
        ps.filter_map(|p: _proto| proto_kind(p))
    }
}

/// The protocols that a selection means.
pub fn __widen(protocols: &[_proto]) -> (r: Vec<_kind>)
    ensures
        r@ == widen(protocols@),
{
    let n = protocols.len();
    let mut i: usize = 0;
    let mut wants_all = n == 0;
    while i < n
        invariant
            n == protocols@.len(),
            i <= n,
            wants_all == (n == 0 || protocols@.take(i as int).contains(_proto::All)),
        decreases n - i,
    {
        proof {
            assert(protocols@.take(i + 1) =~= protocols@.take(i as int).push(protocols@[i as int]));
        }
        if protocols[i] == _proto::All {
            wants_all = true;
            proof {
                assert(protocols@.take(i + 1)[i as int] == _proto::All);
            }
        } else {
            proof {
                if protocols@.take(i + 1).contains(_proto::All) {
                    let j = choose|j: int| 0 <= j < i + 1 && #[trigger] protocols@.take(i + 1)[j] == _proto::All;
                    assert(protocols@.take(i as int)[j] == _proto::All);
                }
            }
        }
        i = i + 1;
    }
    proof {
        assert(protocols@.take(n as int) =~= protocols@);
    }
    if wants_all {
        let r = vec![_kind::Vless, _kind::Trojan, _kind::Shadowsocks, _kind::Hysteria2];
        proof {
            assert(r@ =~= all_kinds());
        }
        return r;
    }
    let mut out: Vec<_kind> = Vec::new();
    let mut j: usize = 0;
    while j < n
        invariant
            n == protocols@.len(),
            j <= n,
            out@ == protocols@.take(j as int).filter_map(|p: _proto| proto_kind(p)),
        decreases n - j,
    {
        proof {
            assert(protocols@.take(j + 1).drop_last() =~= protocols@.take(j as int));
            assert(protocols@.take(j + 1).last() == protocols@[j as int]);
        }
        match protocols[j] {
            _proto::Vless => out.push(_kind::Vless),
            _proto::Trojan => out.push(_kind::Trojan),
            _proto::Ss => out.push(_kind::Shadowsocks),
            _proto::Hysteria2 => out.push(_kind::Hysteria2),
            _proto::All => {},
        }
        proof {
            assert(out@ =~= protocols@.take(j + 1).filter_map(|p: _proto| proto_kind(p)));
        }
        j = j + 1;
    }
    proof {
        assert(protocols@.take(n as int) =~= protocols@);
    }
    out
}

/// A relay passes a search: it is of a wanted protocol, its measured ping
/// is within the bound, and its host contains the wanted text, each test
/// applying only when it is asked for.
pub open spec fn passes(
    v: RelayView,
    protocol: Option<_proto>,
    max_ping: Option<u64>,
    host: Option<Seq<char>>,
) -> bool {
    &&& (protocol matches Some(p) ==> widen(seq![p]).contains(v.kind))
    &&& (max_ping matches Some(m) ==> (v.ping_ms matches Some(ms) && ms <= m))
    &&& (host matches Some(h) ==> contains_seq(v.addr, h))
}

/// The relays a search shows: those that pass, in order, at most `limit`.
pub open spec fn sifted(
    s: Seq<RelayView>,
    protocol: Option<_proto>,
    max_ping: Option<u64>,
    host: Option<Seq<char>>,
    limit: usize,
) -> Seq<RelayView> {
    let f = s.filter(|v: RelayView| passes(v, protocol, max_ping, host));
    if f.len() > limit {
        f.take(limit as int)
    } else {
        f
    }
}

fn kind_in(kinds: &Vec<_kind>, k: _kind) -> (r: bool)
    ensures
        r == kinds@.contains(k),
{
    let mut i: usize = 0;
    while i < kinds.len()
        invariant
            i <= kinds@.len(),
            forall|j: int| 0 <= j < i ==> kinds@[j] != k,
        decreases kinds.len() - i,
    {
        if kinds[i] == k {
            return true;
        }
        i = i + 1;
    }
    false
}

fn passes_exec(
    r: &_relay,
    wanted: &Option<Vec<_kind>>,
    protocol: Option<_proto>,
    max_ping: Option<u64>,
    host: &Option<String>,
) -> (b: bool)
    requires
        protocol is Some <==> wanted is Some,
        protocol matches Some(p) ==> wanted->0@ == widen(seq![p]),
    ensures
        b == passes(r@, protocol, max_ping, opt_chars(*host)),
{
    let kind_ok = match wanted {
        Some(w) => kind_in(w, r._kind),
        None => true,
    };
    let ping_ok = match max_ping {
        Some(m) => match r.ping_ms {
            Some(ms) => ms <= m,
            None => false,
        },
        None => true,
    };
    let host_ok = match host {
        Some(h) => contains_str(r._addr.as_str(), h.as_str()),
        None => true,
    };
    kind_ok && ping_ok && host_ok
}

/// The relays a search shows: those of the wanted protocol, with a measured
/// ping within `max_ping`, whose host contains `host`, in order, at most
/// `limit` of them.
pub fn __sift(
    relays: Vec<_relay>,
    protocol: Option<_proto>,
    max_ping: Option<u64>,
    host: Option<String>,
    limit: usize,
) -> (r: Vec<_relay>)
    ensures
        relays_view(r@) == sifted(relays_view(relays@), protocol, max_ping, opt_chars(host), limit),
{
    let ghost s = relays_view(relays@);
    let ghost hv = opt_chars(host);
    let wanted: Option<Vec<_kind>> = match protocol {
        Some(p) => {
            let one = [p];
            proof {
                assert(one@ =~= seq![p]);
            }
            Some(__widen(&one))
        },
        None => None,
    };
    let mut out: Vec<_relay> = Vec::new();
    for x in it: relays
        invariant
            s == relays_view(it.seq()),
            relays_view(out@) == s.take(it.index() as int).filter(
                |v: RelayView| passes(v, protocol, max_ping, hv),
            ),
            protocol is Some <==> wanted is Some,
            protocol matches Some(p) ==> wanted->0@ == widen(seq![p]),
            hv == opt_chars(host),
    {
        let ghost i = it.index();
        let ghost before = out@;
        proof {
            reveal(Seq::filter);
            assert(s.take(i + 1).drop_last() =~= s.take(i as int));
            assert(s.take(i + 1).last() == x@);
        }
        if passes_exec(&x, &wanted, protocol, max_ping, &host) {
            out.push(x);
            proof {
                assert(relays_view(out@) =~= relays_view(before).push(x@));
            }
        }
    }
    proof {
        assert(s.take(s.len() as int) =~= s);
    }
    let ghost f = relays_view(out@);
    out.truncate(limit);
    proof {
        if f.len() > limit {
            assert(relays_view(out@) =~= f.take(limit as int));
        } else {
            assert(relays_view(out@) =~= f);
        }
    }
    out
}

/// The relays that pruning keeps: those known to be alive, in order.
pub open spec fn pruned(s: Seq<RelayView>) -> Seq<RelayView> {
    s.filter(|v: RelayView| v.alive == Some(true))
}

/// Drops every relay not known to be alive, keeping the order of the rest.
pub fn prune_dead(relays: Vec<_relay>) -> (r: Vec<_relay>)
    ensures
        relays_view(r@) == pruned(relays_view(relays@)),
{
    let ghost s = relays_view(relays@);
    let mut out: Vec<_relay> = Vec::new();
    for x in it: relays
        invariant
            s == relays_view(it.seq()),
            relays_view(out@) == pruned(s.take(it.index() as int)),
    {
        let ghost i = it.index();
        let ghost before = out@;
        proof {
            reveal(Seq::filter);
            assert(s.take(i + 1).drop_last() =~= s.take(i as int));
            assert(s.take(i + 1).last() == x@);
        }
        let alive = match x.alive {
            Some(true) => true,
            _ => false,
        };
        if alive {
            out.push(x);
            proof {
                assert(relays_view(out@) =~= relays_view(before).push(x@));
            }
        }
    }
    proof {
        assert(s.take(s.len() as int) =~= s);
    }
    out
}

/// How the table shows what is known of a relay's liveness.
pub open spec fn alive_text(alive: Option<bool>) -> Seq<char> {
    match alive {
        Some(true) => "yes"@,
        Some(false) => "no"@,
        None => "?"@,
    }
}

/// How the table shows what is known of a relay's liveness.
pub fn alive_label(alive: Option<bool>) -> (r: &'static str)
    ensures
        r@ == alive_text(alive),
{
    match alive {
        Some(true) => "yes",
        Some(false) => "no",
        None => "?",
    }
}

// ---------------------------------------------------------------------------
// Laws
// ---------------------------------------------------------------------------

proof fn lemma_filter_map_has(ps: Seq<_proto>, i: int)
    requires
        0 <= i < ps.len(),
        proto_kind(ps[i]) is Some,
    ensures
        ps.filter_map(|p: _proto| proto_kind(p)).contains(proto_kind(ps[i])->0),
    decreases ps.len(),
{
    let f = |p: _proto| proto_kind(p);
    let r = ps.filter_map(f);
    if i == ps.len() - 1 {
        assert(ps.last() == ps[i]);
        assert(r =~= ps.drop_last().filter_map(f) + seq![proto_kind(ps[i])->0]);
        assert(r[r.len() - 1] == proto_kind(ps[i])->0);
    } else {
        assert(ps.drop_last()[i] == ps[i]);
        lemma_filter_map_has(ps.drop_last(), i);
        let sub = ps.drop_last().filter_map(f);
        let j = choose|j: int| 0 <= j < sub.len() && sub[j] == proto_kind(ps[i])->0;
        match proto_kind(ps.last()) {
            Some(k) => {
                assert(r =~= sub + seq![k]);
                assert(r[j] == sub[j]);
            },
            None => {
                assert(r =~= sub);
            },
        }
    }
}

/// Every protocol named in a selection is among the protocols it means.
pub proof fn law_widen_covers(ps: Seq<_proto>, i: int)
    requires
        0 <= i < ps.len(),
        ps[i] != _proto::All,
    ensures
        widen(ps).contains(proto_kind(ps[i])->0),
{
    if ps.contains(_proto::All) {
        let k = proto_kind(ps[i])->0;
        assert(all_kinds()[0] == _kind::Vless);
        assert(all_kinds()[1] == _kind::Trojan);
        assert(all_kinds()[2] == _kind::Shadowsocks);
        assert(all_kinds()[3] == _kind::Hysteria2);
        match k {
            _kind::Vless => assert(all_kinds()[0] == k),
            _kind::Trojan => assert(all_kinds()[1] == k),
            _kind::Shadowsocks => assert(all_kinds()[2] == k),
            _kind::Hysteria2 => assert(all_kinds()[3] == k),
        }
    } else {
        lemma_filter_map_has(ps, i);
    }
}

/// A selection without `All` means only the protocols it names.
pub proof fn law_widen_only_named(ps: Seq<_proto>, k: _kind)
    requires
        ps.len() > 0,
        !ps.contains(_proto::All),
        widen(ps).contains(k),
    ensures
        exists|p: _proto| ps.contains(p) && proto_kind(p) == Some(k),
{
    ps.lemma_filter_map_contains(|p: _proto| proto_kind(p), k);
}

/// A search shows at most `limit` relays, each of them one it was given
/// and each passing every test asked for.
pub proof fn law_sift_sound(
    s: Seq<RelayView>,
    protocol: Option<_proto>,
    max_ping: Option<u64>,
    host: Option<Seq<char>>,
    limit: usize,
    i: int,
)
    requires
        0 <= i < sifted(s, protocol, max_ping, host, limit).len(),
    ensures
        sifted(s, protocol, max_ping, host, limit).len() <= limit,
        passes(sifted(s, protocol, max_ping, host, limit)[i], protocol, max_ping, host),
        s.contains(sifted(s, protocol, max_ping, host, limit)[i]),
{
    let pred = |v: RelayView| passes(v, protocol, max_ping, host);
    let f = s.filter(pred);
    let r = sifted(s, protocol, max_ping, host, limit);
    assert(r[i] == f[i]);
    s.lemma_filter_pred(pred, i);
    if 0 <= i < f.len() {
        assert(f.contains(f[i]));
        s.lemma_filter_contains_rev(pred, f[i]);
    }
}

proof fn lemma_widen_one(p: _proto, k: _kind)
    ensures
        widen(seq![p]).contains(k) <==> (p == _proto::All || proto_kind(p) == Some(k)),
{
    let one = seq![p];
    assert(one[0] == p);
    if p == _proto::All {
        assert(one.contains(_proto::All));
        assert(all_kinds()[0] == _kind::Vless);
        assert(all_kinds()[1] == _kind::Trojan);
        assert(all_kinds()[2] == _kind::Shadowsocks);
        assert(all_kinds()[3] == _kind::Hysteria2);
        match k {
            _kind::Vless => assert(all_kinds()[0] == k),
            _kind::Trojan => assert(all_kinds()[1] == k),
            _kind::Shadowsocks => assert(all_kinds()[2] == k),
            _kind::Hysteria2 => assert(all_kinds()[3] == k),
        }
    } else {
        assert(!one.contains(_proto::All));
        Seq::lemma_filter_map_singleton(p, |q: _proto| proto_kind(q));
        let w = seq![proto_kind(p)->0];
        assert(widen(one) == w);
        assert(w[0] == proto_kind(p)->0);
        if proto_kind(p) == Some(k) {
            assert(w.contains(k));
        }
    }
}

/// Every relay a search shows is one it was given, and meets each test
/// asked for: its address contains the wanted host text, its measured ping
/// is at most the bound, and its protocol is the selected one (any, for
/// `All`).
pub proof fn law_sift_shows_only_matches(
    s: Seq<RelayView>,
    protocol: Option<_proto>,
    max_ping: Option<u64>,
    host: Option<Seq<char>>,
    limit: usize,
    i: int,
)
    requires
        0 <= i < sifted(s, protocol, max_ping, host, limit).len(),
    ensures
        s.contains(sifted(s, protocol, max_ping, host, limit)[i]),
        host matches Some(h) ==> contains_seq(sifted(s, protocol, max_ping, host, limit)[i].addr, h),
        max_ping matches Some(m) ==> (sifted(s, protocol, max_ping, host, limit)[i].ping_ms matches Some(
            ms,
        ) && ms <= m),
        protocol matches Some(p) ==> (p == _proto::All || proto_kind(p) == Some(
            sifted(s, protocol, max_ping, host, limit)[i].kind,
        )),
{
    law_sift_sound(s, protocol, max_ping, host, limit, i);
    if let Some(p) = protocol {
        lemma_widen_one(p, sifted(s, protocol, max_ping, host, limit)[i].kind);
    }
}

/// A search that does not reach its limit shows every relay it was given
/// that meets each test asked for.
pub proof fn law_sift_shows_all_matches(
    s: Seq<RelayView>,
    protocol: Option<_proto>,
    max_ping: Option<u64>,
    host: Option<Seq<char>>,
    limit: usize,
    j: int,
)
    requires
        0 <= j < s.len(),
        s.len() <= limit || sifted(s, protocol, max_ping, host, limit).len() < limit,
        host matches Some(h) ==> contains_seq(s[j].addr, h),
        max_ping matches Some(m) ==> (s[j].ping_ms matches Some(ms) && ms <= m),
        protocol matches Some(p) ==> (p == _proto::All || proto_kind(p) == Some(s[j].kind)),
    ensures
        sifted(s, protocol, max_ping, host, limit).contains(s[j]),
{
    let pred = |v: RelayView| passes(v, protocol, max_ping, host);
    if let Some(p) = protocol {
        lemma_widen_one(p, s[j].kind);
    }
    assert(pred(s[j]));
    s.lemma_filter_contains(pred, j);
    s.lemma_filter_len(pred);
}

/// Pruning keeps only relays known to be alive, and never more than it
/// was given.
pub proof fn law_prune_keeps_alive(s: Seq<RelayView>, i: int)
    requires
        0 <= i < pruned(s).len(),
    ensures
        pruned(s)[i].alive == Some(true),
        s.contains(pruned(s)[i]),
        pruned(s).len() <= s.len(),
{
    let pred = |v: RelayView| v.alive == Some(true);
    s.lemma_filter_pred(pred, i);
    s.lemma_filter_len(pred);
    assert(s.filter(pred).contains(s.filter(pred)[i]));
    s.lemma_filter_contains_rev(pred, s.filter(pred)[i]);
}

/// Pruning keeps every relay known to be alive.
pub proof fn law_prune_keeps_every_alive(s: Seq<RelayView>, j: int)
    requires
        0 <= j < s.len(),
        s[j].alive == Some(true),
    ensures
        pruned(s).contains(s[j]),
{
    s.lemma_filter_contains(|v: RelayView| v.alive == Some(true), j);
}

proof fn lemma_filter_all(s: Seq<RelayView>)
    ensures
        s.filter(|v: RelayView| passes(v, None, None, None)) == s,
    decreases s.len(),
{
    reveal(Seq::filter);
    if s.len() > 0 {
        lemma_filter_all(s.drop_last());
        assert(s.drop_last().push(s.last()) =~= s);
    }
}

/// A search that asks for nothing shows every relay it was given, in order,
/// as long as they fit in the limit.
pub proof fn law_sift_without_tests(s: Seq<RelayView>, limit: usize)
    requires
        s.len() <= limit,
    ensures
        sifted(s, None, None, None, limit) == s,
{
    lemma_filter_all(s);
}

} // verus!
