use rifter::parser::{
    _kind, __b64_loosen, __blob_harvest, __hy2_carve, __scheme_sniff, __single_carve,
    __ss_legacy_carve, harvest_matches, relay_from_parts, ss_userinfo_from_decoded,
};
use rifter::bindings::UrlParts;

#[test]
fn kind_names_round_trip() {
    for k in [_kind::Vless, _kind::Trojan, _kind::Shadowsocks, _kind::Hysteria2] {
        assert_eq!(_kind::parse_name(k.as_str()), Ok(k));
        assert_eq!(k.as_str().parse::<_kind>(), Ok(k));
    }
    assert_eq!(_kind::Shadowsocks.as_str(), "shadowsocks");
    assert_eq!(_kind::Hysteria2.as_str(), "hysteria2");
}

#[test]
fn kind_aliases_and_case() {
    assert_eq!(_kind::parse_name("ss"), Ok(_kind::Shadowsocks));
    assert_eq!(_kind::parse_name("HY2"), Ok(_kind::Hysteria2));
    assert_eq!(_kind::parse_name("VLess"), Ok(_kind::Vless));
    assert_eq!(_kind::parse_name("TROJAN"), Ok(_kind::Trojan));
}

#[test]
fn kind_unknown_is_reported_in_lower_case() {
    assert_eq!(_kind::parse_name("WireGuard"), Err("unknown protocol: wireguard".to_string()));
    assert_eq!(_kind::parse_name(""), Err("unknown protocol: ".to_string()));
}

#[test]
fn sniff_ignores_case() {
    assert_eq!(__scheme_sniff("VLESS://x"), Some(_kind::Vless));
    assert_eq!(__scheme_sniff("Trojan://x"), Some(_kind::Trojan));
    assert_eq!(__scheme_sniff("sS://x"), Some(_kind::Shadowsocks));
    assert_eq!(__scheme_sniff("HY2://x"), Some(_kind::Hysteria2));
    assert_eq!(__scheme_sniff("hysteria2://x"), Some(_kind::Hysteria2));
    assert_eq!(__scheme_sniff("vmess://x"), None);
    assert_eq!(__scheme_sniff("vless:/x"), None);
    assert_eq!(__scheme_sniff(""), None);
}

#[test]
fn upper_case_scheme_still_parses() {
    let got = __single_carve("VLESS://id@1.2.3.4:443#n").unwrap();
    assert_eq!(got._kind, _kind::Vless);
    assert_eq!(got._addr, "1.2.3.4");
    assert_eq!(got._secret, "id");
}

#[test]
fn hy2_alias_gives_same_relay() {
    let a = __single_carve("hy2://pass@9.9.9.9:36712?sni=a#x").unwrap();
    let b = __single_carve("hysteria2://pass@9.9.9.9:36712?sni=a#x").unwrap();
    assert_eq!(a._kind, b._kind);
    assert_eq!(a._addr, b._addr);
    assert_eq!(a._port, b._port);
    assert_eq!(a._secret, b._secret);
    assert_eq!(a._tag, b._tag);
    assert_eq!(a._extra.get("sni"), b._extra.get("sni"));
}

#[test]
fn hy2_first_occurrence_only_is_rewritten() {
    let got = __hy2_carve("hy2://p@1.1.1.1:1#hy2://tag").unwrap();
    assert_eq!(got._tag, "hy2://tag");
    assert_eq!(got._kind, _kind::Hysteria2);
}

#[test]
fn fragment_is_percent_decoded() {
    let got = __single_carve("trojan://pw@1.1.1.1:443#my%20node%F0%9F%9A%80").unwrap();
    assert_eq!(got._tag, "my node\u{1F680}");
}

#[test]
fn fragment_that_is_not_utf8_is_kept_raw() {
    let got = __single_carve("trojan://pw@1.1.1.1:443#bad%FF").unwrap();
    assert_eq!(got._tag, "bad%FF");
}

#[test]
fn missing_fragment_falls_back_to_protocol() {
    assert_eq!(__single_carve("vless://id@1.1.1.1:1").unwrap()._tag, "vless");
    assert_eq!(__single_carve("trojan://id@1.1.1.1:1").unwrap()._tag, "trojan");
    assert_eq!(__single_carve("hy2://id@1.1.1.1:1").unwrap()._tag, "hysteria2");
}

#[test]
fn later_query_parameter_wins() {
    let got = __single_carve("vless://id@1.1.1.1:1?a=1&b=x+y&a=2").unwrap();
    assert_eq!(got._extra.get("a").unwrap(), "2");
    assert_eq!(got._extra.get("b").unwrap(), "x y");
    assert!(got._extra.get("c").is_none());
}

#[test]
fn url_links_need_host_and_port() {
    assert!(__single_carve("vless://id@1.1.1.1").is_none());
    assert!(__single_carve("trojan://").is_none());
    assert!(__single_carve("vless://id@1.1.1.1:99999").is_none());
}

#[test]
fn parsed_relay_starts_without_history() {
    let got = __single_carve("trojan://pw@1.1.1.1:443").unwrap();
    assert!(got.source_repo.is_none());
    assert!(got.source_path.is_none());
    assert!(got.alive.is_none());
    assert!(got.ping_ms.is_none());
    assert!(got.checked_at.is_none());
}

#[test]
fn ss_userinfo_port_stops_at_first_non_digit() {
    let got = __single_carve("ss://YWVzLTEyOC1nY206cHc=@1.2.3.4:8388/?plugin=x#t").unwrap();
    assert_eq!(got._port, 8388);
    assert_eq!(got._secret, "pw");
    assert_eq!(got._extra.get("method").unwrap(), "aes-128-gcm");
    assert_eq!(got._tag, "t");
}

#[test]
fn ss_without_fragment_is_tagged_ss() {
    let got = __single_carve("ss://Zm9vOmJhcg==@3.3.3.3:1080").unwrap();
    assert_eq!(got._tag, "ss");
    assert_eq!(got._secret, "bar");
    assert_eq!(got._extra.get("method").unwrap(), "foo");
}

#[test]
fn ss_prefix_is_case_sensitive_when_carving() {
    assert!(__single_carve("SS://Zm9vOmJhcg==@3.3.3.3:1080").is_none());
}

#[test]
fn ss_rejections() {
    // not base64
    assert!(__single_carve("ss://!!!@1.1.1.1:1").is_none());
    // no method separator in the credentials
    assert!(__single_carve("ss://Zm9vYmFy@1.1.1.1:1").is_none());
    // no port separator
    assert!(__single_carve("ss://Zm9vOmJhcg==@1.1.1.1").is_none());
    // port that is not a number
    assert!(__single_carve("ss://Zm9vOmJhcg==@1.1.1.1:x").is_none());
    // port out of range
    assert!(__single_carve("ss://Zm9vOmJhcg==@1.1.1.1:70000").is_none());
    // credentials that are not UTF-8
    assert!(__single_carve("ss://_w==@1.1.1.1:1").is_none());
}

#[test]
fn ss_legacy_port_follows_number_parsing() {
    let r = __ss_legacy_carve("m:s@h:+80", "t").unwrap();
    assert_eq!(r._port, 80);
    assert_eq!(r._addr, "h");
    assert_eq!(r._tag, "t");
    assert!(__ss_legacy_carve("m:s@h:80x", "t").is_none());
    assert!(__ss_legacy_carve("m:s@h:", "t").is_none());
    assert!(__ss_legacy_carve("m:s@h:65536", "t").is_none());
    assert_eq!(__ss_legacy_carve("m:s@h:65535", "t").unwrap()._port, 65535);
    assert!(__ss_legacy_carve("ms@h:1", "t").is_none());
    assert!(__ss_legacy_carve("m:s:h:1", "t").is_none());
}

#[test]
fn ss_legacy_splits_at_first_separators() {
    let r = __ss_legacy_carve("aes:p:w@host:443", "t").unwrap();
    assert_eq!(r._extra.get("method").unwrap(), "aes");
    assert_eq!(r._secret, "p:w");
    assert_eq!(r._addr, "host");
}

#[test]
fn b64_loosen_pads_and_accepts_both_alphabets() {
    assert_eq!(__b64_loosen("Zm9vOmJhcg"), Some("foo:bar".to_string()));
    assert_eq!(__b64_loosen("Zm9vOmJhcg=="), Some("foo:bar".to_string()));
    assert_eq!(__b64_loosen("Zm9v"), Some("foo".to_string()));
    assert_eq!(__b64_loosen("Pz8_"), Some("??\u{3f}".to_string()));
    assert_eq!(__b64_loosen("Pz8/"), Some("???".to_string()));
    assert_eq!(__b64_loosen("Z"), None);
    assert_eq!(__b64_loosen("_w"), None);
}

#[test]
fn harvest_finds_links_in_any_case() {
    let blob = "x VLESS://id@1.1.1.1:1#a y 'trojan://pw@2.2.2.2:2' <hy2://p@3.3.3.3:3> z http://no";
    let got = __blob_harvest(blob);
    assert_eq!(got.len(), 3);
    assert_eq!(got[0]._kind, _kind::Vless);
    assert_eq!(got[1]._kind, _kind::Trojan);
    assert_eq!(got[1]._addr, "2.2.2.2");
    assert_eq!(got[2]._kind, _kind::Hysteria2);
}

#[test]
fn harvest_skips_links_that_do_not_parse() {
    let ms = vec![
        "vless://broken".to_string(),
        "trojan://pw@2.2.2.2:2".to_string(),
        "ss://nope".to_string(),
    ];
    let got = harvest_matches(&ms);
    assert_eq!(got.len(), 1);
    assert_eq!(got[0]._addr, "2.2.2.2");
    assert!(__blob_harvest("nothing here").is_empty());
}

#[test]
fn relay_from_parsed_parts() {
    let parts = UrlParts {
        host: Some("h.example".to_string()),
        port: Some(443),
        username: "user".to_string(),
        fragment: Some("a%20b".to_string()),
        query_pairs: vec![("k".to_string(), "1".to_string()), ("k".to_string(), "2".to_string())],
    };
    let r = relay_from_parts(_kind::Trojan, &parts, "trojan").unwrap();
    assert_eq!(r._kind, _kind::Trojan);
    assert_eq!(r._addr, "h.example");
    assert_eq!(r._port, 443);
    assert_eq!(r._secret, "user");
    assert_eq!(r._tag, "a b");
    assert_eq!(r._extra.get("k").unwrap(), "2");
    let no_port = UrlParts { port: None, ..parts };
    assert!(relay_from_parts(_kind::Trojan, &no_port, "trojan").is_none());
}

#[test]
fn ss_userinfo_from_decoded_credentials() {
    let r = ss_userinfo_from_decoded("chacha20:pw:x", "1.2.3.4:8388/?p=1", "t".to_string()).unwrap();
    assert_eq!(r._extra.get("method").unwrap(), "chacha20");
    assert_eq!(r._secret, "pw:x");
    assert_eq!(r._addr, "1.2.3.4");
    assert_eq!(r._port, 8388);
    assert_eq!(r._tag, "t");
    assert!(ss_userinfo_from_decoded("nocolon", "1.2.3.4:1", "t".to_string()).is_none());
    assert!(ss_userinfo_from_decoded("m:s", "1.2.3.4:", "t".to_string()).is_none());
    assert!(ss_userinfo_from_decoded("m:s", "1.2.3.4", "t".to_string()).is_none());
}
