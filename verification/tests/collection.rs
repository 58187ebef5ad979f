use rifter::commands::{__sift, __widen, _proto, alive_label, prune_dead};
use rifter::parser::{_kind, _relay, Extras};
use rifter::store::{__dedupe, alive_count, kept_for_save, of_kind};
use rifter::validator::{record_probe, report_progress};

fn relay(kind: _kind, addr: &str, port: u16, tag: &str, alive: Option<bool>, ping: Option<u64>) -> _relay {
    _relay {
        _kind: kind,
        _addr: addr.to_string(),
        _port: port,
        _secret: String::new(),
        _tag: tag.to_string(),
        _extra: Extras::new(),
        source_repo: None,
        source_path: None,
        alive,
        ping_ms: ping,
        checked_at: None,
    }
}

fn tags(rs: &[_relay]) -> Vec<String> {
    rs.iter().map(|r| r._tag.clone()).collect()
}

#[test]
fn dedupe_keeps_first_occurrence_order() {
    let rs = vec![
        relay(_kind::Vless, "a", 1, "a1", None, None),
        relay(_kind::Trojan, "b", 2, "b1", None, None),
        relay(_kind::Vless, "a", 1, "a2", None, None),
        relay(_kind::Vless, "a", 2, "a3", None, None),
        relay(_kind::Trojan, "a", 1, "a4", None, None),
    ];
    let out = __dedupe(rs);
    assert_eq!(tags(&out), vec!["a1", "b1", "a3", "a4"]);
}

#[test]
fn dedupe_prefers_first_alive_duplicate() {
    let rs = vec![
        relay(_kind::Vless, "a", 1, "dead", Some(false), None),
        relay(_kind::Trojan, "b", 2, "b", None, None),
        relay(_kind::Vless, "a", 1, "alive1", Some(true), Some(5)),
        relay(_kind::Vless, "a", 1, "alive2", Some(true), Some(1)),
        relay(_kind::Vless, "a", 1, "unknown", None, None),
    ];
    let out = __dedupe(rs);
    assert_eq!(tags(&out), vec!["alive1", "b"]);
    assert_eq!(out[0].ping_ms, Some(5));
}

#[test]
fn dedupe_is_idempotent() {
    let rs = vec![
        relay(_kind::Vless, "a", 1, "x", None, None),
        relay(_kind::Vless, "a", 1, "y", Some(true), None),
        relay(_kind::Hysteria2, "c", 3, "z", None, None),
        relay(_kind::Hysteria2, "c", 3, "w", Some(false), None),
    ];
    let once = __dedupe(rs);
    let once_tags = tags(&once);
    let twice = __dedupe(once);
    assert_eq!(tags(&twice), once_tags);
    assert_eq!(once_tags, vec!["y", "z"]);
    assert!(__dedupe(Vec::new()).is_empty());
}

#[test]
fn widen_selections() {
    let all = vec![_kind::Vless, _kind::Trojan, _kind::Shadowsocks, _kind::Hysteria2];
    assert_eq!(__widen(&[]), all);
    assert_eq!(__widen(&[_proto::Ss, _proto::All]), all);
    assert_eq!(__widen(&[_proto::Ss, _proto::Vless]), vec![_kind::Shadowsocks, _kind::Vless]);
    assert_eq!(__widen(&[_proto::Hysteria2]), vec![_kind::Hysteria2]);
    assert_eq!(__widen(&[_proto::Trojan, _proto::Trojan]), vec![_kind::Trojan, _kind::Trojan]);
}

fn sample() -> Vec<_relay> {
    vec![
        relay(_kind::Vless, "1.1.1.1", 1, "v1", Some(true), Some(80)),
        relay(_kind::Trojan, "host.example", 2, "t1", Some(true), Some(20)),
        relay(_kind::Vless, "example.org", 3, "v2", Some(false), None),
        relay(_kind::Shadowsocks, "1.1.9.9", 4, "s1", None, Some(300)),
        relay(_kind::Vless, "10.1.1.1", 5, "v3", Some(true), Some(100)),
    ]
}

#[test]
fn sift_filters_and_limits() {
    assert_eq!(tags(&__sift(sample(), None, None, None, 50)), vec!["v1", "t1", "v2", "s1", "v3"]);
    assert_eq!(tags(&__sift(sample(), Some(_proto::Vless), None, None, 50)), vec!["v1", "v2", "v3"]);
    assert_eq!(tags(&__sift(sample(), Some(_proto::All), None, None, 2)), vec!["v1", "t1"]);
    assert_eq!(tags(&__sift(sample(), None, Some(100), None, 50)), vec!["v1", "t1", "v3"]);
    assert_eq!(tags(&__sift(sample(), None, Some(80), None, 50)), vec!["v1", "t1"]);
    assert_eq!(tags(&__sift(sample(), None, None, Some("1.1".to_string()), 50)), vec!["v1", "s1", "v3"]);
    assert_eq!(
        tags(&__sift(sample(), Some(_proto::Vless), Some(90), Some("1.1".to_string()), 50)),
        vec!["v1"]
    );
    assert_eq!(tags(&__sift(sample(), None, None, Some(String::new()), 0)), Vec::<String>::new());
}

#[test]
fn prune_keeps_only_alive() {
    assert_eq!(tags(&prune_dead(sample())), vec!["v1", "t1", "v3"]);
}

#[test]
fn save_keeps_all_but_dead_and_splits_by_kind() {
    let s = sample();
    let kept = kept_for_save(&s);
    assert_eq!(tags(&kept), vec!["v1", "t1", "s1", "v3"]);
    assert_eq!(tags(&of_kind(&kept, _kind::Vless)), vec!["v1", "v3"]);
    assert_eq!(tags(&of_kind(&kept, _kind::Hysteria2)), Vec::<String>::new());
    let total: usize = [_kind::Vless, _kind::Trojan, _kind::Shadowsocks, _kind::Hysteria2]
        .iter()
        .map(|k| of_kind(&kept, *k).len())
        .sum();
    assert_eq!(total, kept.len());
    assert_eq!(alive_count(&kept), 3);
    assert_eq!(alive_count(&s), 3);
    assert_eq!(alive_count(&Vec::new()), 0);
}

#[test]
fn probe_results_are_recorded_on_one_relay() {
    let mut s = sample();
    record_probe(&mut s, 3, Some(42), "2024-01-01T00:00:00+00:00");
    assert_eq!(s[3].alive, Some(true));
    assert_eq!(s[3].ping_ms, Some(42));
    assert_eq!(s[3].checked_at.as_deref(), Some("2024-01-01T00:00:00+00:00"));
    assert_eq!(s[3]._tag, "s1");
    assert_eq!(s[2].alive, Some(false));
    assert!(s[2].checked_at.is_none());
    record_probe(&mut s, 0, None, "t");
    assert_eq!(s[0].alive, Some(false));
    assert_eq!(s[0].ping_ms, None);
}

#[test]
fn progress_reports() {
    assert!(report_progress(50, 120));
    assert!(report_progress(120, 120));
    assert!(!report_progress(51, 120));
    assert!(report_progress(0, 3));
}

#[test]
fn alive_labels() {
    assert_eq!(alive_label(Some(true)), "yes");
    assert_eq!(alive_label(Some(false)), "no");
    assert_eq!(alive_label(None), "?");
}

#[test]
fn extras_map_semantics() {
    let mut e = Extras::new();
    assert!(e.get("k").is_none());
    e.insert("k".to_string(), "1".to_string());
    e.insert("j".to_string(), "2".to_string());
    e.insert("k".to_string(), "3".to_string());
    assert_eq!(e.get("k").unwrap(), "3");
    assert_eq!(e.get("j").unwrap(), "2");
    let d = e.duplicate();
    assert_eq!(d.get("k").unwrap(), "3");
    assert_eq!(e.entries().len(), 3);
}
