use rifter::parser::{__blob_harvest, __single_carve, _kind};

#[test]
fn __vless_sanity() {
    let _sample = "vless://11111111-2222-3333-4444-555555555555@1.2.3.4:443?encryption=none&security=tls&type=ws#my-node";
    let _got = __single_carve(_sample).unwrap();
    assert_eq!(_got._kind, _kind::Vless);
    assert_eq!(_got._addr, "1.2.3.4");
    assert_eq!(_got._port, 443);
    assert_eq!(_got._tag, "my-node");
    assert_eq!(_got._extra.get("security").unwrap(), "tls");
}

#[test]
fn __trojan_sanity() {
    let _sample = "trojan://sup3rpass@5.5.5.5:8443?sni=example.com#tj-node";
    let _got = __single_carve(_sample).unwrap();
    assert_eq!(_got._kind, _kind::Trojan);
    assert_eq!(_got._secret, "sup3rpass");
    assert_eq!(_got._port, 8443);
}

#[test]
fn __hy2_alias_sanity() {
    let _sample = "hy2://pass123@9.9.9.9:36712?insecure=1#hy-node";
    let _got = __single_carve(_sample).unwrap();
    assert_eq!(_got._kind, _kind::Hysteria2);
    assert_eq!(_got._addr, "9.9.9.9");
}

#[test]
fn __ss_userinfo_form_sanity() {
    let ___creds = base64::Engine::encode(
        &base64::engine::general_purpose::STANDARD,
        "aes-256-gcm:supersecret",
    );
    let _sample = format!("ss://{___creds}@5.6.7.8:8388#ss-node");
    let _got = __single_carve(&_sample).unwrap();
    assert_eq!(_got._kind, _kind::Shadowsocks);
    assert_eq!(_got._addr, "5.6.7.8");
    assert_eq!(_got._port, 8388);
    assert_eq!(_got._secret, "supersecret");
    assert_eq!(_got._extra.get("method").unwrap(), "aes-256-gcm");
}

#[test]
fn __ss_legacy_form_sanity() {
    let ___whole = base64::Engine::encode(
        &base64::engine::general_purpose::STANDARD,
        "aes-256-gcm:supersecret@5.6.7.8:8388",
    );
    let _sample = format!("ss://{___whole}#legacy-node");
    let _got = __single_carve(&_sample).unwrap();
    assert_eq!(_got._kind, _kind::Shadowsocks);
    assert_eq!(_got._addr, "5.6.7.8");
    assert_eq!(_got._port, 8388);
}

#[test]
fn __harvest_mixed_blob() {
    let _blob = "junk text\nvless://aaa@1.1.1.1:443?type=ws#a\nmore junk here\ntrojan://pwd@2.2.2.2:8443#b\nrandom line ss://Zm9vOmJhcg==@3.3.3.3:1080#c\n";
    let _got = __blob_harvest(_blob);
    assert_eq!(_got.len(), 3);
}

#[test]
fn __garbage_rejected() {
    assert!(__single_carve("http://not-a-relay.com").is_none());
    assert!(__single_carve("vless://broken-no-host").is_none());
}
