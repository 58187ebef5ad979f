use rifter::discovery::{
    __badge, __needles_for, claim_relays, classify_status, decode_contents, per_needle_cap,
    strip_white_space, SlurpError, StatusClass, TrawlState,
};
use rifter::parser::{_kind, __single_carve};

#[test]
fn needles_per_protocol() {
    assert_eq!(__needles_for(_kind::Vless), vec!["\"vless://\""]);
    assert_eq!(__needles_for(_kind::Shadowsocks), vec!["\"ss://\""]);
    assert_eq!(__needles_for(_kind::Hysteria2), vec!["\"hysteria2://\"", "\"hy2://\""]);
}

#[test]
fn badge_headers() {
    let h = __badge("tok123");
    assert_eq!(h.len(), 4);
    assert_eq!(h[0], ("Authorization", "Bearer tok123".to_string()));
    assert_eq!(h[1], ("User-Agent", "rifter-cli".to_string()));
    assert_eq!(h[2], ("Accept", "application/vnd.github+json".to_string()));
    assert_eq!(h[3], ("X-GitHub-Api-Version", "2022-11-28".to_string()));
}

#[test]
fn status_classes() {
    assert_eq!(classify_status(403), StatusClass::RateLimited);
    assert_eq!(classify_status(429), StatusClass::RateLimited);
    assert_eq!(classify_status(200), StatusClass::Success);
    assert_eq!(classify_status(299), StatusClass::Success);
    assert_eq!(classify_status(300), StatusClass::Failed);
    assert_eq!(classify_status(404), StatusClass::Failed);
    assert_eq!(classify_status(199), StatusClass::Failed);
}

#[test]
fn trawl_pages_until_cap() {
    let mut st = TrawlState::new(150);
    assert_eq!(st.per_page, 100);
    assert!(st.wants_more());
    assert_eq!(st.on_page(100), (100, false));
    assert_eq!(st.page, 2);
    assert_eq!(st.on_page(100), (50, false));
    assert_eq!(st.collected, 150);
    assert!(!st.wants_more());
}

#[test]
fn trawl_stops_on_short_or_empty_page() {
    let mut st = TrawlState::new(50);
    assert_eq!(st.per_page, 50);
    assert_eq!(st.on_page(20), (20, true));
    assert_eq!(st.page, 1);
    let mut st = TrawlState::new(50);
    assert_eq!(st.on_page(0), (0, true));
    let zero = TrawlState::new(0);
    assert_eq!(zero.per_page, 1);
    assert!(!zero.wants_more());
}

#[test]
fn needle_caps() {
    assert_eq!(per_needle_cap(50, 2), 25);
    assert_eq!(per_needle_cap(1, 2), 1);
    assert_eq!(per_needle_cap(10, 0), 10);
    assert_eq!(per_needle_cap(0, 1), 1);
}

#[test]
fn contents_are_decoded() {
    let got = decode_contents(Some("aGVs\nbG8g\r\nd29y bGQ=\n".to_string()), Some("base64".to_string()));
    assert_eq!(got, Ok("hello world".to_string()));
}

#[test]
fn contents_errors() {
    assert_eq!(decode_contents(None, Some("base64".to_string())), Err(SlurpError::NoInlineBody));
    assert_eq!(decode_contents(Some("x".to_string()), None), Err(SlurpError::NoInlineBody));
    assert_eq!(
        decode_contents(Some("aGk=".to_string()), Some("utf-8".to_string())),
        Err(SlurpError::UnexpectedEncoding("utf-8".to_string()))
    );
    assert_eq!(
        decode_contents(Some("a".to_string()), Some("base64".to_string())),
        Err(SlurpError::BadBase64)
    );
}

#[test]
fn contents_that_are_not_utf8_are_read_leniently() {
    let got = decode_contents(Some("/2hp".to_string()), Some("base64".to_string()));
    assert_eq!(got, Ok("\u{FFFD}hi".to_string()));
}

#[test]
fn white_space_is_stripped() {
    assert_eq!(strip_white_space(" a\tb\u{a0}c\u{3000}d\n"), "abcd");
    assert_eq!(strip_white_space(""), "");
}

#[test]
fn claimed_relays_are_of_the_kind_and_sourced() {
    let found = vec![
        __single_carve("vless://a@1.1.1.1:1").unwrap(),
        __single_carve("trojan://a@2.2.2.2:2").unwrap(),
        __single_carve("vless://b@3.3.3.3:3").unwrap(),
    ];
    let got = claim_relays(found, _kind::Vless, "owner/repo", "path/to/file.txt");
    assert_eq!(got.len(), 2);
    assert_eq!(got[0]._addr, "1.1.1.1");
    assert_eq!(got[1]._addr, "3.3.3.3");
    assert_eq!(got[1].source_repo.as_deref(), Some("owner/repo"));
    assert_eq!(got[1].source_path.as_deref(), Some("path/to/file.txt"));
}


#[test]
fn contents_with_line_breaks() {
    let got = decode_contents(Some("Zm9v\nYmFy\n".to_string()), Some("base64".to_string()));
    assert_eq!(got, Ok("foobar".to_string()));
}
