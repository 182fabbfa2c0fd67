use peapod::config::{default_discovery_port, default_proxy_port, default_transport_port, Config};
use peapod::proxy::{is_eligible, is_proxy_ours, parse_range_header, parse_request, SystemProxyState};

#[test]
fn range_header_closed_range() {
    assert_eq!(parse_range_header("bytes=0-99"), Some((0, 99)));
    assert_eq!(parse_range_header("  bytes=10 - 20\t"), Some((10, 20)));
    assert_eq!(parse_range_header("bytes=+5-+7"), Some((5, 7)));
    assert_eq!(parse_range_header("bytes=7-7"), Some((7, 7)));
    assert_eq!(parse_range_header("\u{a0}bytes=1-2\u{3000}"), Some((1, 2)));
}

#[test]
fn range_header_rejections() {
    assert_eq!(parse_range_header("bytes=0-"), None);
    assert_eq!(parse_range_header("bytes=5-4"), None);
    assert_eq!(parse_range_header("bytes=-5"), None);
    assert_eq!(parse_range_header("items=0-5"), None);
    assert_eq!(parse_range_header("Bytes=0-5"), None);
    assert_eq!(parse_range_header("bytes=0-5,7-9"), None);
    assert_eq!(parse_range_header("bytes=a-5"), None);
    assert_eq!(parse_range_header("bytes=0-18446744073709551616"), None);
    assert_eq!(parse_range_header("bytes=0-18446744073709551615"), Some((0, u64::MAX)));
    assert_eq!(parse_range_header(""), None);
}

#[test]
fn only_get_is_eligible() {
    assert!(is_eligible(b"GET", b"/"));
    assert!(is_eligible(b"get", b"/x"));
    assert!(is_eligible(b"GeT", b"/"));
    assert!(!is_eligible(b"POST", b"/"));
    assert!(!is_eligible(b"GETS", b"/"));
    assert!(!is_eligible(b"", b"/"));
}

#[test]
fn config_defaults_and_overrides() {
    let c = Config::default();
    assert_eq!(c.proxy_port, 3128);
    assert_eq!(c.discovery_port, 45678);
    assert_eq!(c.transport_port, 45679);
    assert_eq!((default_proxy_port(), default_discovery_port(), default_transport_port()), (3128, 45678, 45679));
    let o = c.with_overrides(Some(8080), None, Some(1));
    assert_eq!(o, Config { proxy_port: 8080, discovery_port: 45678, transport_port: 1 });
}

#[test]
fn proxy_is_ours_when_enabled_and_matching() {
    let on = SystemProxyState { enabled: true, server: "  127.0.0.1:3128 ".to_string(), proxy_override: String::new() };
    assert!(is_proxy_ours(&on, "127.0.0.1:3128"));
    assert!(!is_proxy_ours(&on, "127.0.0.1:3129"));
    let named = SystemProxyState { enabled: true, server: "LocalHost:3128".to_string(), proxy_override: String::new() };
    assert!(is_proxy_ours(&named, "localhost:3128"));
    let off = SystemProxyState { enabled: false, ..on.clone() };
    assert!(!is_proxy_ours(&off, "127.0.0.1:3128"));
}

#[test]
fn request_head_is_parsed() {
    let req = b"GET http://example.com/f HTTP/1.1\r\nhost: example.com\r\nRANGE: bytes=0-99\r\n\r\n";
    let (method, path, host, range) = parse_request(req).unwrap();
    assert_eq!(method, b"GET".to_vec());
    assert_eq!(path, b"http://example.com/f".to_vec());
    assert_eq!(host, Some(b"example.com".to_vec()));
    assert_eq!(range, Some((0, 99)));
    let no_range = b"GET /f HTTP/1.1\r\nHost: a\r\nHost: b\r\n\r\n";
    assert_eq!(parse_request(no_range), Some((b"GET".to_vec(), b"/f".to_vec(), Some(b"b".to_vec()), None)));
    assert_eq!(parse_request(b"GET /f HTTP/1.1\r\nHost: a\r\n"), None);
    let bad = b"GET /f HTTP/1.1\r\nRange: \xff\r\n\r\n";
    assert_eq!(parse_request(bad), None);
}
