use tproxy::socks5::{HttpsProxyConnector, ReplyTail, Socks5Connector, TargetAddr};

#[test]
fn test_socks5_connector_creation() {
    let connector = Socks5Connector::new("127.0.0.1".to_string(), 1080, None, None);
    assert_eq!(connector.proxy_host, "127.0.0.1");
    assert_eq!(connector.proxy_port, 1080);
}

#[test]
fn test_https_connector_creation() {
    let connector = HttpsProxyConnector::new(
        "proxy.example.com".to_string(),
        8080,
        Some("user".to_string()),
        Some("pass".to_string()),
    );
    assert_eq!(connector.proxy_host, "proxy.example.com");
}

#[test]
fn socks5_domain_connect_bytes() {
    let connector = Socks5Connector::new("127.0.0.1".to_string(), 1080, None, None);
    assert_eq!(connector.build_greeting(), vec![0x05, 0x01, 0x00]);
    let addr = TargetAddr::Domain("example.com".to_string());
    let req = connector.build_connect_request(&addr, 443);
    let mut expected = vec![0x05, 0x01, 0x00, 0x03, 0x0b];
    expected.extend_from_slice(b"example.com");
    expected.extend_from_slice(&[0x01, 0xbb]);
    assert_eq!(req, expected);
}

#[test]
fn socks5_reply_tails() {
    let connector = Socks5Connector::new("h".to_string(), 1, None, None);
    match connector.parse_connect_reply(&[0x05, 0x00, 0x00, 0x01]).unwrap() {
        ReplyTail::Fixed(n) => assert_eq!(n, 6),
        _ => panic!("wrong tail"),
    }
    match connector.parse_connect_reply(&[0x05, 0x00, 0x00, 0x04]).unwrap() {
        ReplyTail::Fixed(n) => assert_eq!(n, 18),
        _ => panic!("wrong tail"),
    }
    assert!(matches!(
        connector.parse_connect_reply(&[0x05, 0x00, 0x00, 0x03]),
        Some(ReplyTail::DomainLen)
    ));
    assert!(connector.parse_connect_reply(&[0x05, 0x01, 0x00, 0x01]).is_none());
}

#[test]
fn greeting_offers_auth_with_credentials() {
    let connector = Socks5Connector::new(
        "h".to_string(),
        1,
        Some("user".to_string()),
        Some("pass".to_string()),
    );
    assert_eq!(connector.build_greeting(), vec![0x05, 0x02, 0x00, 0x02]);
    let auth = connector.build_auth_request("user", "pass");
    let mut expected = vec![0x01, 4];
    expected.extend_from_slice(b"user");
    expected.push(4);
    expected.extend_from_slice(b"pass");
    assert_eq!(auth, expected);
}

#[test]
fn socks5_ipv4_connect_bytes() {
    let connector = Socks5Connector::new("h".to_string(), 1, None, None);
    let req = connector.build_connect_request(&TargetAddr::V4(10, 0, 0, 1), 80);
    assert_eq!(req, vec![0x05, 0x01, 0x00, 0x01, 10, 0, 0, 1, 0x00, 0x50]);
}

#[test]
fn http_connect_request_with_basic_auth() {
    let connector = HttpsProxyConnector::new(
        "p".to_string(),
        8080,
        Some("user".to_string()),
        Some("pass".to_string()),
    );
    let req = connector.build_connect_request("example.com", 443);
    assert!(req.starts_with("CONNECT example.com:443 HTTP/1.1\r\nHost: example.com:443\r\n"));
    assert!(req.contains("Proxy-Authorization: Basic dXNlcjpwYXNz\r\n"));
    assert!(req.ends_with("\r\n\r\n"));
}

#[test]
fn proxy_response_success_test() {
    let connector = HttpsProxyConnector::new("p".to_string(), 8080, None, None);
    assert!(connector.is_success_response(b"HTTP/1.1 200 Connection Established\r\n\r\n"));
    assert!(!connector.is_success_response(b"HTTP/1.1 403 Forbidden\r\n\r\n"));
}
