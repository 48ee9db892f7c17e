use tproxy::proxy::{
    classify, extract_connect_target, extract_http_host, is_connect_method, is_http_request,
    is_tls_handshake, parse_status_code, rewrite_http_request, PathKind,
};

#[test]
fn absolute_uri_rewritten_to_origin_form() {
    let request =
        "GET http://httpbin.org/get HTTP/1.1\r\nHost: httpbin.org\r\nProxy-Connection: keep-alive\r\n\r\n";
    let rewritten = rewrite_http_request(request);
    assert_eq!(
        rewritten,
        b"GET /get HTTP/1.1\r\nHost: httpbin.org\r\n\r\n".to_vec()
    );
}

#[test]
fn origin_form_passes_through() {
    let request = "GET /path HTTP/1.1\r\nHost: a\r\n\r\n";
    let rewritten = rewrite_http_request(request);
    assert_eq!(rewritten, b"GET /path HTTP/1.1\r\nHost: a\r\n\r\n".to_vec());
}

#[test]
fn classifier_precedence() {
    assert_eq!(classify(b"CONNECT example.com:443 HTTP/1.1\r\n\r\n"), PathKind::Connect);
    assert_eq!(classify(b"connect x HTTP/1.1\r\n"), PathKind::Connect);
    assert_eq!(classify(&[0x16, 0x03, 0x01, 0x00]), PathKind::Tls);
    assert_eq!(classify(b"GET / HTTP/1.1\r\n"), PathKind::Http1);
    assert_eq!(classify(b"POST / HTTP/1.1\r\n"), PathKind::Http1);
    assert_eq!(classify(b"\x00\x01\x02"), PathKind::Opaque);
}

#[test]
fn method_probes() {
    assert!(is_connect_method(b"CONNECT "));
    assert!(!is_connect_method(b"GET "));
    assert!(is_tls_handshake(&[0x16, 0x03, 0x03]));
    assert!(!is_tls_handshake(&[0x17, 0x03, 0x03]));
    assert!(is_http_request(b"DELETE /x HTTP/1.1"));
    assert!(!is_http_request(b"OPTIONS /x HTTP/1.1"));
}

#[test]
fn connect_target_extracted() {
    let r = extract_connect_target("CONNECT example.com:443 HTTP/1.1\r\n\r\n");
    assert_eq!(r, Some("example.com:443".to_string()));
    assert_eq!(extract_connect_target("GET / HTTP/1.1\r\n"), None);
}

#[test]
fn host_header_extracted_with_default_port() {
    let host = extract_http_host("GET /get HTTP/1.1\r\nHost: httpbin.org\r\n\r\n");
    assert_eq!(host, Some("httpbin.org:80".to_string()));
    let host2 = extract_http_host("GET / HTTP/1.1\r\nhost: a.example:8080\r\n\r\n");
    assert_eq!(host2, Some("a.example:8080".to_string()));
}

#[test]
fn absolute_uri_host_fallback() {
    // Without a Host header, the authority of the absolute-form URL wins.
    let host = extract_http_host("GET http://fallback.example/path HTTP/1.1\r\n\r\n");
    assert_eq!(host, Some("fallback.example:80".to_string()));
}

#[test]
fn status_code_parsed() {
    assert_eq!(parse_status_code("HTTP/1.1 302 Found\r\n"), Some(302));
    assert_eq!(parse_status_code("HTTP/1.1 200 OK\r\n"), Some(200));
    assert_eq!(parse_status_code("garbage"), None);
}
