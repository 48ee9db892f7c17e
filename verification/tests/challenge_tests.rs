use tproxy::challenge::{ChallengeHandler, HeaderMap, RedirectChain, RedirectError};

#[test]
fn test_detect_challenge() {
    let handler = ChallengeHandler::new();
    let body = "Some <div id=\"cf-browser-verification\"> content";
    assert!(handler.detect_challenge(body, &HeaderMap::new()));
    let normal_body = "Normal website content";
    assert!(!handler.detect_challenge(normal_body, &HeaderMap::new()));
}

#[test]
fn test_redirect_chain() {
    let mut chain = RedirectChain::new("https://example.com".to_string());
    chain.add_redirect(
        "https://example.com".to_string(),
        "https://example.com/redirect1".to_string(),
        302,
    );
    chain.add_redirect(
        "https://example.com/redirect1".to_string(),
        "https://example.com/final".to_string(),
        302,
    );
    assert_eq!(chain.redirect_count(), 2);
    assert_eq!(chain.get_final_url(), Some("https://example.com/final".to_string()));
    assert!(!chain.has_loop());
}

#[test]
fn test_redirect_loop_detection() {
    let mut chain = RedirectChain::new("https://example.com".to_string());
    chain.add_redirect(
        "https://example.com".to_string(),
        "https://example.com/a".to_string(),
        302,
    );
    chain.add_redirect(
        "https://example.com/a".to_string(),
        "https://example.com/b".to_string(),
        302,
    );
    chain.add_redirect(
        "https://example.com/b".to_string(),
        "https://example.com/a".to_string(),
        302,
    );
    assert!(chain.has_loop());
}

#[test]
fn test_challenge_handler_redirects() {
    let mut handler = ChallengeHandler::new();
    handler.start_redirect_chain("https://example.com".to_string());
    let result = handler.add_redirect(
        "https://example.com",
        "https://example.com".to_string(),
        "https://example.com/step1".to_string(),
        302,
    );
    assert!(result.is_ok());
    assert_eq!(handler.get_redirect_chain_length("https://example.com"), 1);
}

#[test]
fn test_redirect_cookies() {
    let mut handler = ChallengeHandler::new();
    handler.start_redirect_chain("https://example.com".to_string());
    handler.add_redirect_cookie(
        "https://example.com",
        "cf_clearance".to_string(),
        "test123".to_string(),
    );
    let cookies = handler.get_redirect_cookies("https://example.com");
    assert_eq!(cookies.len(), 1);
    assert!(cookies[0].contains("cf_clearance"));
}

#[test]
fn tenth_redirect_succeeds_eleventh_refused() {
    let mut handler = ChallengeHandler::new();
    handler.start_redirect_chain("https://origin/".to_string());
    for k in 0..10 {
        let r = handler.add_redirect(
            "https://origin/",
            format!("https://origin/{}", k),
            format!("https://origin/{}", k + 1),
            302,
        );
        assert!(r.is_ok(), "hop {} refused", k);
    }
    let r = handler.add_redirect(
        "https://origin/",
        "https://origin/10".to_string(),
        "https://origin/11".to_string(),
        302,
    );
    assert_eq!(r.unwrap_err(), RedirectError::TooManyRedirects);
    assert_eq!(handler.get_redirect_chain_length("https://origin/"), 10);
}

#[test]
fn redirect_loop_rejected() {
    let mut handler = ChallengeHandler::new();
    handler.start_redirect_chain("https://a/".to_string());
    let r1 = handler.add_redirect(
        "https://a/",
        "https://a/".to_string(),
        "https://b/".to_string(),
        302,
    );
    assert!(r1.is_ok());
    let r2 = handler.add_redirect(
        "https://a/",
        "https://b/".to_string(),
        "https://a/".to_string(),
        302,
    );
    assert_eq!(r2.unwrap_err(), RedirectError::RedirectLoop);
    assert_eq!(handler.get_redirect_chain_length("https://a/"), 1);
}

#[test]
fn no_chain_refused() {
    let mut handler = ChallengeHandler::new();
    let r = handler.add_redirect("https://nowhere/", "a".to_string(), "b".to_string(), 302);
    assert_eq!(r.unwrap_err(), RedirectError::NoChain);
}

#[test]
fn challenge_headers_detected() {
    let handler = ChallengeHandler::new();
    let mut headers = HeaderMap::new();
    headers.push("server".to_string(), "cloudflare".to_string());
    headers.push("cf-mitigated".to_string(), "challenge".to_string());
    assert!(handler.detect_challenge("plain", &headers));
    let mut headers2 = HeaderMap::new();
    headers2.push("location".to_string(), "/cdn-cgi/challenge-platform".to_string());
    assert!(handler.detect_challenge("plain", &headers2));
}

#[test]
fn challenge_registration_roundtrip() {
    let mut handler = ChallengeHandler::new();
    handler.register_challenge("https://x/".to_string(), vec!["cf_a=1".to_string()]);
    assert!(handler.should_passthrough("https://x/"));
    assert_eq!(handler.get_challenge_cookies("https://x/").unwrap().len(), 1);
    handler.complete_challenge("https://x/");
    assert!(!handler.should_passthrough("https://x/"));
}

#[test]
fn challenge_cookie_names_extracted() {
    let handler = ChallengeHandler::new();
    let mut headers = HeaderMap::new();
    headers.push(
        "set-cookie".to_string(),
        "cf_clearance=abc; other=1; __cfduid=d".to_string(),
    );
    let cookies = handler.extract_challenge_cookies(&headers);
    assert_eq!(cookies.len(), 2);
    assert!(cookies[0].contains("cf_clearance"));
    assert!(cookies[1].contains("__cfduid"));
}

#[test]
fn unparsed_fragments_are_not_cookies() {
    // A fragment without a value does not parse as a cookie, whatever its
    // prefix; only the well-formed challenge cookie survives.
    let handler = ChallengeHandler::new();
    let mut headers = HeaderMap::new();
    headers.push("set-cookie".to_string(), "cf_broken; cf_ok=1".to_string());
    let cookies = handler.extract_challenge_cookies(&headers);
    assert_eq!(cookies, vec!["cf_ok=1".to_string()]);
}

#[test]
fn redirect_status_codes() {
    let handler = ChallengeHandler::new();
    for code in [301u16, 302, 303, 307, 308] {
        assert!(handler.is_redirect(code));
    }
    assert!(!handler.is_redirect(200));
    assert!(!handler.is_redirect(304));
}

#[test]
fn redirect_cookie_list_is_exact_with_last_write_winning() {
    let mut handler = ChallengeHandler::new();
    handler.start_redirect_chain("https://example.com".to_string());
    handler.add_redirect_cookie(
        "https://example.com",
        "cf_clearance".to_string(),
        "first".to_string(),
    );
    handler.add_redirect_cookie(
        "https://example.com",
        "__cf_bm".to_string(),
        "beta".to_string(),
    );
    handler.add_redirect_cookie(
        "https://example.com",
        "cf_clearance".to_string(),
        "second".to_string(),
    );
    let cookies = handler.get_redirect_cookies("https://example.com");
    assert_eq!(cookies, vec!["cf_clearance=second".to_string(), "__cf_bm=beta".to_string()]);
}

#[test]
fn finishing_a_chain_reports_its_last_hop_and_forgets_it() {
    let mut handler = ChallengeHandler::new();
    handler.start_redirect_chain("https://a".to_string());
    handler
        .add_redirect("https://a", "https://a".to_string(), "https://b".to_string(), 302)
        .unwrap();
    handler
        .add_redirect("https://a", "https://b".to_string(), "https://c".to_string(), 301)
        .unwrap();
    assert_eq!(handler.finish_redirect_chain("https://a"), Some("https://c".to_string()));
    assert_eq!(handler.finish_redirect_chain("https://a"), None);
    assert_eq!(handler.get_redirect_chain_length("https://a"), 0);
}

#[test]
fn header_line_split_lowercases_and_trims() {
    let r = tproxy::challenge::parse_header_line("  Content-Type : text/html; charset=UTF-8 ");
    assert_eq!(
        r,
        Some(("content-type".to_string(), "text/html; charset=UTF-8".to_string()))
    );
    assert_eq!(tproxy::challenge::parse_header_line("no colon here"), None);
    let empty_value = tproxy::challenge::parse_header_line("Server:");
    assert_eq!(empty_value, Some(("server".to_string(), "".to_string())));
}
