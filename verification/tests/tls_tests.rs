use tproxy::tls::{
    get_grease_values, get_ios_safari_cipher_suites, is_client_hello,
    parse_server_hello_for_ticket, SessionTicket, SessionTicketCache, TlsClientHello, TlsError,
    TlsExtension,
};

fn sample_hello_bytes() -> Vec<u8> {
    // One cipher suite 0xC02B, server_name example.com, no compression.
    let sni_host = b"example.com";
    let mut sni = Vec::new();
    sni.extend_from_slice(&((sni_host.len() as u16 + 3).to_be_bytes()));
    sni.push(0);
    sni.extend_from_slice(&((sni_host.len() as u16).to_be_bytes()));
    sni.extend_from_slice(sni_host);
    let mut exts = Vec::new();
    exts.extend_from_slice(&0u16.to_be_bytes());
    exts.extend_from_slice(&(sni.len() as u16).to_be_bytes());
    exts.extend_from_slice(&sni);
    let mut body = Vec::new();
    body.extend_from_slice(&[0x03, 0x03]);
    body.extend_from_slice(&[7u8; 32]);
    body.push(0);
    body.extend_from_slice(&2u16.to_be_bytes());
    body.extend_from_slice(&0xC02Bu16.to_be_bytes());
    body.push(1);
    body.push(0);
    body.extend_from_slice(&(exts.len() as u16).to_be_bytes());
    body.extend_from_slice(&exts);
    let mut out = Vec::new();
    out.push(0x16);
    out.extend_from_slice(&[0x03, 0x01]);
    out.extend_from_slice(&((body.len() as u16 + 4).to_be_bytes()));
    out.push(0x01);
    out.push(0);
    out.extend_from_slice(&((body.len() as u16).to_be_bytes()));
    out.extend_from_slice(&body);
    out
}

#[test]
fn test_grease_values() {
    let grease = get_grease_values();
    assert!(grease.len() > 0);
    assert!(grease.contains(&0x0a0a));
}

#[test]
fn test_cipher_suites() {
    let ciphers = get_ios_safari_cipher_suites();
    assert!(ciphers.len() > 0);
    assert_eq!(ciphers[0], 0x1301);
}

#[test]
fn test_session_ticket_cache() {
    let mut cache = SessionTicketCache::new();
    cache.store("example.com".to_string(), vec![1, 2, 3, 4]);
    let ticket = cache.get("example.com");
    assert!(ticket.is_some());
    assert_eq!(ticket.unwrap(), vec![1, 2, 3, 4]);
    let no_ticket = cache.get("other.com");
    assert!(no_ticket.is_none());
}

#[test]
fn test_session_ticket_expiry() {
    let mut ticket = SessionTicket::new(vec![1, 2, 3], "test.com".to_string());
    assert!(!ticket.is_expired());
    ticket.timestamp = 0;
    assert!(ticket.is_expired());
}

#[test]
fn parses_sample_hello() {
    let bytes = sample_hello_bytes();
    let hello = TlsClientHello::parse(&bytes).unwrap();
    assert_eq!(hello.version, vec![0x03, 0x03]);
    assert_eq!(hello.random, vec![7u8; 32]);
    assert_eq!(hello.session_id.len(), 0);
    assert_eq!(hello.cipher_suites, vec![0xC02B]);
    assert_eq!(hello.compression_methods, vec![0]);
    assert_eq!(hello.extensions.len(), 1);
    assert_eq!(hello.extensions[0].extension_type, 0);
}

#[test]
fn minimum_hello_parses_and_shorter_fails() {
    // Record header, handshake header, version and random: the minimum.
    let mut bytes = Vec::new();
    bytes.push(0x16);
    bytes.extend_from_slice(&[0x03, 0x01]);
    bytes.extend_from_slice(&38u16.to_be_bytes());
    bytes.push(0x01);
    bytes.push(0);
    bytes.extend_from_slice(&34u16.to_be_bytes());
    bytes.extend_from_slice(&[0x03, 0x03]);
    bytes.extend_from_slice(&[9u8; 32]);
    assert_eq!(bytes.len(), 43);
    let hello = TlsClientHello::parse(&bytes).unwrap();
    assert_eq!(hello.random, vec![9u8; 32]);
    assert_eq!(hello.cipher_suites.len(), 0);
    let short = &bytes[..42];
    assert_eq!(TlsClientHello::parse(short).unwrap_err(), TlsError::ParseTooShort);
}

#[test]
fn rewrite_prepends_trio_and_sni_leads() {
    let bytes = sample_hello_bytes();
    let hello = TlsClientHello::parse(&bytes).unwrap();
    let out = hello.to_ios_safari_with_ticket(None, "example.com").unwrap();
    let again = TlsClientHello::parse(&out).unwrap();
    assert_eq!(again.cipher_suites, vec![0x1301, 0x1302, 0x1303, 0xC02B]);
    assert_eq!(again.extensions[0].extension_type, 0);
    let sni = &again.extensions[0].data;
    let name_len = u16::from_be_bytes([sni[3], sni[4]]) as usize;
    assert_eq!(&sni[5..5 + name_len], b"example.com");
    // Record and handshake length fields match the new block.
    let record_len = u16::from_be_bytes([out[3], out[4]]) as usize;
    assert_eq!(out.len(), 5 + record_len);
}

#[test]
fn rewrite_preserves_random_and_session_id() {
    let bytes = sample_hello_bytes();
    let hello = TlsClientHello::parse(&bytes).unwrap();
    let out = hello.to_ios_safari_with_ticket(None, "example.com").unwrap();
    let again = TlsClientHello::parse(&out).unwrap();
    assert_eq!(again.random, hello.random);
    assert_eq!(again.session_id, hello.session_id);
}

#[test]
fn rewrite_is_idempotent() {
    let bytes = sample_hello_bytes();
    let hello = TlsClientHello::parse(&bytes).unwrap();
    let once = hello.to_ios_safari_with_ticket(None, "example.com").unwrap();
    let parsed_once = TlsClientHello::parse(&once).unwrap();
    let twice = parsed_once.to_ios_safari_with_ticket(None, "example.com").unwrap();
    assert_eq!(once, twice);
}

#[test]
fn ticket_lands_in_session_ticket_extension() {
    let bytes = sample_hello_bytes();
    let hello = TlsClientHello::parse(&bytes).unwrap();
    let out = hello
        .to_ios_safari_with_ticket(Some(&[9, 9, 9]), "example.com")
        .unwrap();
    let again = TlsClientHello::parse(&out).unwrap();
    let ticket_ext = again
        .extensions
        .iter()
        .find(|e| e.extension_type == 35)
        .expect("ticket extension");
    assert_eq!(ticket_ext.data, vec![9, 9, 9]);
}

#[test]
fn extension_lookup_and_ticket_extraction() {
    let hello = TlsClientHello {
        version: vec![3, 3],
        random: vec![0; 32],
        session_id: vec![],
        cipher_suites: vec![0x1301],
        compression_methods: vec![0],
        extensions: vec![
            TlsExtension { extension_type: 35, data: vec![5, 6] },
            TlsExtension { extension_type: 10, data: vec![1] },
        ],
    };
    assert_eq!(hello.find_extension_data(10), Some(vec![1]));
    assert_eq!(hello.find_extension_data(99), None);
    assert_eq!(hello.extract_session_ticket(), Some(vec![5, 6]));
}

#[test]
fn server_hello_ticket_scan() {
    // ServerHello with one session_ticket extension.
    let mut hs = Vec::new();
    hs.push(0x02);
    hs.extend_from_slice(&[0, 0, 0]);
    hs.extend_from_slice(&[0x03, 0x03]);
    hs.extend_from_slice(&[1u8; 32]);
    hs.push(0); // empty session id
    hs.extend_from_slice(&0x1301u16.to_be_bytes());
    hs.push(0); // compression
    let mut exts = Vec::new();
    exts.extend_from_slice(&35u16.to_be_bytes());
    exts.extend_from_slice(&3u16.to_be_bytes());
    exts.extend_from_slice(&[7, 8, 9]);
    hs.extend_from_slice(&(exts.len() as u16).to_be_bytes());
    hs.extend_from_slice(&exts);
    let mut bytes = vec![0x16, 0x03, 0x03];
    bytes.extend_from_slice(&(hs.len() as u16).to_be_bytes());
    bytes.extend_from_slice(&hs);
    assert_eq!(parse_server_hello_for_ticket(&bytes), Some(vec![7, 8, 9]));
    assert_eq!(parse_server_hello_for_ticket(&[0x17, 0, 0]), None);
}

#[test]
fn client_hello_probe() {
    let tls_hello = vec![0x16, 0x03, 0x01, 0x00, 0x10, 0x01];
    assert!(is_client_hello(&tls_hello));
    assert!(!is_client_hello(&[0x16, 0x03, 0x01]));
}

#[test]
fn cache_cleanup_and_clear() {
    let mut cache = SessionTicketCache::new();
    cache.store("a".to_string(), vec![1]);
    cache.cleanup_expired();
    assert!(cache.get("a").is_some());
    cache.clear();
    assert!(cache.get("a").is_none());
}

#[test]
fn synthesize_overflow_on_long_host() {
    let bytes = sample_hello_bytes();
    let hello = TlsClientHello::parse(&bytes).unwrap();
    let long_host = "x".repeat(0x10000);
    let r = hello.to_ios_safari_with_ticket(None, &long_host);
    assert_eq!(r.unwrap_err(), TlsError::SynthesizeOverflow);
}
