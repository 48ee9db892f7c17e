use tproxy::proxy::extract_sni;
use tproxy::tls::TlsClientHello;

#[test]
fn sni_read_back_from_rewritten_hello() {
    let hello = TlsClientHello {
        version: vec![3, 3],
        random: vec![1; 32],
        session_id: vec![],
        cipher_suites: vec![0xC02B],
        compression_methods: vec![0],
        extensions: vec![],
    };
    let out = hello
        .to_ios_safari_with_ticket(None, "host.example")
        .unwrap();
    assert_eq!(extract_sni(&out), Some("host.example".to_string()));
}

#[test]
fn sni_absent_on_garbage() {
    assert_eq!(extract_sni(&[0x17, 0x00]), None);
}
