use tproxy::packet::{ones_checksum, recalculate_ip_checksum};
use tproxy::tls::is_client_hello;

#[test]
fn test_client_hello_detection() {
    // A ClientHello packet starts 0x16 0x03 ... with 0x01 at the message.
    let tls_hello = vec![0x16, 0x03, 0x01, 0x00, 0x10, 0x01];
    assert!(is_client_hello(&tls_hello));
}

#[test]
fn checksum_of_known_words() {
    assert_eq!(ones_checksum(&[0x00, 0x01]), 0xfffe);
    assert_eq!(ones_checksum(&[]), 0xffff);
    // Carry folds back in: 0xffff + 0x0001 wraps to 0x0001.
    assert_eq!(ones_checksum(&[0xff, 0xff, 0x00, 0x01]), 0xfffe);
}

#[test]
fn ip_header_checksum_verifies() {
    // A minimal 20-byte header; the rewritten checksum makes the sum fold
    // to zero.
    let mut packet = vec![
        0x45, 0x00, 0x00, 0x28, 0x00, 0x01, 0x00, 0x00, 0x40, 0x06, 0x00, 0x00, 0x0a, 0x00,
        0x00, 0x01, 0x0a, 0x00, 0x00, 0x02,
    ];
    recalculate_ip_checksum(&mut packet, 20);
    let mut check = packet.clone();
    check[10] = 0;
    check[11] = 0;
    let expect = ones_checksum(&check[..20]);
    assert_eq!(u16::from_be_bytes([packet[10], packet[11]]), expect);
}
