use tsgu_rpc::error::GatewayError;
use tsgu_rpc::tls::{to_hex, CertInfo};

#[test]
fn hex_is_lower_case_with_the_high_digit_first() {
    assert_eq!(to_hex(&[0x00, 0x1f, 0xa0, 0xff]), "001fa0ff");
    assert_eq!(to_hex(&[]), "");
}

#[test]
fn a_certificate_is_its_digest() {
    let cert = CertInfo::from_der("gw.example", Ok(b"abc".to_vec())).unwrap();
    assert_eq!(cert.host, "gw.example");
    assert_eq!(
        cert.sha256_hex,
        "ba7816bf8f01cfea414140de5dae2223b00361a396177a9cb410ff61f20015ad"
    );
    let print = cert.fingerprint();
    assert_eq!(print.len(), 95);
    assert!(print.starts_with("BA:78:16:BF:8F:01:CF:EA:"));
    assert!(print.ends_with(":15:AD"));
    let copy = cert.clone();
    assert_eq!(copy.fingerprint(), print);
    assert_eq!(copy.host, cert.host);
}

#[test]
fn a_digest_is_written_in_hex() {
    let cert = CertInfo::from_digest("gw", &[0xAB, 0x01]);
    assert_eq!((cert.host.as_str(), cert.sha256_hex.as_str()), ("gw", "ab01"));
    assert_eq!(cert.fingerprint(), "AB:01");
}

#[test]
fn a_certificate_that_cannot_be_encoded_is_an_error() {
    let e = CertInfo::from_der("gw", Err("why".to_owned())).unwrap_err();
    assert!(matches!(e, GatewayError::Tls(_)));
    assert_eq!(e.message(), "tls: certificate re-encode: why");
}

#[test]
fn fingerprints_group_any_text() {
    let print = |s: &str| {
        CertInfo { host: String::new(), sha256_hex: s.to_owned() }.fingerprint()
    };
    assert_eq!(print(""), "");
    assert_eq!(print("a"), "A");
    assert_eq!(print("ab1"), "AB:1");
    assert_eq!(print("0a-z"), "0A:-Z");
    assert_eq!(print("\u{e9}\u{df}x"), "\u{c9}SS:X");
}

#[test]
fn different_digests_have_different_fingerprints() {
    let a = CertInfo::from_der("gw", Ok(vec![1])).unwrap();
    let b = CertInfo::from_der("gw", Ok(vec![2])).unwrap();
    assert_ne!(a.fingerprint(), b.fingerprint());
}
