use ed25519_dalek::{Signature, Verifier, VerifyingKey};
use encrypted_dns::certs::{encode_name, provider_name, rotate, serve_certificates, DNSCryptEncryptionParams};
use encrypted_dns::state::{SignKeyPair, State};

fn txt_query(name: &[u8]) -> Vec<u8> {
    let mut p = vec![0x55, 0x66, 0x01, 0x00, 0, 1, 0, 0, 0, 0, 0, 0];
    p.extend_from_slice(name);
    p.extend_from_slice(&[0, 16, 0, 1]);
    p
}

#[test]
fn names_are_encoded_in_wire_format() {
    assert_eq!(encode_name(b"2.dnscrypt.example.com").unwrap(), b"\x012\x08dnscrypt\x07example\x03com\x00".to_vec());
    assert_eq!(encode_name(b"example.com.").unwrap(), b"\x07example\x03com\x00".to_vec());
    assert_eq!(encode_name(b"a..b"), None);
    assert_eq!(encode_name(&[b'a'; 64]), None);
}

#[test]
fn provider_name_gets_its_prefix() {
    assert_eq!(provider_name(b"example.com"), b"2.dnscrypt.example.com".to_vec());
    assert_eq!(provider_name(b"2.dnscrypt.example.com"), b"2.dnscrypt.example.com".to_vec());
}

#[test]
fn certificate_fetch_returns_signed_certificates() {
    let provider = SignKeyPair::from_seed(&[1u8; 32]);
    let set = vec![
        DNSCryptEncryptionParams::from_keys(&provider, &[2u8; 32], 1_000_000),
        DNSCryptEncryptionParams::from_keys(&provider, &[3u8; 32], 1_000_100),
    ];
    let name = encode_name(b"2.dnscrypt-cert.Example.com").unwrap();
    let q = txt_query(&name);
    let lower = encode_name(b"2.dnscrypt-cert.example.com").unwrap();
    let resp = serve_certificates(&q, &lower, &set).unwrap();
    assert_eq!(&resp[..2], &[0x55, 0x66]);
    assert!(resp[2] & 0x80 != 0);
    assert_eq!(&resp[4..12], &[0, 1, 0, 2, 0, 0, 0, 0]);
    let vk = VerifyingKey::from_bytes(&provider.pk.clone().try_into().unwrap()).unwrap();
    let mut pos = q.len();
    for params in &set {
        assert_eq!(&resp[pos..pos + 6], &[0xc0, 0x0c, 0, 16, 0, 1]);
        assert_eq!(&resp[pos + 10..pos + 12], &[0, 125]);
        assert_eq!(resp[pos + 12], 124);
        let cert = &resp[pos + 13..pos + 13 + 124];
        assert_eq!(cert, &params.cert[..]);
        assert_eq!(&cert[..4], b"DNSC");
        assert_eq!(&cert[4..8], &[0, 1, 0, 0]);
        let sig = Signature::from_bytes(&cert[8..72].try_into().unwrap());
        assert!(vk.verify(&cert[72..], &sig).is_ok());
        assert_eq!(&cert[72..104], &params.resolver_pk[..]);
        assert_eq!(&cert[104..112], &params.resolver_pk[..8]);
        pos += 13 + 124;
    }
    assert_eq!(pos, resp.len());
}

#[test]
fn other_queries_get_no_certificate() {
    let provider = SignKeyPair::from_seed(&[1u8; 32]);
    let set = vec![DNSCryptEncryptionParams::from_keys(&provider, &[2u8; 32], 1_000_000)];
    let name = encode_name(b"2.dnscrypt-cert.example.com").unwrap();
    let mut q = txt_query(&name);
    let n = q.len();
    q[n - 3] = 1;
    assert_eq!(serve_certificates(&q, &name, &set), None);
    let other = encode_name(b"example.com").unwrap();
    assert_eq!(serve_certificates(&txt_query(&other), &name, &set), None);
}

#[test]
fn validity_window_and_serial() {
    let provider = SignKeyPair::from_seed(&[1u8; 32]);
    let p = DNSCryptEncryptionParams::from_keys(&provider, &[2u8; 32], 1_000_000);
    assert_eq!(p.serial, 1_000_000);
    assert_eq!(p.ts_start, 1_000_000 - 3600);
    assert_eq!(p.ts_end, 1_000_000 + 86400);
    assert_eq!(&p.cert[112..116], &1_000_000u32.to_be_bytes());
    assert_eq!(&p.cert[116..120], &(1_000_000u32 - 3600).to_be_bytes());
    let early = DNSCryptEncryptionParams::from_keys(&provider, &[2u8; 32], 10);
    assert_eq!(early.ts_start, 0);
}

#[test]
fn rotation_keeps_valid_params_and_adds_the_newest() {
    let provider = SignKeyPair::from_seed(&[1u8; 32]);
    let old = DNSCryptEncryptionParams::from_keys(&provider, &[2u8; 32], 1_000);
    let live = DNSCryptEncryptionParams::from_keys(&provider, &[3u8; 32], 100_000);
    let fresh = DNSCryptEncryptionParams::from_keys(&provider, &[4u8; 32], 120_000);
    let fresh_pk = fresh.resolver_pk.clone();
    let live_pk = live.resolver_pk.clone();
    let set = rotate(vec![old, live], fresh, 120_000);
    assert_eq!(set.len(), 2);
    assert_eq!(set[0].resolver_pk, live_pk);
    assert_eq!(set[1].resolver_pk, fresh_pk);
    let again = DNSCryptEncryptionParams::from_keys(&provider, &[5u8; 32], 500_000);
    let set = rotate(set, again, 500_000);
    assert_eq!(set.len(), 1);
}

#[test]
fn new_state_has_one_signed_params() {
    let s = State::new(1_000_000);
    assert_eq!(s.dnscrypt_encryption_params_set.len(), 1);
    assert_eq!(s.provider_kp.pk.len(), 32);
    assert_eq!(s.provider_kp.sk.len(), 64);
    assert_eq!(&s.provider_kp.sk[32..], &s.provider_kp.pk[..]);
    let a = SignKeyPair::new();
    let b = SignKeyPair::new();
    assert_ne!(a.pk, b.pk);
}
