use crypto_box::aead::Aead;
use crypto_box::{PublicKey, SalsaBox, SecretKey};
use encrypted_dns::certs::DNSCryptEncryptionParams;
use encrypted_dns::dnscrypt::{add_padding, decrypt, encrypt, strip_padding, SharedKey};
use encrypted_dns::errors::Error;
use encrypted_dns::state::SignKeyPair;

fn dns_query() -> Vec<u8> {
    let mut p = vec![0xab, 0xcd, 0x01, 0x00, 0, 1, 0, 0, 0, 0, 0, 0];
    p.extend_from_slice(b"\x07example\x03com\x00\x00\x01\x00\x01");
    p
}

fn params() -> DNSCryptEncryptionParams {
    let provider = SignKeyPair::from_seed(&[7u8; 32]);
    DNSCryptEncryptionParams::from_keys(&provider, &[9u8; 32], 1_700_000_000)
}

/// A client-side DNSCrypt query padded to `total` bytes.
fn client_query(p: &DNSCryptEncryptionParams, client_sk: [u8; 32], nonce: [u8; 12], dns: &[u8], total: usize) -> Vec<u8> {
    let sk = SecretKey::from(client_sk);
    let pk = sk.public_key();
    let resolver_pk: [u8; 32] = p.resolver_pk.clone().try_into().unwrap();
    let b = SalsaBox::new(&PublicKey::from(resolver_pk), &sk);
    let mut full_nonce = [0u8; 24];
    full_nonce[..12].copy_from_slice(&nonce);
    let padded = add_padding(dns, total - 8 - 32 - 12 - 16 - dns.len() - 1);
    let ct = b.encrypt(crypto_box::Nonce::from_slice(&full_nonce), &padded[..]).unwrap();
    let mut out = p.client_magic.clone();
    out.extend_from_slice(pk.as_bytes());
    out.extend_from_slice(&nonce);
    out.extend_from_slice(&ct);
    out
}

#[test]
fn padding_round_trip() {
    let msg = b"hello".to_vec();
    for k in [0usize, 1, 10, 63] {
        let padded = add_padding(&msg, k);
        assert_eq!(padded.len(), msg.len() + 1 + k);
        assert_eq!(padded[msg.len()], 0x80);
        assert_eq!(strip_padding(&padded).unwrap(), msg);
    }
}

#[test]
fn padding_without_marker_is_rejected() {
    assert_eq!(strip_padding(&[1, 2, 0, 0]), Err(Error::BadPadding));
    assert_eq!(strip_padding(&[]), Err(Error::BadPadding));
    assert_eq!(strip_padding(&[0x80, 0x80, 0]).unwrap(), vec![0x80]);
}

#[test]
fn udp_query_decrypts_and_response_reaches_client() {
    let p = params();
    let client_sk = [3u8; 32];
    let nonce = [5u8; 12];
    let dns = dns_query();
    let q = client_query(&p, client_sk, nonce, &dns, 300);
    assert_eq!(q.len(), 300);
    let (key, full_nonce, packet) = decrypt(&q, std::slice::from_ref(&p)).unwrap();
    assert_eq!(packet, dns);
    assert_eq!(&full_nonce[..12], &nonce);
    assert_eq!(full_nonce.len(), 24);

    let mut answer = dns.clone();
    answer[2] |= 0x80;
    answer.resize(60, 0);
    let resp = encrypt(&answer, &key, &full_nonce, 300).unwrap();
    assert_eq!(resp.len(), 128);
    assert_eq!(&resp[..8], b"r6fnvWj8");
    assert_eq!(&resp[8..32], &full_nonce[..]);

    let resolver_pk: [u8; 32] = p.resolver_pk.clone().try_into().unwrap();
    let b = SalsaBox::new(&PublicKey::from(resolver_pk), &SecretKey::from(client_sk));
    let padded = b.decrypt(crypto_box::Nonce::from_slice(&resp[8..32]), &resp[32..]).unwrap();
    let plain = strip_padding(&padded).unwrap();
    assert_eq!(plain, answer);
    assert_eq!(&plain[..2], &[0xab, 0xcd]);
}

#[test]
fn response_is_capped_by_the_limit() {
    let key = SharedKey { client_pk: vec![1u8; 32], resolver_sk: vec![2u8; 32] };
    let nonce = vec![0u8; 24];
    let r = encrypt(&[0u8; 200], &key, &nonce, 260).unwrap();
    assert_eq!(r.len(), 256);
    let r = encrypt(&[0u8; 200], &key, &nonce, 250).unwrap();
    assert_eq!(r.len(), 250);
    assert_eq!(encrypt(&[0u8; 202], &key, &nonce, 250), Err(Error::TooLarge));
}

#[test]
fn undecryptable_queries_are_rejected() {
    let p = params();
    let dns = dns_query();
    let mut q = client_query(&p, [3u8; 32], [5u8; 12], &dns, 256);
    q[100] ^= 1;
    assert!(matches!(decrypt(&q, std::slice::from_ref(&p)), Err(Error::Undecryptable)));
    let mut q = client_query(&p, [3u8; 32], [5u8; 12], &dns, 256);
    q[0] ^= 1;
    assert!(matches!(decrypt(&q, std::slice::from_ref(&p)), Err(Error::Undecryptable)));
    assert!(matches!(decrypt(&q[..70], std::slice::from_ref(&p)), Err(Error::Undecryptable)));
}
