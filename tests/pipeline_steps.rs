use crypto_box::aead::Aead;
use encrypted_dns::certs::{encode_name, DNSCryptEncryptionParams};
use encrypted_dns::pipeline::{classify_query, ClientQuery};
use encrypted_dns::state::SignKeyPair;
use encrypted_dns::dns::{is_response, is_truncated, qdcount, tid};
use encrypted_dns::dnscrypt::SharedKey;
use encrypted_dns::errors::Error;
use encrypted_dns::pipeline::{
    accept_udp_datagram, accept_upstream_response, build_response, check_upstream_tcp_len, classify_tcp_start,
    frame_tcp, maybe_truncate_response, max_response_size, prepare_upstream_query, TcpStart, Transport,
};

fn query() -> Vec<u8> {
    let mut p = vec![0x12, 0x34, 0x01, 0x00, 0, 1, 0, 0, 0, 0, 0, 0];
    p.extend_from_slice(b"\x07example\x03com\x00\x00\x01\x00\x01");
    p
}

fn answer(q: &[u8], len: usize) -> Vec<u8> {
    let mut a = q.to_vec();
    a[2] |= 0x80;
    a.resize(len, 0);
    a
}

#[test]
fn upstream_query_gets_fresh_tid_and_edns() {
    let q = query();
    let u = prepare_upstream_query(q.clone()).unwrap();
    assert_eq!(u.original_tid, 0x1234);
    assert_eq!(tid(&u.packet), u.tid);
    assert_eq!(u.packet.len(), q.len() + 11);
    assert_eq!(&u.packet[2..10], &q[2..10]);
    assert_eq!(&u.packet[q.len()..q.len() + 5], &[0, 0, 41, 0x10, 0x00]);
}

#[test]
fn spoofed_upstream_datagram_is_ignored() {
    let sent = query();
    let mut spoofed = answer(&sent, 40);
    spoofed[0] = 0x99;
    let legit = answer(&sent, 40);
    assert!(!accept_upstream_response(&spoofed, true, 0x1234, &sent));
    assert!(accept_upstream_response(&legit, true, 0x1234, &sent));
    assert!(!accept_upstream_response(&legit, false, 0x1234, &sent));
    let mut other = legit.clone();
    other[13] = b'x';
    assert!(!accept_upstream_response(&other, true, 0x1234, &sent));
    let mut upper = legit.clone();
    upper[13] = b'E';
    assert!(accept_upstream_response(&upper, true, 0x1234, &sent));
    assert!(!accept_upstream_response(&legit[..8], true, 0x1234, &sent));
}

#[test]
fn upstream_tcp_length_range() {
    assert_eq!(check_upstream_tcp_len(11), Err(Error::UpstreamSizeInvalid));
    assert_eq!(check_upstream_tcp_len(12), Ok(()));
    assert_eq!(check_upstream_tcp_len(4096), Ok(()));
    assert_eq!(check_upstream_tcp_len(4097), Err(Error::UpstreamSizeInvalid));
}

#[test]
fn tls_handshake_is_detected() {
    assert_eq!(classify_tcp_start(0x16, 0x03), TcpStart::Tls);
    assert_eq!(classify_tcp_start(0x01, 0x00), TcpStart::Query(256));
    assert_eq!(classify_tcp_start(0x00, 0x0b), TcpStart::Invalid);
    assert_eq!(classify_tcp_start(0x05, 0xdd), TcpStart::Invalid);
    assert_eq!(classify_tcp_start(0x05, 0xdc), TcpStart::Query(1500));
}

#[test]
fn short_datagrams_are_dropped() {
    assert!(!accept_udp_datagram(11));
    assert!(accept_udp_datagram(12));
}

#[test]
fn tcp_framing() {
    assert_eq!(frame_tcp(&[1, 2, 3]), vec![0, 3, 1, 2, 3]);
    assert_eq!(frame_tcp(&vec![0u8; 300])[..2], [1, 44]);
}

#[test]
fn response_limits() {
    assert_eq!(max_response_size(Transport::Udp, 300), 300);
    assert_eq!(max_response_size(Transport::Udp, 5000), 4096);
    assert_eq!(max_response_size(Transport::Tcp, 300), 4096);
}

#[test]
fn large_udp_answer_is_truncated() {
    let q = query();
    let big = answer(&q, 480);
    let t = maybe_truncate_response(Transport::Udp, &q, big.clone(), 512).unwrap();
    assert!(is_truncated(&t));
    assert!(is_response(&t));
    assert_eq!(qdcount(&t), 1);
    let kept = maybe_truncate_response(Transport::Tcp, &q, big.clone(), 512).unwrap();
    assert_eq!(kept, big);
    let small = answer(&q, 100);
    assert_eq!(maybe_truncate_response(Transport::Udp, &q, small.clone(), 512).unwrap(), small);
}

#[test]
fn udp_fallback_answer_fits_the_query_size() {
    let q = query();
    let key = SharedKey { client_pk: vec![1u8; 32], resolver_sk: vec![2u8; 32] };
    let nonce = vec![4u8; 24];
    let big = answer(&q, 1200);
    let out = build_response(Transport::Udp, &q, big.clone(), 512, Some((&key, &nonce))).unwrap();
    assert!(out.len() <= 512);
    assert_eq!(out.len(), 128);
    let out = build_response(Transport::Tcp, &q, big, 512, Some((&key, &nonce))).unwrap();
    assert!(out.len() <= 4096);
    assert_eq!(out.len(), 1280);
}

#[test]
fn plaintext_responses() {
    let q = query();
    let a = answer(&q, 100);
    assert_eq!(build_response(Transport::Udp, &q, a.clone(), 300, None).unwrap(), a);
    let t = build_response(Transport::Udp, &q, answer(&q, 400), 300, None).unwrap();
    assert!(is_truncated(&t));
    assert_eq!(build_response(Transport::Tcp, &q, answer(&q, 5000), 300, None), Err(Error::TooLarge));
    assert_eq!(build_response(Transport::Udp, &q, q.clone(), 300, None), Err(Error::MalformedDns));
}

fn encrypted_query(
    p: &DNSCryptEncryptionParams,
    client_sk: [u8; 32],
    dns: &[u8],
) -> Vec<u8> {
    let sk = crypto_box::SecretKey::from(client_sk);
    let pk = sk.public_key();
    let resolver_pk: [u8; 32] = p.resolver_pk.clone().try_into().unwrap();
    let b = crypto_box::SalsaBox::new(&crypto_box::PublicKey::from(resolver_pk), &sk);
    let nonce = [6u8; 24];
    let mut padded = dns.to_vec();
    padded.push(0x80);
    padded.resize(256 - 68, 0);
    let mut n = nonce;
    n[12..].copy_from_slice(&[0u8; 12]);
    let ct = b.encrypt(crypto_box::Nonce::from_slice(&n), &padded[..]).unwrap();
    let mut out = p.client_magic.clone();
    out.extend_from_slice(pk.as_bytes());
    out.extend_from_slice(&n[..12]);
    out.extend_from_slice(&ct);
    out
}

#[test]
fn classify_encrypted_certificate_and_plain_queries() {
    let provider = SignKeyPair::from_seed(&[1u8; 32]);
    let set = vec![DNSCryptEncryptionParams::from_keys(&provider, &[2u8; 32], 1_000_000)];
    let name = encode_name(b"2.dnscrypt-cert.example.com").unwrap();

    let q = encrypted_query(&set[0], [8u8; 32], &query());
    assert_eq!(q.len(), 256);
    match classify_query(&q, &set, &name) {
        Ok(ClientQuery::Encrypted { query: inner, nonce, shared_key }) => {
            assert_eq!(inner, query());
            assert_eq!(&nonce[..12], &[6u8; 12]);
            assert_eq!(shared_key.client_pk, q[8..40].to_vec());
        }
        _ => panic!("expected an encrypted query"),
    }

    let mut answer_inside = query();
    answer_inside[2] |= 0x80;
    let q = encrypted_query(&set[0], [8u8; 32], &answer_inside);
    assert!(matches!(classify_query(&q, &set, &name), Err(Error::MalformedDns)));

    let mut cert_q = vec![0x55, 0x66, 0x01, 0x00, 0, 1, 0, 0, 0, 0, 0, 0];
    cert_q.extend_from_slice(&name);
    cert_q.extend_from_slice(&[0, 16, 0, 1]);
    assert!(matches!(classify_query(&cert_q, &set, &name), Ok(ClientQuery::Certificate { .. })));

    assert!(matches!(classify_query(&query(), &set, &name), Err(Error::UnencryptedQuery)));
}
