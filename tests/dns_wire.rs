use encrypted_dns::dns::{
    is_response, is_truncated, qdcount, qname, qname_eq, serve_truncated, set_edns_max_payload_size,
    set_tid, tid, DNS_HEADER_SIZE,
};
use encrypted_dns::errors::Error;

fn query(name: &[&str], qtype: u16) -> Vec<u8> {
    let mut p = vec![0x12, 0x34, 0x01, 0x00, 0, 1, 0, 0, 0, 0, 0, 0];
    for label in name {
        p.push(label.len() as u8);
        p.extend_from_slice(label.as_bytes());
    }
    p.push(0);
    p.push((qtype >> 8) as u8);
    p.push(qtype as u8);
    p.extend_from_slice(&[0, 1]);
    p
}

#[test]
fn header_fields() {
    let mut q = query(&["example", "com"], 1);
    assert_eq!(tid(&q), 0x1234);
    assert_eq!(qdcount(&q), 1);
    assert!(!is_response(&q));
    assert!(!is_truncated(&q));
    set_tid(&mut q, 0xbeef);
    assert_eq!(&q[..2], &[0xbe, 0xef]);
    assert_eq!(tid(&q), 0xbeef);
}

#[test]
fn qname_decoding() {
    let q = query(&["example", "com"], 1);
    let n = qname(&q).unwrap();
    assert_eq!(n, b"\x07example\x03com\x00".to_vec());
    let mut ptr = q[..DNS_HEADER_SIZE].to_vec();
    ptr.extend_from_slice(&[0xc0, 0x0c, 0, 1, 0, 1]);
    assert_eq!(qname(&ptr), Err(Error::MalformedDns));
    let short = q[..15].to_vec();
    assert_eq!(qname(&short), Err(Error::MalformedDns));
}

#[test]
fn qname_comparison_ignores_case() {
    assert!(qname_eq(b"\x07ExAmple\x03COM\x00", b"\x07example\x03com\x00"));
    assert!(!qname_eq(b"\x07example\x03org\x00", b"\x07example\x03com\x00"));
    assert!(!qname_eq(b"\x03com\x00", b"\x07example\x03com\x00"));
}

#[test]
fn truncated_response_flags_and_counts() {
    let mut q = query(&["example", "com"], 1);
    q[11] = 1;
    q.extend_from_slice(&[0, 0, 41, 0x10, 0, 0, 0, 0, 0, 0, 0]);
    let t = serve_truncated(&q).unwrap();
    assert!(is_response(&t));
    assert!(is_truncated(&t));
    assert_eq!(qdcount(&t), 1);
    assert_eq!(&t[6..12], &[0, 0, 0, 0, 0, 0]);
    assert_eq!(t.len(), 12 + 13 + 4);
    assert_eq!(&t[12..], &q[12..29]);
    assert_eq!(tid(&t), 0x1234);
}

#[test]
fn truncated_response_needs_one_question() {
    let mut q = query(&["example", "com"], 1);
    q[5] = 2;
    assert_eq!(serve_truncated(&q), Err(Error::MalformedDns));
    assert_eq!(serve_truncated(&q[..8]), Err(Error::MalformedDns));
}

#[test]
fn edns_appended_when_missing() {
    let q = query(&["example", "com"], 1);
    let mut p = q.clone();
    set_edns_max_payload_size(&mut p, 4096).unwrap();
    assert_eq!(p.len(), q.len() + 11);
    assert_eq!(&p[10..12], &[0, 1]);
    assert_eq!(&p[q.len()..], &[0, 0, 41, 0x10, 0x00, 0, 0, 0, 0, 0, 0]);
}

#[test]
fn edns_existing_record_rewritten() {
    let mut q = query(&["example", "com"], 1);
    q[11] = 1;
    q.extend_from_slice(&[0, 0, 41, 0x02, 0x00, 0, 0, 0x80, 0, 0, 0]);
    let mut p = q.clone();
    set_edns_max_payload_size(&mut p, 4096).unwrap();
    assert_eq!(p.len(), q.len());
    assert_eq!(&p[q.len() - 8..q.len() - 6], &[0x10, 0x00]);
    assert_eq!(&p[..q.len() - 8], &q[..q.len() - 8]);
}

#[test]
fn edns_rewrite_is_idempotent() {
    let q = query(&["example", "com"], 1);
    let mut once = q.clone();
    set_edns_max_payload_size(&mut once, 4096).unwrap();
    let mut twice = once.clone();
    set_edns_max_payload_size(&mut twice, 4096).unwrap();
    assert_eq!(once, twice);
}

#[test]
fn edns_rejects_trailing_garbage() {
    let mut q = query(&["example", "com"], 1);
    q.push(0xff);
    let before = q.clone();
    assert_eq!(set_edns_max_payload_size(&mut q, 4096), Err(Error::MalformedDns));
    assert_eq!(q, before);
}
