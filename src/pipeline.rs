//! The decisions of the query pipeline and of the transport acceptors. The
//! application performs the I/O between them.
use vstd::prelude::*;

use crate::bytes::append_bytes;
use crate::certs::{cert_response, is_cert_query, serve_certificates, DNSCryptEncryptionParams};
use crate::crypto::{box_seal_of, random_bytes};
use crate::dns::{
    be16_bytes, edns_rewrite, is_response, names_match, qdcount, qname, qname_eq, serve_truncated,
    set_edns_max_payload_size, set_tid, spec_is_response, spec_qdcount, spec_qname, spec_tid, tid,
    truncated_response, DNS_HEADER_SIZE, DNS_MAX_PACKET_SIZE,
};
use crate::dnscrypt::{
    decrypt, decrypt_query, encrypt, fits, open_response, pad, resolver_magic, response_len, SharedKey,
    DNSCRYPT_RESPONSE_MIN_OVERHEAD, DNSCRYPT_TCP_QUERY_MAX_SIZE, DNSCRYPT_TCP_RESPONSE_MAX_SIZE,
    DNSCRYPT_UDP_RESPONSE_MAX_SIZE,
};
use crate::errors::Error;

verus! {

/// The transport a query arrived on.
#[derive(PartialEq, Eq, Structural, Debug, Clone, Copy)]
pub enum Transport {
    Udp,
    Tcp,
}

/// What an incoming client message turned out to be.
pub enum ClientQuery {
    /// A DNSCrypt query: the session key, the response nonce and the DNS query.
    Encrypted { shared_key: SharedKey, nonce: Vec<u8>, query: Vec<u8> },
    /// A plaintext certificate request, and the response to send as is.
    Certificate { response: Vec<u8> },
}

/// A DNS query that can be forwarded: a single question, with a name that
/// holds no compression pointer, and the response bit clear.
pub open spec fn forwardable(q: Seq<u8>) -> bool {
    &&& q.len() >= DNS_HEADER_SIZE
    &&& spec_qdcount(q) == 1
    &&& !spec_is_response(q)
    &&& spec_qname(q) is Some
}

/// Decrypts an incoming message and checks the query inside it; a message
/// that cannot be decrypted is answered when it is a certificate request for
/// the provider name `provider` (encoded).
pub fn classify_query(encrypted: &[u8], set: &[DNSCryptEncryptionParams], provider: &[u8]) -> (r: Result<ClientQuery, Error>)
    requires
        set@.len() <= 0xffff,
        forall|i: int| 0 <= i < set@.len() ==> (#[trigger] set@[i]).wf(),
    ensures
        decrypt_query(encrypted@, set@) matches Some((sk, q)) ==> match r {
            Ok(ClientQuery::Encrypted { shared_key, nonce, query }) => forwardable(q) && query@ == q
                && shared_key.wf() && shared_key.resolver_sk@ == sk
                && shared_key.client_pk@ == encrypted@.subrange(8, 40)
                && nonce@.len() == 24 && nonce@.subrange(0, 12) == encrypted@.subrange(40, 52),
            Ok(ClientQuery::Certificate { .. }) => false,
            Err(e) => e == Error::MalformedDns && !forwardable(q),
        },
        decrypt_query(encrypted@, set@) is None ==> match r {
            Ok(ClientQuery::Certificate { response }) => is_cert_query(encrypted@, provider@)
                && response@ == cert_response(encrypted@, set@),
            Ok(ClientQuery::Encrypted { .. }) => false,
            Err(e) => e == Error::UnencryptedQuery && !is_cert_query(encrypted@, provider@),
        },
{
    match decrypt(encrypted, set) {
        Err(_) => match serve_certificates(encrypted, provider, set) {
            Some(response) => Ok(ClientQuery::Certificate { response }),
            None => Err(Error::UnencryptedQuery),
        },
        Ok((shared_key, nonce, query)) => {
            if query.len() < DNS_HEADER_SIZE || qdcount(query.as_slice()) != 1 || is_response(query.as_slice()) {
                return Err(Error::MalformedDns);
            }
            match qname(query.as_slice()) {
                Err(e) => Err(e),
                Ok(_) => Ok(ClientQuery::Encrypted { shared_key, nonce, query }),
            }
        },
    }
}

/// The query with transaction ID `t`.
pub open spec fn with_tid(q: Seq<u8>, t: u16) -> Seq<u8> {
    q.update(0, (t / 256) as u8).update(1, (t % 256) as u8)
}

/// A query ready for the upstream resolver.
pub struct UpstreamQuery {
    /// What is sent upstream.
    pub packet: Vec<u8>,
    /// The client's transaction ID, restored in the response.
    pub original_tid: u16,
    /// The fresh transaction ID that the upstream response must carry.
    pub tid: u16,
}

/// Replaces the transaction ID with a fresh random one and advertises the
/// largest DNS packet size in EDNS.
pub fn prepare_upstream_query(query: Vec<u8>) -> (r: Result<UpstreamQuery, Error>)
    requires
        forwardable(query@),
    ensures
        match r {
            Ok(u) => u.original_tid as int == spec_tid(query@)
                && edns_rewrite(with_tid(query@, u.tid), DNS_MAX_PACKET_SIZE as u16) == Some(u.packet@),
            Err(e) => e == Error::MalformedDns,
        },
        forall|t: u16| edns_rewrite(#[trigger] with_tid(query@, t), DNS_MAX_PACKET_SIZE as u16) is Some ==> r is Ok,
{
    let original_tid = tid(query.as_slice());
    let rnd = random_bytes(2);
    let new_tid = rnd[0] as u16 * 256 + rnd[1] as u16;
    let mut packet = query;
    set_tid(&mut packet, new_tid);
    proof {
        assert(packet@ == with_tid(query@, new_tid));
        assert forall|t: u16| edns_rewrite(#[trigger] with_tid(query@, t), DNS_MAX_PACKET_SIZE as u16) is Some
            implies edns_rewrite(with_tid(query@, new_tid), DNS_MAX_PACKET_SIZE as u16) is Some by {
            lemma_tid_irrelevant(query@, t, new_tid);
        }
    }
    match set_edns_max_payload_size(&mut packet, DNS_MAX_PACKET_SIZE as u16) {
        Ok(()) => Ok(UpstreamQuery { packet, original_tid, tid: new_tid }),
        Err(e) => Err(e),
    }
}

proof fn lemma_tid_irrelevant(q: Seq<u8>, a: u16, b: u16)
    requires
        q.len() >= DNS_HEADER_SIZE,
    ensures
        edns_rewrite(with_tid(q, a), DNS_MAX_PACKET_SIZE as u16) is Some
            <==> edns_rewrite(with_tid(q, b), DNS_MAX_PACKET_SIZE as u16) is Some,
{
    let p = with_tid(q, a);
    let r = with_tid(q, b);
    assert forall|i: int| 2 <= i < p.len() implies p[i] == r[i] by {}
    crate::dns::lemma_layout_ignores_tid(p, r);
}

/// An upstream response that answers the forwarded query: from the upstream
/// address, at least a header long, with the forwarded transaction ID and
/// the forwarded question name (ignoring case).
pub open spec fn answers(response: Seq<u8>, from_upstream: bool, tid: u16, sent: Seq<u8>) -> bool {
    &&& from_upstream
    &&& response.len() >= DNS_HEADER_SIZE
    &&& spec_tid(response) == tid as int
    &&& spec_qname(sent) matches Some(a)
    &&& spec_qname(response) matches Some(b)
    &&& names_match(a, b)
}

/// Whether a datagram received while waiting for the upstream answer is
/// that answer; anything else is ignored and the wait goes on.
pub fn accept_upstream_response(response: &[u8], from_upstream: bool, tid_sent: u16, sent: &[u8]) -> (r: bool)
    ensures
        r == answers(response@, from_upstream, tid_sent, sent@),
{
    if !from_upstream || response.len() < DNS_HEADER_SIZE || tid(response) != tid_sent {
        return false;
    }
    let a = match qname(sent) {
        Ok(a) => a,
        Err(_) => return false,
    };
    let b = match qname(response) {
        Ok(b) => b,
        Err(_) => return false,
    };
    qname_eq(a.as_slice(), b.as_slice())
}

/// Checks the length prefix of a response read over TCP from upstream.
pub fn check_upstream_tcp_len(len: usize) -> (r: Result<(), Error>)
    ensures
        r is Ok <==> DNS_HEADER_SIZE <= len <= DNS_MAX_PACKET_SIZE,
        r matches Err(e) ==> e == Error::UpstreamSizeInvalid,
{
    if len < DNS_HEADER_SIZE || len > DNS_MAX_PACKET_SIZE {
        Err(Error::UpstreamSizeInvalid)
    } else {
        Ok(())
    }
}

/// The largest response a client may receive: the size of its query over
/// UDP (never above the UDP maximum), the TCP maximum over TCP.
pub open spec fn max_response_spec(transport: Transport, original_size: usize) -> int {
    match transport {
        Transport::Udp => if original_size <= DNSCRYPT_UDP_RESPONSE_MAX_SIZE {
            original_size as int
        } else {
            DNSCRYPT_UDP_RESPONSE_MAX_SIZE as int
        },
        Transport::Tcp => DNSCRYPT_TCP_RESPONSE_MAX_SIZE as int,
    }
}

pub fn max_response_size(transport: Transport, original_size: usize) -> (r: usize)
    ensures
        r as int == max_response_spec(transport, original_size),
{
    match transport {
        Transport::Udp => if original_size <= DNSCRYPT_UDP_RESPONSE_MAX_SIZE {
            original_size
        } else {
            DNSCRYPT_UDP_RESPONSE_MAX_SIZE
        },
        Transport::Tcp => DNSCRYPT_TCP_RESPONSE_MAX_SIZE,
    }
}

/// Over UDP, a response that cannot fit under the client's limit once
/// `overhead` bytes are added is replaced by a truncated one.
pub open spec fn must_truncate(transport: Transport, len: int, overhead: int, original_size: usize) -> bool {
    transport == Transport::Udp && len + overhead > max_response_spec(transport, original_size)
}

/// Replaces a UDP response too large for the client by a truncated response
/// to the client's query, so that the client retries over TCP.
pub fn maybe_truncate_response(
    transport: Transport,
    packet: &[u8],
    response: Vec<u8>,
    original_packet_size: usize,
) -> (r: Result<Vec<u8>, Error>)
    ensures
        must_truncate(transport, response@.len() as int, DNSCRYPT_RESPONSE_MIN_OVERHEAD as int, original_packet_size)
            ==> match r {
            Ok(t) => truncated_response(packet@) == Some(t@),
            Err(e) => e == Error::MalformedDns && truncated_response(packet@) is None,
        },
        !must_truncate(transport, response@.len() as int, DNSCRYPT_RESPONSE_MIN_OVERHEAD as int, original_packet_size)
            ==> (r matches Ok(t) && t@ == response@),
{
    let max = max_response_size(transport, original_packet_size);
    if transport == Transport::Udp && (response.len() >= max || max - response.len() < DNSCRYPT_RESPONSE_MIN_OVERHEAD) {
        return serve_truncated(packet);
    }
    Ok(response)
}

/// What is encrypted for the client: the response, or the truncated
/// response to `packet` where the response would not fit.
pub open spec fn body_spec(transport: Transport, packet: Seq<u8>, response: Seq<u8>, original_size: usize) -> Option<Seq<u8>> {
    if must_truncate(transport, response.len() as int, DNSCRYPT_RESPONSE_MIN_OVERHEAD as int, original_size) {
        truncated_response(packet)
    } else {
        Some(response)
    }
}

/// Builds the bytes sent to the client for `response`: encrypted for the
/// session when `session` holds its key and nonce, as is for a certificate
/// response. Over UDP a response that would exceed the client's limit is
/// replaced by a truncated one; nothing sent is ever larger than the
/// transport's limit.
pub fn build_response(
    transport: Transport,
    packet: &[u8],
    response: Vec<u8>,
    original_packet_size: usize,
    session: Option<(&SharedKey, &[u8])>,
) -> (r: Result<Vec<u8>, Error>)
    requires
        session matches Some((k, n)) ==> k.wf() && n@.len() == 24,
    ensures
        r matches Ok(out) ==> out@.len() <= max_response_spec(transport, original_packet_size),
        response@.len() < DNS_HEADER_SIZE || !spec_is_response(response@) ==> r == Err::<Vec<u8>, Error>(Error::MalformedDns),
        response@.len() >= DNS_HEADER_SIZE && spec_is_response(response@) ==> match session {
            None => if must_truncate(transport, response@.len() as int, 0, original_packet_size) {
                match r {
                    Ok(out) => truncated_response(packet@) == Some(out@),
                    Err(e) => (e == Error::MalformedDns && truncated_response(packet@) is None)
                        || (e == Error::TooLarge && (truncated_response(packet@) matches Some(t)
                            && t.len() > max_response_spec(transport, original_packet_size))),
                }
            } else if response@.len() > max_response_spec(transport, original_packet_size) {
                r == Err::<Vec<u8>, Error>(Error::TooLarge)
            } else {
                (r matches Ok(out) && out@ == response@)
            },
            Some((k, n)) => match body_spec(transport, packet@, response@, original_packet_size) {
                None => r == Err::<Vec<u8>, Error>(Error::MalformedDns),
                Some(body) => {
                    let max = max_response_spec(transport, original_packet_size);
                    match r {
                        Ok(out) => fits(body.len() as int, max)
                            && out@.len() == response_len(body.len() as int, max)
                            && out@ == resolver_magic() + n@ + box_seal_of(
                                k.client_pk@,
                                k.resolver_sk@,
                                n@,
                                pad(body, (out@.len() - DNSCRYPT_RESPONSE_MIN_OVERHEAD - body.len() - 1) as nat),
                            )
                            && open_response(out@, k.client_pk@, k.resolver_sk@) == Some(body),
                        Err(e) => e == Error::TooLarge && !fits(body.len() as int, max),
                    }
                },
            },
        },
{
    if response.len() < DNS_HEADER_SIZE || !is_response(response.as_slice()) {
        return Err(Error::MalformedDns);
    }
    let max = max_response_size(transport, original_packet_size);
    match session {
        None => {
            if transport == Transport::Udp && response.len() > max {
                let t = serve_truncated(packet)?;
                if t.len() > max {
                    return Err(Error::TooLarge);
                }
                return Ok(t);
            }
            if response.len() > max {
                return Err(Error::TooLarge);
            }
            Ok(response)
        },
        Some((key, nonce)) => {
            let body = maybe_truncate_response(transport, packet, response, original_packet_size)?;
            encrypt(body.as_slice(), key, nonce, max)
        },
    }
}

/// A message framed for TCP: its length as two big-endian bytes, then the
/// message.
pub fn frame_tcp(payload: &[u8]) -> (r: Vec<u8>)
    requires
        payload@.len() <= 0xffff,
    ensures
        r@ == be16_bytes(payload@.len() as int) + payload@,
{
    let len = payload.len();
    let mut out: Vec<u8> = vec![(len / 256) as u8, (len % 256) as u8];
    append_bytes(&mut out, payload);
    out
}

/// How a TCP connection starts.
#[derive(PartialEq, Eq, Structural, Debug, Clone, Copy)]
pub enum TcpStart {
    /// A TLS handshake record: the connection is handed to the TLS upstream.
    Tls,
    /// A DNSCrypt query of this many bytes follows.
    Query(usize),
    /// A length outside the accepted range: the connection is dropped.
    Invalid,
}

/// Classifies the first two bytes read from a TCP client.
pub fn classify_tcp_start(b0: u8, b1: u8) -> (r: TcpStart)
    ensures
        b0 == 0x16 && b1 == 0x03 ==> r == TcpStart::Tls,
        !(b0 == 0x16 && b1 == 0x03) ==> {
            let len = b0 as int * 256 + b1 as int;
            if DNS_HEADER_SIZE <= len <= DNSCRYPT_TCP_QUERY_MAX_SIZE {
                r == TcpStart::Query(len as usize)
            } else {
                r == TcpStart::Invalid
            }
        },
{
    if b0 == 0x16 && b1 == 0x03 {
        return TcpStart::Tls;
    }
    let len = b0 as usize * 256 + b1 as usize;
    if DNS_HEADER_SIZE <= len && len <= DNSCRYPT_TCP_QUERY_MAX_SIZE {
        TcpStart::Query(len)
    } else {
        TcpStart::Invalid
    }
}

/// Whether a UDP datagram of `len` bytes is handed to the pipeline; shorter
/// than a DNS header, it is dropped.
pub fn accept_udp_datagram(len: usize) -> (r: bool)
    ensures
        r == (len >= DNS_HEADER_SIZE),
{
    len >= DNS_HEADER_SIZE
}

} // verus!
