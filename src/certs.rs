//! Short-term encryption parameters, their signed certificates, the
//! certificate TXT response and the rotation of the active set.
use vstd::prelude::*;
use vstd::slice::slice_to_vec;

use crate::bytes::{append_bytes, be32_bytes, copy_range, push_be32};
use crate::crypto::{ed25519_sign, ed25519_sign_of, random_bytes, x25519_public, x25519_public_of};
use crate::dns::{
    be16, be16_bytes, lemma_name_end_bounds, names_match, qdcount, qname, qname_eq, spec_qdcount, spec_qname,
    DNS_HEADER_SIZE, DNS_TYPE_TXT,
};
use crate::state::SignKeyPair;

verus! {

/// Size of a DNSCrypt v2 certificate.
pub const DNSCRYPT_CERT_SIZE: usize = 124;

/// How long a certificate stays valid after it is made, in seconds.
pub const DNSCRYPT_CERT_LIFETIME: u32 = 86400;

/// How far back a certificate's validity starts, in seconds, so that clients
/// with a slow clock accept it.
pub const DNSCRYPT_CERT_OVERLAP: u32 = 3600;

/// Time to live of the certificate TXT records, in seconds.
pub const DNSCRYPT_CERT_TTL: u32 = 3600;

/// The part of a certificate that the provider key signs.
pub open spec fn signed_part(pk: Seq<u8>, magic: Seq<u8>, serial: u32, ts_start: u32, ts_end: u32) -> Seq<u8> {
    pk + magic + be32_bytes(serial) + be32_bytes(ts_start) + be32_bytes(ts_end)
}

/// Certificate magic "DNSC", version 0x0001 (X25519-XSalsa20Poly1305),
/// protocol minor version 0.
pub open spec fn cert_header() -> Seq<u8> {
    seq![0x44u8, 0x4eu8, 0x53u8, 0x43u8, 0u8, 1u8, 0u8, 0u8]
}

/// A complete certificate signed with the provider seed `seed`.
pub open spec fn cert_bytes(seed: Seq<u8>, pk: Seq<u8>, magic: Seq<u8>, serial: u32, ts_start: u32, ts_end: u32) -> Seq<u8> {
    let body = signed_part(pk, magic, serial, ts_start, ts_end);
    cert_header() + ed25519_sign_of(seed, body) + body
}

pub open spec fn window_start(now: u32) -> u32 {
    if now >= DNSCRYPT_CERT_OVERLAP { (now - DNSCRYPT_CERT_OVERLAP) as u32 } else { 0 }
}

pub open spec fn window_end(now: u32) -> u32 {
    if now as int + DNSCRYPT_CERT_LIFETIME as int <= u32::MAX as int {
        (now + DNSCRYPT_CERT_LIFETIME) as u32
    } else {
        u32::MAX
    }
}

fn signed_body(pk: &[u8], magic: &[u8], serial: u32, ts_start: u32, ts_end: u32) -> (r: Vec<u8>)
    ensures
        r@ == signed_part(pk@, magic@, serial, ts_start, ts_end),
        r@.len() == pk@.len() + magic@.len() + 12,
{
    let mut body = slice_to_vec(pk);
    append_bytes(&mut body, magic);
    push_be32(&mut body, serial);
    push_be32(&mut body, ts_start);
    push_be32(&mut body, ts_end);
    assert(body@ =~= signed_part(pk@, magic@, serial, ts_start, ts_end));
    body
}

fn assemble_cert(sig: &[u8], body: &[u8]) -> (r: Vec<u8>)
    requires
        sig@.len() == 64,
        body@.len() == 52,
    ensures
        r@ == cert_header() + sig@ + body@,
        r@.len() == DNSCRYPT_CERT_SIZE,
        r@.subrange(0, 8) == cert_header(),
        r@.subrange(72, 124) == body@,
{
    let mut cert: Vec<u8> = vec![0x44, 0x4e, 0x53, 0x43, 0, 1, 0, 0];
    append_bytes(&mut cert, sig);
    append_bytes(&mut cert, body);
    assert(cert@ =~= cert_header() + sig@ + body@);
    assert(cert@.subrange(0, 8) =~= cert_header());
    assert(cert@.subrange(72, 124) =~= body@);
    cert
}

/// One resolver key pair with its signed certificate.
pub struct DNSCryptEncryptionParams {
    pub resolver_pk: Vec<u8>,
    pub resolver_sk: Vec<u8>,
    pub client_magic: Vec<u8>,
    pub serial: u32,
    pub ts_start: u32,
    pub ts_end: u32,
    pub cert: Vec<u8>,
}

impl DNSCryptEncryptionParams {
    pub open spec fn wf(&self) -> bool {
        &&& self.resolver_pk@.len() == 32
        &&& self.resolver_sk@.len() == 32
        &&& self.resolver_pk@ == x25519_public_of(self.resolver_sk@)
        &&& self.client_magic@ == self.resolver_pk@.subrange(0, 8)
        &&& self.cert@.len() == DNSCRYPT_CERT_SIZE
        &&& self.cert@.subrange(0, 8) == cert_header()
        &&& self.cert@.subrange(72, 124) == signed_part(
            self.resolver_pk@,
            self.client_magic@,
            self.serial,
            self.ts_start,
            self.ts_end,
        )
    }

    /// The certificate was signed with the provider seed `seed`.
    pub open spec fn signed_by(&self, seed: Seq<u8>) -> bool {
        self.cert@ == cert_bytes(
            seed,
            self.resolver_pk@,
            self.client_magic@,
            self.serial,
            self.ts_start,
            self.ts_end,
        )
    }

    /// The validity window of parameters made at `now`.
    pub open spec fn valid_from(&self, now: u32) -> bool {
        &&& self.serial == now
        &&& self.ts_start == window_start(now)
        &&& self.ts_end == window_end(now)
    }

    /// Parameters for the resolver secret key `resolver_sk`, made at `now`
    /// and certified by `provider_kp`.
    pub fn from_keys(provider_kp: &SignKeyPair, resolver_sk: &[u8], now: u32) -> (r: Self)
        requires
            provider_kp.wf(),
            resolver_sk@.len() == 32,
        ensures
            r.wf(),
            r.resolver_sk@ == resolver_sk@,
            r.signed_by(provider_kp.seed()),
            r.valid_from(now),
    {
        let resolver_pk = x25519_public(resolver_sk);
        let client_magic = copy_range(resolver_pk.as_slice(), 0, 8);
        let ts_start = if now >= DNSCRYPT_CERT_OVERLAP { now - DNSCRYPT_CERT_OVERLAP } else { 0 };
        let ts_end = if now <= u32::MAX - DNSCRYPT_CERT_LIFETIME { now + DNSCRYPT_CERT_LIFETIME } else { u32::MAX };
        let body = signed_body(resolver_pk.as_slice(), client_magic.as_slice(), now, ts_start, ts_end);
        let seed = copy_range(provider_kp.sk.as_slice(), 0, 32);
        let sig = ed25519_sign(seed.as_slice(), body.as_slice());
        let cert = assemble_cert(sig.as_slice(), body.as_slice());
        let rsk = copy_range(resolver_sk, 0, 32);
        assert(rsk@ =~= resolver_sk@);
        assert(ts_start == window_start(now) && ts_end == window_end(now));
        assert(seed@ == provider_kp.seed());
        DNSCryptEncryptionParams {
            resolver_pk,
            resolver_sk: rsk,
            client_magic,
            serial: now,
            ts_start,
            ts_end,
            cert,
        }
    }

    /// Parameters with a fresh random resolver key, made at `now` and
    /// certified by `provider_kp`.
    pub fn new(provider_kp: &SignKeyPair, now: u32) -> (r: Self)
        requires
            provider_kp.wf(),
        ensures
            r.wf(),
            r.signed_by(provider_kp.seed()),
            r.valid_from(now),
    {
        let sk = random_bytes(32);
        Self::from_keys(provider_kp, sk.as_slice(), now)
    }
}

/// Offset of the first dot at or after `i`, or the length of `s`.
pub open spec fn dot_or_end(s: Seq<u8>, i: int) -> int
    decreases s.len() - i,
{
    if i < 0 || i >= s.len() || s[i] == 0x2e {
        i
    } else {
        dot_or_end(s, i + 1)
    }
}

proof fn lemma_dot_or_end(s: Seq<u8>, i: int)
    requires
        0 <= i <= s.len(),
    ensures
        i <= dot_or_end(s, i) <= s.len(),
        forall|k: int| i <= k < dot_or_end(s, i) ==> s[k] != 0x2e,
    decreases s.len() - i,
{
    if i < s.len() && s[i] != 0x2e {
        lemma_dot_or_end(s, i + 1);
    }
}

/// Wire encoding of the dotted name `s` from offset `i` on: each label
/// prefixed by its length, then a zero byte. Empty or over-long labels are
/// refused; one trailing dot is allowed.
pub open spec fn encode_from(s: Seq<u8>, i: int) -> Option<Seq<u8>>
    decreases s.len() - i,
{
    if i < 0 || i >= s.len() {
        Some(seq![0u8])
    } else {
        let j = dot_or_end(s, i);
        if j <= i || j - i > 63 {
            None
        } else {
            let rest = if j >= s.len() { Some(seq![0u8]) } else { encode_from(s, j + 1) };
            match rest {
                None => None,
                Some(r) => {
                    let len = (j - i) as u8;
                    Some(seq![len] + s.subrange(i, j) + r)
                },
            }
        }
    }
}

fn encode_name_from(s: &[u8], i: usize) -> (r: Option<Vec<u8>>)
    requires
        i <= s@.len(),
    ensures
        match r {
            Some(v) => encode_from(s@, i as int) == Some(v@),
            None => encode_from(s@, i as int) is None,
        },
    decreases s@.len() - i,
{
    if i >= s.len() {
        return Some(vec![0u8]);
    }
    let mut j: usize = i;
    proof {
        lemma_dot_or_end(s@, i as int);
    }
    while j < s.len() && s[j] != 0x2e
        invariant
            i <= j <= s@.len(),
            dot_or_end(s@, j as int) == dot_or_end(s@, i as int),
        decreases s@.len() - j,
    {
        j += 1;
    }
    if j == i || j - i > 63 {
        return None;
    }
    let rest = if j >= s.len() {
        vec![0u8]
    } else {
        match encode_name_from(s, j + 1) {
            Some(r) => r,
            None => return None,
        }
    };
    let len = (j - i) as u8;
    let mut out: Vec<u8> = vec![len];
    append_bytes(&mut out, vstd::slice::slice_subrange(s, i, j));
    append_bytes(&mut out, rest.as_slice());
    Some(out)
}

/// Encodes a dotted name, such as the provider name, in DNS wire format.
pub fn encode_name(name: &[u8]) -> (r: Option<Vec<u8>>)
    ensures
        match r {
            Some(v) => encode_from(name@, 0) == Some(v@),
            None => encode_from(name@, 0) is None,
        },
{
    encode_name_from(name, 0)
}

/// The prefix that every DNSCrypt v2 provider name starts with.
pub open spec fn provider_prefix() -> Seq<u8> {
    seq![0x32u8, 0x2eu8, 0x64u8, 0x6eu8, 0x73u8, 0x63u8, 0x72u8, 0x79u8, 0x70u8, 0x74u8, 0x2eu8]
}

/// The provider name, prefixed with "2.dnscrypt." unless it already starts so.
pub fn provider_name(name: &[u8]) -> (r: Vec<u8>)
    ensures
        name@.len() >= 11 && name@.subrange(0, 11) == provider_prefix() ==> r@ == name@,
        !(name@.len() >= 11 && name@.subrange(0, 11) == provider_prefix()) ==> r@ == provider_prefix() + name@,
{
    let prefix: Vec<u8> = vec![0x32, 0x2e, 0x64, 0x6e, 0x73, 0x63, 0x72, 0x79, 0x70, 0x74, 0x2e];
    assert(prefix@ =~= provider_prefix());
    let mut has_prefix = name.len() >= 11;
    let mut k: usize = 0;
    while has_prefix && k < 11
        invariant
            k <= 11,
            prefix@ == provider_prefix(),
            has_prefix ==> name@.len() >= 11 && forall|m: int| 0 <= m < k ==> name@[m] == prefix@[m],
            !has_prefix ==> !(name@.len() >= 11 && name@.subrange(0, 11) == provider_prefix()),
        decreases 11 - k,
    {
        if name[k] != prefix[k] {
            has_prefix = false;
            assert(name@.subrange(0, 11)[k as int] != provider_prefix()[k as int]);
        }
        k += 1;
    }
    if has_prefix {
        assert(name@.subrange(0, 11) =~= provider_prefix());
        copy_range(name, 0, name.len())
    } else {
        let mut out = prefix;
        append_bytes(&mut out, name);
        out
    }
}

/// A plaintext query for the TXT records of the provider name, whose encoded
/// form is `name`.
pub open spec fn is_cert_query(q: Seq<u8>, name: Seq<u8>) -> bool {
    &&& q.len() >= DNS_HEADER_SIZE
    &&& spec_qdcount(q) == 1
    &&& spec_qname(q) matches Some(n)
    &&& names_match(n, name)
    &&& DNS_HEADER_SIZE + n.len() + 4 <= q.len()
    &&& be16(q, DNS_HEADER_SIZE + n.len()) == DNS_TYPE_TXT as int
}

/// One TXT record, named by a pointer to the question, holding a certificate
/// as a single character string.
pub open spec fn cert_rr(cert: Seq<u8>) -> Seq<u8> {
    seq![0xc0u8, 0x0cu8, 0u8, 16u8, 0u8, 1u8] + be32_bytes(DNSCRYPT_CERT_TTL) + be16_bytes(cert.len() as int + 1)
        + seq![cert.len() as u8] + cert
}

/// The TXT records of the first `n` parameters, in order.
pub open spec fn cert_rrs(set: Seq<DNSCryptEncryptionParams>, n: int) -> Seq<u8>
    decreases n,
{
    if n <= 0 {
        Seq::empty()
    } else {
        cert_rrs(set, n - 1) + cert_rr(set[n - 1].cert@)
    }
}

/// The certificate response: the query's header as a response with one
/// question and one answer per parameters, the question, then the records.
pub open spec fn cert_response(q: Seq<u8>, set: Seq<DNSCryptEncryptionParams>) -> Seq<u8> {
    let e = DNS_HEADER_SIZE + spec_qname(q)->Some_0.len() + 4;
    seq![q[0], q[1], q[2] | 0x80u8, 0u8, 0u8, 1u8] + be16_bytes(set.len() as int) + seq![0u8, 0u8, 0u8, 0u8]
        + q.subrange(DNS_HEADER_SIZE as int, e) + cert_rrs(set, set.len() as int)
}

/// Answers a plaintext certificate query for the provider name `name`
/// (encoded) with one TXT record per active certificate; `None` for any
/// other message.
pub fn serve_certificates(query: &[u8], name: &[u8], set: &[DNSCryptEncryptionParams]) -> (r: Option<Vec<u8>>)
    requires
        set@.len() <= 0xffff,
        forall|i: int| 0 <= i < set@.len() ==> (#[trigger] set@[i]).wf(),
    ensures
        match r {
            Some(resp) => is_cert_query(query@, name@) && resp@ == cert_response(query@, set@),
            None => !is_cert_query(query@, name@),
        },
{
    if query.len() < DNS_HEADER_SIZE || qdcount(query) != 1 {
        return None;
    }
    let n = match qname(query) {
        Ok(n) => n,
        Err(_) => return None,
    };
    proof {
        lemma_name_end_bounds(query@, DNS_HEADER_SIZE as int, false);
    }
    if !qname_eq(n.as_slice(), name) {
        return None;
    }
    let e = DNS_HEADER_SIZE + n.len();
    if query.len() - e < 4 {
        return None;
    }
    if query[e] as u16 * 256 + query[e + 1] as u16 != DNS_TYPE_TXT {
        return None;
    }
    let count = set.len();
    let mut out: Vec<u8> = vec![
        query[0], query[1], query[2] | 0x80u8, 0, 0, 1,
        (count / 256) as u8, (count % 256) as u8, 0, 0, 0, 0,
    ];
    let question = copy_range(query, DNS_HEADER_SIZE, e + 4);
    append_bytes(&mut out, question.as_slice());
    proof {
        assert(out@ =~= seq![query@[0], query@[1], query@[2] | 0x80u8, 0u8, 0u8, 1u8] + be16_bytes(set@.len() as int)
            + seq![0u8, 0u8, 0u8, 0u8] + query@.subrange(DNS_HEADER_SIZE as int, e + 4) + cert_rrs(set@, 0));
    }
    let mut i: usize = 0;
    while i < count
        invariant
            i <= count == set@.len(),
            DNS_HEADER_SIZE <= e,
            e + 4 <= query@.len(),
            forall|k: int| 0 <= k < set@.len() ==> (#[trigger] set@[k]).wf(),
            out@ == seq![query@[0], query@[1], query@[2] | 0x80u8, 0u8, 0u8, 1u8] + be16_bytes(set@.len() as int)
                + seq![0u8, 0u8, 0u8, 0u8] + query@.subrange(DNS_HEADER_SIZE as int, e + 4) + cert_rrs(set@, i as int),
        decreases count - i,
    {
        let cert = &set[i].cert;
        let old_out = Ghost(out@);
        let mut rr: Vec<u8> = vec![0xc0, 0x0c, 0, 16, 0, 1];
        push_be32(&mut rr, DNSCRYPT_CERT_TTL);
        rr.push(0);
        rr.push((cert.len() + 1) as u8);
        rr.push(cert.len() as u8);
        append_bytes(&mut rr, cert.as_slice());
        assert(rr@ =~= cert_rr(cert@));
        append_bytes(&mut out, rr.as_slice());
        i += 1;
        assert(out@ =~= seq![query@[0], query@[1], query@[2] | 0x80u8, 0u8, 0u8, 1u8] + be16_bytes(set@.len() as int)
            + seq![0u8, 0u8, 0u8, 0u8] + query@.subrange(DNS_HEADER_SIZE as int, e + 4) + cert_rrs(set@, i as int));
    }
    Some(out)
}

/// Parameters worth keeping when `fresh_magic` is published at `now`: still
/// valid, and not shadowed by the new client magic.
pub open spec fn still_valid(p: DNSCryptEncryptionParams, fresh_magic: Seq<u8>, now: u32) -> bool {
    p.ts_end > now && p.client_magic@ != fresh_magic
}

/// The parameters of `s` worth keeping, in order.
pub open spec fn kept(s: Seq<DNSCryptEncryptionParams>, fresh_magic: Seq<u8>, now: u32) -> Seq<DNSCryptEncryptionParams>
    decreases s.len(),
{
    if s.len() == 0 {
        Seq::empty()
    } else {
        let k = kept(s.drop_last(), fresh_magic, now);
        if still_valid(s.last(), fresh_magic, now) {
            k.push(s.last())
        } else {
            k
        }
    }
}

/// What rotation keeps comes from the old list and is still valid.
pub proof fn lemma_kept(s: Seq<DNSCryptEncryptionParams>, fresh_magic: Seq<u8>, now: u32)
    ensures
        kept(s, fresh_magic, now).len() <= s.len(),
        forall|i: int| 0 <= i < kept(s, fresh_magic, now).len() ==> s.contains(#[trigger] kept(s, fresh_magic, now)[i])
            && still_valid(kept(s, fresh_magic, now)[i], fresh_magic, now),
    decreases s.len(),
{
    if s.len() > 0 {
        let d = s.drop_last();
        lemma_kept(d, fresh_magic, now);
        assert forall|i: int| 0 <= i < kept(d, fresh_magic, now).len() implies s.contains(
            #[trigger] kept(d, fresh_magic, now)[i],
        ) by {
            let j = choose|j: int| 0 <= j < d.len() && d[j] == kept(d, fresh_magic, now)[i];
            assert(s[j] == d[j]);
        }
        assert(s[s.len() - 1] == s.last());
    }
}

/// The active list after publishing `fresh` at `now`: the parameters worth
/// keeping, in order, then `fresh`. The list is never empty and its newest
/// entry is `fresh`.
pub fn rotate(current: Vec<DNSCryptEncryptionParams>, fresh: DNSCryptEncryptionParams, now: u32) -> (r: Vec<DNSCryptEncryptionParams>)
    ensures
        r@ == kept(current@, fresh.client_magic@, now).push(fresh),
        r@.len() > 0,
        r@.last() == fresh,
        forall|i: int| 0 <= i < r@.len() - 1 ==> (#[trigger] r@[i]).ts_end > now
            && r@[i].client_magic@ != fresh.client_magic@,
        (forall|i: int| 0 <= i < current@.len() ==> (#[trigger] current@[i]).wf()) && fresh.wf()
            ==> forall|i: int| 0 <= i < r@.len() ==> (#[trigger] r@[i]).wf(),
{
    let ghost orig = current@;
    let mut current = current;
    let mut out: Vec<DNSCryptEncryptionParams> = Vec::new();
    let mut i: usize = 0;
    let n = current.len();
    while current.len() > 0
        invariant
            i + current@.len() == n == orig.len(),
            current@ == orig.subrange(i as int, n as int),
            out@ == kept(orig.subrange(0, i as int), fresh.client_magic@, now),
        decreases current@.len(),
    {
        let p = current.remove(0);
        assert(p == orig[i as int]);
        let mut same = p.client_magic.len() == fresh.client_magic.len();
        let mut k: usize = 0;
        while same && k < p.client_magic.len()
            invariant
                k <= p.client_magic@.len(),
                same ==> p.client_magic@.len() == fresh.client_magic@.len()
                    && forall|m: int| 0 <= m < k ==> p.client_magic@[m] == fresh.client_magic@[m],
                !same ==> p.client_magic@ != fresh.client_magic@,
            decreases p.client_magic@.len() - k,
        {
            if p.client_magic[k] != fresh.client_magic[k] {
                same = false;
            }
            k += 1;
        }
        proof {
            if same {
                assert(p.client_magic@ =~= fresh.client_magic@);
            }
            assert(orig.subrange(0, i + 1).drop_last() =~= orig.subrange(0, i as int));
        }
        if p.ts_end > now && !same {
            out.push(p);
        }
        i += 1;
    }
    proof {
        assert(orig.subrange(0, n as int) =~= orig);
        lemma_kept(orig, fresh.client_magic@, now);
        if forall|j: int| 0 <= j < orig.len() ==> (#[trigger] orig[j]).wf() {
            assert forall|i: int| 0 <= i < out@.len() implies (#[trigger] out@[i]).wf() by {
                let j = choose|j: int| 0 <= j < orig.len() && orig[j] == out@[i];
                assert(orig[j].wf());
            }
        }
    }
    out.push(fresh);
    out
}

} // verus!
