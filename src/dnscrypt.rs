//! DNSCrypt v2 query decryption and response encryption.
use vstd::prelude::*;

use crate::bytes::{append_bytes, copy_range};
use crate::certs::DNSCryptEncryptionParams;
use crate::crypto::{box_open, box_open_of, box_seal, box_seal_of, random_bytes};
use crate::errors::Error;

verus! {

pub const DNSCRYPT_CLIENT_MAGIC_SIZE: usize = 8;

pub const DNSCRYPT_CLIENT_PK_SIZE: usize = 32;

pub const DNSCRYPT_HALF_NONCE_SIZE: usize = 12;

pub const DNSCRYPT_FULL_NONCE_SIZE: usize = 24;

pub const DNSCRYPT_MAC_SIZE: usize = 16;

/// Smallest acceptable encrypted query: magic, client key, client nonce,
/// tag and a DNS header.
pub const DNSCRYPT_QUERY_MIN_SIZE: usize = 80;

pub const DNSCRYPT_UDP_QUERY_MIN_SIZE: usize = 256;

pub const DNSCRYPT_UDP_QUERY_MAX_SIZE: usize = 512;

pub const DNSCRYPT_TCP_QUERY_MAX_SIZE: usize = 1500;

pub const DNSCRYPT_UDP_RESPONSE_MAX_SIZE: usize = 4096;

pub const DNSCRYPT_TCP_RESPONSE_MAX_SIZE: usize = 4096;

/// Resolver magic, nonce and tag: what encryption adds besides padding.
pub const DNSCRYPT_RESPONSE_MIN_OVERHEAD: usize = 48;

/// Encrypted responses are padded to a multiple of this size.
pub const DNSCRYPT_PADDING_BLOCK: usize = 64;

/// Resolver magic "r6fnvWj8".
pub open spec fn resolver_magic() -> Seq<u8> {
    seq![0x72u8, 0x36u8, 0x66u8, 0x6eu8, 0x76u8, 0x57u8, 0x6au8, 0x38u8]
}

/// `n` zero bytes.
pub open spec fn zeros(n: nat) -> Seq<u8> {
    Seq::new(n, |i: int| 0u8)
}

/// `p` padded with `0x80` and then `k` zero bytes.
pub open spec fn pad(p: Seq<u8>, k: nat) -> Seq<u8> {
    p + seq![0x80u8] + zeros(k)
}

/// `p` without its trailing zero bytes.
pub open spec fn strip_zeros(p: Seq<u8>) -> Seq<u8>
    decreases p.len(),
{
    if p.len() > 0 && p.last() == 0 {
        strip_zeros(p.drop_last())
    } else {
        p
    }
}

/// The message inside padded plaintext: what precedes the last `0x80` that
/// only zero bytes follow.
pub open spec fn unpad(p: Seq<u8>) -> Option<Seq<u8>> {
    let s = strip_zeros(p);
    if s.len() > 0 && s.last() == 0x80 {
        Some(s.drop_last())
    } else {
        None
    }
}

/// Removing the padding recovers the message, for every amount of padding.
pub proof fn lemma_pad_unpad(p: Seq<u8>, k: nat)
    ensures
        unpad(pad(p, k)) == Some(p),
    decreases k,
{
    if k == 0 {
        assert(pad(p, 0) =~= p + seq![0x80u8]);
        assert((p + seq![0x80u8]).drop_last() =~= p);
    } else {
        assert(pad(p, k).drop_last() =~= pad(p, (k - 1) as nat));
        lemma_pad_unpad(p, (k - 1) as nat);
    }
}

/// Length of the whole encrypted response to a plaintext of `n` bytes: the
/// smallest multiple of the padding block that holds it, capped at `max`.
pub open spec fn response_len(n: int, max: int) -> int {
    let min = n + 1 + DNSCRYPT_RESPONSE_MIN_OVERHEAD;
    let rounded = (min + DNSCRYPT_PADDING_BLOCK - 1) / DNSCRYPT_PADDING_BLOCK as int * DNSCRYPT_PADDING_BLOCK;
    if rounded <= max { rounded } else { max }
}

/// Whether a plaintext of `n` bytes fits under `max` once encrypted.
pub open spec fn fits(n: int, max: int) -> bool {
    n + 1 + DNSCRYPT_RESPONSE_MIN_OVERHEAD <= max
}

/// The client's view of a response: check the resolver magic, open the box
/// with the nonce it carries, and remove the padding.
pub open spec fn open_response(r: Seq<u8>, client_pk: Seq<u8>, resolver_sk: Seq<u8>) -> Option<Seq<u8>> {
    if r.len() < 32 || r.subrange(0, 8) != resolver_magic() {
        None
    } else {
        match box_open_of(client_pk, resolver_sk, r.subrange(8, 32), r.subrange(32, r.len() as int)) {
            Some(p) => unpad(p),
            None => None,
        }
    }
}

/// A client that receives the resolver magic, a nonce and a box that opens to
/// a padded response recovers exactly that response, whatever the padding.
pub proof fn lemma_response_round_trip(
    client_pk: Seq<u8>,
    resolver_sk: Seq<u8>,
    nonce: Seq<u8>,
    sealed: Seq<u8>,
    response: Seq<u8>,
    k: nat,
)
    requires
        nonce.len() == DNSCRYPT_FULL_NONCE_SIZE,
        box_open_of(client_pk, resolver_sk, nonce, sealed) == Some(pad(response, k)),
    ensures
        open_response(resolver_magic() + nonce + sealed, client_pk, resolver_sk) == Some(response),
{
    let r = resolver_magic() + nonce + sealed;
    assert(r.subrange(0, 8) =~= resolver_magic());
    assert(r.subrange(8, 32) =~= nonce);
    assert(r.subrange(32, r.len() as int) =~= sealed);
    lemma_pad_unpad(response, k);
}

/// The key material of one client session: the client's public key and the
/// resolver secret key that it encrypted to.
pub struct SharedKey {
    pub client_pk: Vec<u8>,
    pub resolver_sk: Vec<u8>,
}

impl SharedKey {
    pub open spec fn wf(&self) -> bool {
        self.client_pk@.len() == 32 && self.resolver_sk@.len() == 32
    }
}

/// Removes the padding from a decrypted plaintext.
pub fn strip_padding(p: &[u8]) -> (r: Result<Vec<u8>, Error>)
    ensures
        match r {
            Ok(m) => unpad(p@) == Some(m@),
            Err(e) => e == Error::BadPadding && unpad(p@) is None,
        },
{
    let mut n: usize = p.len();
    assert(p@.subrange(0, n as int) =~= p@);
    while n > 0 && p[n - 1] == 0
        invariant
            n <= p@.len(),
            strip_zeros(p@.subrange(0, n as int)) == strip_zeros(p@),
        decreases n,
    {
        assert(p@.subrange(0, n as int).drop_last() =~= p@.subrange(0, n - 1));
        n -= 1;
    }
    proof {
        if n == p@.len() {
            assert(p@.subrange(0, n as int) =~= p@);
        }
    }
    if n == 0 || p[n - 1] != 0x80 {
        return Err(Error::BadPadding);
    }
    let m = copy_range(p, 0, n - 1);
    assert(p@.subrange(0, n as int).drop_last() =~= m@);
    Ok(m)
}

/// Appends `0x80` and then `k` zero bytes.
pub fn add_padding(p: &[u8], k: usize) -> (r: Vec<u8>)
    ensures
        r@ == pad(p@, k as nat),
{
    let mut out = copy_range(p, 0, p.len());
    out.push(0x80);
    let mut i: usize = 0;
    while i < k
        invariant
            i <= k,
            out@ == p@ + seq![0x80u8] + zeros(i as nat),
        decreases k - i,
    {
        out.push(0);
        i += 1;
        assert(out@ =~= p@ + seq![0x80u8] + zeros(i as nat));
    }
    assert(out@ =~= pad(p@, k as nat));
    out
}

/// Encrypts a DNS response for the client, padded to a multiple of the
/// padding block (or to `max_size` where that is smaller). The result is the
/// resolver magic, the nonce, then the sealed padded response.
pub fn encrypt(response: &[u8], shared_key: &SharedKey, nonce: &[u8], max_size: usize) -> (r: Result<Vec<u8>, Error>)
    requires
        shared_key.wf(),
        nonce@.len() == DNSCRYPT_FULL_NONCE_SIZE,
    ensures
        match r {
            Ok(out) => fits(response@.len() as int, max_size as int)
                && out@.len() == response_len(response@.len() as int, max_size as int)
                && out@.len() <= max_size
                && out@ == resolver_magic() + nonce@ + box_seal_of(
                    shared_key.client_pk@,
                    shared_key.resolver_sk@,
                    nonce@,
                    pad(response@, (out@.len() - DNSCRYPT_RESPONSE_MIN_OVERHEAD - response@.len() - 1) as nat),
                )
                && open_response(out@, shared_key.client_pk@, shared_key.resolver_sk@) == Some(response@),
            Err(e) => e == Error::TooLarge && !fits(response@.len() as int, max_size as int),
        },
{
    if max_size < DNSCRYPT_RESPONSE_MIN_OVERHEAD + 1 || response.len() > max_size - DNSCRYPT_RESPONSE_MIN_OVERHEAD - 1 {
        return Err(Error::TooLarge);
    }
    let min = response.len() + 1 + DNSCRYPT_RESPONSE_MIN_OVERHEAD;
    let rem = min % DNSCRYPT_PADDING_BLOCK;
    let total = if rem == 0 {
        min
    } else if max_size - min >= DNSCRYPT_PADDING_BLOCK - rem {
        min + (DNSCRYPT_PADDING_BLOCK - rem)
    } else {
        max_size
    };
    assert((min as int + 63) / 64 * 64 == if rem == 0 { min as int } else { min + 64 - rem }) by (nonlinear_arith)
        requires rem == min % 64;
    let k = total - DNSCRYPT_RESPONSE_MIN_OVERHEAD - response.len() - 1;
    let padded = add_padding(response, k);
    let sealed = box_seal(shared_key.client_pk.as_slice(), shared_key.resolver_sk.as_slice(), nonce, padded.as_slice());
    let mut out: Vec<u8> = vec![0x72, 0x36, 0x66, 0x6e, 0x76, 0x57, 0x6a, 0x38];
    append_bytes(&mut out, nonce);
    append_bytes(&mut out, sealed.as_slice());
    proof {
        assert(out@ =~= resolver_magic() + nonce@ + sealed@);
        lemma_response_round_trip(shared_key.client_pk@, shared_key.resolver_sk@, nonce@, sealed@, response@, k as nat);
    }
    Ok(out)
}

/// Index of the first parameters from `i` on whose client magic is `magic`.
pub open spec fn first_match_from(set: Seq<DNSCryptEncryptionParams>, magic: Seq<u8>, i: int) -> Option<int>
    decreases set.len() - i,
{
    if i < 0 || i >= set.len() {
        None
    } else if set[i].client_magic@ == magic {
        Some(i)
    } else {
        first_match_from(set, magic, i + 1)
    }
}

/// The resolver secret key and the padded-off plaintext of an encrypted
/// query, or `None` when it cannot be decrypted with any parameters of `set`.
pub open spec fn decrypt_query(q: Seq<u8>, set: Seq<DNSCryptEncryptionParams>) -> Option<(Seq<u8>, Seq<u8>)> {
    if q.len() < DNSCRYPT_QUERY_MIN_SIZE {
        None
    } else {
        match first_match_from(set, q.subrange(0, 8), 0) {
            None => None,
            Some(i) => match box_open_of(
                q.subrange(8, 40),
                set[i].resolver_sk@,
                q.subrange(40, 52) + zeros(12),
                q.subrange(52, q.len() as int),
            ) {
                None => None,
                Some(pt) => match unpad(pt) {
                    None => None,
                    Some(m) => Some((set[i].resolver_sk@, m)),
                },
            },
        }
    }
}

fn find_params(set: &[DNSCryptEncryptionParams], encrypted: &[u8]) -> (r: Option<usize>)
    requires
        encrypted@.len() >= 8,
    ensures
        match r {
            Some(i) => first_match_from(set@, encrypted@.subrange(0, 8), 0) == Some(i as int)
                && i < set@.len(),
            None => first_match_from(set@, encrypted@.subrange(0, 8), 0) is None,
        },
{
    let mut i: usize = 0;
    while i < set.len()
        invariant
            i <= set@.len(),
            encrypted@.len() >= 8,
            first_match_from(set@, encrypted@.subrange(0, 8), i as int) == first_match_from(set@, encrypted@.subrange(0, 8), 0),
        decreases set@.len() - i,
    {
        let magic = &set[i].client_magic;
        if magic.len() == 8 {
            let mut j: usize = 0;
            while j < 8 && magic[j] == encrypted[j]
                invariant
                    j <= 8,
                    magic@.len() == 8,
                    encrypted@.len() >= 8,
                    forall|k: int| 0 <= k < j ==> magic@[k] == encrypted@[k],
                decreases 8 - j,
            {
                j += 1;
            }
            if j == 8 {
                assert(magic@ =~= encrypted@.subrange(0, 8));
                return Some(i);
            }
        }
        i += 1;
    }
    None
}

/// Decrypts a DNSCrypt query with the parameters whose client magic it
/// carries. Returns the session key, the response nonce (the client's half
/// followed by twelve fresh random bytes) and the DNS query.
pub fn decrypt(encrypted: &[u8], set: &[DNSCryptEncryptionParams]) -> (r: Result<(SharedKey, Vec<u8>, Vec<u8>), Error>)
    requires
        forall|i: int| 0 <= i < set@.len() ==> (#[trigger] set@[i]).wf(),
    ensures
        match r {
            Ok((key, nonce, packet)) => decrypt_query(encrypted@, set@) == Some((key.resolver_sk@, packet@))
                && key.wf()
                && key.client_pk@ == encrypted@.subrange(8, 40)
                && nonce@.len() == DNSCRYPT_FULL_NONCE_SIZE
                && nonce@.subrange(0, 12) == encrypted@.subrange(40, 52),
            Err(e) => e == Error::Undecryptable && decrypt_query(encrypted@, set@) is None,
        },
{
    if encrypted.len() < DNSCRYPT_QUERY_MIN_SIZE {
        return Err(Error::Undecryptable);
    }
    let i = match find_params(set, encrypted) {
        Some(i) => i,
        None => return Err(Error::Undecryptable),
    };
    let client_pk = copy_range(encrypted, 8, 40);
    let mut open_nonce = copy_range(encrypted, 40, 52);
    let mut k: usize = 0;
    while k < 12
        invariant
            k <= 12,
            encrypted@.len() >= DNSCRYPT_QUERY_MIN_SIZE,
            open_nonce@ == encrypted@.subrange(40, 52) + zeros(k as nat),
        decreases 12 - k,
    {
        open_nonce.push(0);
        k += 1;
        assert(open_nonce@ =~= encrypted@.subrange(40, 52) + zeros(k as nat));
    }
    let ct = vstd::slice::slice_subrange(encrypted, 52, encrypted.len());
    let resolver_sk = copy_range(set[i].resolver_sk.as_slice(), 0, 32);
    assert(resolver_sk@ =~= set@[i as int].resolver_sk@);
    let padded = match box_open(client_pk.as_slice(), resolver_sk.as_slice(), open_nonce.as_slice(), ct) {
        Some(p) => p,
        None => return Err(Error::Undecryptable),
    };
    let packet = match strip_padding(padded.as_slice()) {
        Ok(p) => p,
        Err(_) => return Err(Error::Undecryptable),
    };
    let mut nonce = copy_range(encrypted, 40, 52);
    let server_half = random_bytes(DNSCRYPT_HALF_NONCE_SIZE);
    append_bytes(&mut nonce, server_half.as_slice());
    assert(nonce@.subrange(0, 12) =~= encrypted@.subrange(40, 52));
    Ok((SharedKey { client_pk, resolver_sk }, nonce, packet))
}

} // verus!
