//! Cryptographic primitives, provided by outside crates.
use vstd::prelude::*;

use crypto_box::aead::Aead;
use ed25519_dalek::Signer;
use rand::RngCore;

verus! {

/// Ciphertext of `msg` under the X25519-XSalsa20-Poly1305 box keyed by the
/// public key `pk` and the secret key `sk`.
pub uninterp spec fn box_seal_of(pk: Seq<u8>, sk: Seq<u8>, nonce: Seq<u8>, msg: Seq<u8>) -> Seq<u8>;

/// Authenticated decryption of `ct` under the same box, `None` when the tag
/// does not verify.
pub uninterp spec fn box_open_of(pk: Seq<u8>, sk: Seq<u8>, nonce: Seq<u8>, ct: Seq<u8>) -> Option<Seq<u8>>;

/// The X25519 public key of a secret key.
pub uninterp spec fn x25519_public_of(sk: Seq<u8>) -> Seq<u8>;

/// The Ed25519 public key of a 32-byte secret seed.
pub uninterp spec fn ed25519_public_of(seed: Seq<u8>) -> Seq<u8>;

/// The Ed25519 signature of `msg` under a 32-byte secret seed.
pub uninterp spec fn ed25519_sign_of(seed: Seq<u8>, msg: Seq<u8>) -> Seq<u8>;

/// Relies on crypto_box::SalsaBox's `Aead::encrypt` with no associated data:
/// it prepends a 16-byte Poly1305 tag to the XSalsa20 ciphertext, and
/// decrypting that under the same keys and nonce gives `msg` back.
#[verifier::external_body]
pub(crate) fn box_seal(pk: &[u8], sk: &[u8], nonce: &[u8], msg: &[u8]) -> (r: Vec<u8>)
    requires
        pk@.len() == 32,
        sk@.len() == 32,
        nonce@.len() == 24,
    ensures
        r@ == box_seal_of(pk@, sk@, nonce@, msg@),
        r@.len() == msg@.len() + 16,
        box_open_of(pk@, sk@, nonce@, r@) == Some(msg@),
{
    let pk: [u8; 32] = pk.try_into().unwrap();
    let sk: [u8; 32] = sk.try_into().unwrap();
    let b = crypto_box::SalsaBox::new(&crypto_box::PublicKey::from(pk), &crypto_box::SecretKey::from(sk));
    b.encrypt(crypto_box::Nonce::from_slice(nonce), msg).unwrap()
}

/// Relies on crypto_box::SalsaBox's `Aead::decrypt` with no associated data:
/// the plaintext when the tag verifies, an error otherwise.
#[verifier::external_body]
pub(crate) fn box_open(pk: &[u8], sk: &[u8], nonce: &[u8], ct: &[u8]) -> (r: Option<Vec<u8>>)
    requires
        pk@.len() == 32,
        sk@.len() == 32,
        nonce@.len() == 24,
    ensures
        match r {
            Some(m) => box_open_of(pk@, sk@, nonce@, ct@) == Some(m@),
            None => box_open_of(pk@, sk@, nonce@, ct@) is None,
        },
{
    let pk: [u8; 32] = pk.try_into().unwrap();
    let sk: [u8; 32] = sk.try_into().unwrap();
    let b = crypto_box::SalsaBox::new(&crypto_box::PublicKey::from(pk), &crypto_box::SecretKey::from(sk));
    b.decrypt(crypto_box::Nonce::from_slice(nonce), ct).ok()
}

/// Relies on crypto_box::SecretKey::public_key: the 32-byte X25519 public
/// key of the secret key.
#[verifier::external_body]
pub(crate) fn x25519_public(sk: &[u8]) -> (r: Vec<u8>)
    requires
        sk@.len() == 32,
    ensures
        r@ == x25519_public_of(sk@),
        r@.len() == 32,
{
    let sk: [u8; 32] = sk.try_into().unwrap();
    crypto_box::SecretKey::from(sk).public_key().to_bytes().to_vec()
}

/// Relies on ed25519_dalek::SigningKey::verifying_key: the 32-byte public
/// key of the seed.
#[verifier::external_body]
pub(crate) fn ed25519_public(seed: &[u8]) -> (r: Vec<u8>)
    requires
        seed@.len() == 32,
    ensures
        r@ == ed25519_public_of(seed@),
        r@.len() == 32,
{
    let seed: [u8; 32] = seed.try_into().unwrap();
    ed25519_dalek::SigningKey::from_bytes(&seed).verifying_key().to_bytes().to_vec()
}

/// Relies on ed25519_dalek::SigningKey's `Signer::sign`: a 64-byte signature.
#[verifier::external_body]
pub(crate) fn ed25519_sign(seed: &[u8], msg: &[u8]) -> (r: Vec<u8>)
    requires
        seed@.len() == 32,
    ensures
        r@ == ed25519_sign_of(seed@, msg@),
        r@.len() == 64,
{
    let seed: [u8; 32] = seed.try_into().unwrap();
    ed25519_dalek::SigningKey::from_bytes(&seed).sign(msg).to_bytes().to_vec()
}

/// Relies on rand's thread-local CSPRNG, seeded from the operating system:
/// `n` bytes, of which nothing else is known.
#[verifier::external_body]
pub(crate) fn random_bytes(n: usize) -> (r: Vec<u8>)
    ensures
        r@.len() == n,
{
    let mut v = vec![0u8; n];
    rand::thread_rng().fill_bytes(&mut v);
    v
}

} // verus!
