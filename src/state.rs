//! The provider's long-term signing key pair and the persisted state.
use vstd::prelude::*;

use crate::bytes::{append_bytes, copy_range};
use crate::certs::DNSCryptEncryptionParams;
use crate::crypto::{ed25519_public, ed25519_public_of, random_bytes};

verus! {

/// An Ed25519 key pair. The secret key is the 32-byte seed followed by the
/// 32-byte public key.
pub struct SignKeyPair {
    pub pk: Vec<u8>,
    pub sk: Vec<u8>,
}

impl SignKeyPair {
    pub open spec fn wf(&self) -> bool {
        &&& self.pk@.len() == 32
        &&& self.sk@.len() == 64
        &&& self.sk@.subrange(32, 64) == self.pk@
        &&& self.pk@ == ed25519_public_of(self.seed())
    }

    /// The 32-byte secret seed.
    pub open spec fn seed(&self) -> Seq<u8> {
        self.sk@.subrange(0, 32)
    }

    /// The key pair of a 32-byte seed.
    pub fn from_seed(seed: &[u8]) -> (r: SignKeyPair)
        requires
            seed@.len() == 32,
        ensures
            r.wf(),
            r.seed() == seed@,
    {
        let pk = ed25519_public(seed);
        let mut sk = copy_range(seed, 0, 32);
        append_bytes(&mut sk, pk.as_slice());
        assert(sk@.subrange(0, 32) =~= seed@);
        assert(sk@.subrange(32, 64) =~= pk@);
        SignKeyPair { pk, sk }
    }

    /// A fresh key pair from a random seed.
    pub fn new() -> (r: SignKeyPair)
        ensures
            r.wf(),
    {
        let seed = random_bytes(32);
        SignKeyPair::from_seed(seed.as_slice())
    }
}

/// What the server keeps across restarts: its provider key pair and the
/// encryption parameters that were active.
pub struct State {
    pub provider_kp: SignKeyPair,
    pub dnscrypt_encryption_params_set: Vec<DNSCryptEncryptionParams>,
}

impl State {
    pub open spec fn wf(&self) -> bool {
        &&& self.provider_kp.wf()
        &&& self.dnscrypt_encryption_params_set@.len() > 0
        &&& forall|i: int| 0 <= i < self.dnscrypt_encryption_params_set@.len()
            ==> (#[trigger] self.dnscrypt_encryption_params_set@[i]).wf()
    }

    /// A fresh state: a new provider key pair and one set of encryption
    /// parameters whose certificate it signs, valid from `now`.
    pub fn new(now: u32) -> (r: State)
        ensures
            r.wf(),
            r.dnscrypt_encryption_params_set@.len() == 1,
            r.dnscrypt_encryption_params_set@[0].signed_by(r.provider_kp.seed()),
            r.dnscrypt_encryption_params_set@[0].valid_from(now),
    {
        let provider_kp = SignKeyPair::new();
        let params = DNSCryptEncryptionParams::new(&provider_kp, now);
        let dnscrypt_encryption_params_set = vec![params];
        State { provider_kp, dnscrypt_encryption_params_set }
    }
}

} // verus!
