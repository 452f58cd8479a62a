//! The pseudorandom function of TLS 1.2, computed by `aws_lc_rs::tls_prf`.

use aws_lc_rs::tls_prf;
use zeroize::Zeroize;

use vstd::prelude::*;

use crate::crypto::cipher::copy_into;
use crate::crypto::fips::FipsStatus;
use crate::crypto::hash::HashAlgorithm;
use crate::error::Error;

verus! {

/// The first `len` bytes of the pseudorandom function with the given hash function.
///
/// See RFC 5246 s5.
pub uninterp spec fn prf_output(
    algorithm: HashAlgorithm,
    secret: Seq<u8>,
    label: Seq<u8>,
    seed: Seq<u8>,
    len: nat,
) -> Seq<u8>;

/// Calls `tls_prf::Secret::new`, which fails on empty secrets, and
/// `tls_prf::Secret::derive`, which fails where no output is asked for. The result
/// depends on the hash function, the secret, the label, the seed and its own
/// length, which is the one that was asked for.
#[verifier::external_body]
fn prf_derive(algorithm: HashAlgorithm, secret: &[u8], label: &[u8], seed: &[u8], len: usize) -> (r:
    Vec<u8>)
    requires
        secret@.len() > 0,
        0 < len <= isize::MAX,
    ensures
        r@ == prf_output(algorithm, secret@, label@, seed@, len as nat),
        r@.len() == len,
{
    let algorithm = match algorithm {
        HashAlgorithm::SHA256 => &tls_prf::P_SHA256,
        HashAlgorithm::SHA384 => &tls_prf::P_SHA384,
    };
    let secret = tls_prf::Secret::new(algorithm, secret).unwrap();
    secret.derive(label, seed, len).unwrap().as_ref().to_vec()
}

/// Calls `Zeroize::zeroize` of the `zeroize` crate on a byte array, which
/// overwrites all bytes with zeros.
#[verifier::external_body]
fn zeroize_array(bytes: &mut [u8; 48])
    ensures
        final(bytes)@ == Seq::new(48, |i: int| 0u8),
{
    bytes.zeroize();
}

/// The outcome of a key exchange. It is not empty.
pub struct SharedSecret {
    buf: Vec<u8>,
}

impl View for SharedSecret {
    type V = Seq<u8>;

    closed spec fn view(&self) -> Seq<u8> {
        self.buf@
    }
}

impl SharedSecret {
    #[verifier::type_invariant]
    spec fn inv(self) -> bool {
        self.buf@.len() > 0
    }

    /// A shared secret, if there is anything to it.
    pub fn new(bytes: &[u8]) -> (r: Option<Self>)
        ensures
            bytes@.len() == 0 ==> r is None,
            bytes@.len() > 0 ==> (r matches Some(secret) && secret@ == bytes@),
    {
        if bytes.len() == 0 {
            None
        } else {
            Some(SharedSecret { buf: vstd::slice::slice_to_vec(bytes) })
        }
    }

    pub fn secret_bytes(&self) -> (r: &[u8])
        ensures
            r@ == self@,
            r@.len() > 0,
    {
        proof {
            use_type_invariant(self);
        }
        self.buf.as_slice()
    }
}

/// What the pseudorandom function of TLS 1.2 is keyed with.
pub enum Secret {
    Master([u8; 48]),
    KeyExchange(SharedSecret),
}

impl View for Secret {
    type V = Seq<u8>;

    open spec fn view(&self) -> Seq<u8> {
        match self {
            Secret::Master(ms) => ms@,
            Secret::KeyExchange(kx) => kx@,
        }
    }
}

impl Secret {
    pub fn as_ref(&self) -> (r: &[u8])
        ensures
            r@ == self@,
            r@.len() > 0,
    {
        match self {
            Secret::Master(ms) => ms.as_slice(),
            Secret::KeyExchange(kx) => kx.secret_bytes(),
        }
    }

    /// Wipes a master secret. The owner calls this before the secret goes away.
    pub fn zeroize(&mut self)
        ensures
            match *old(self) {
                Secret::Master(_) => *final(self) matches Secret::Master(ms) && ms@ == Seq::new(
                    48,
                    |i: int| 0u8,
                ),
                Secret::KeyExchange(_) => *final(self) == *old(self),
            },
    {
        match self {
            Secret::Master(ms) => zeroize_array(ms),
            Secret::KeyExchange(_) => {},
        }
    }
}

/// The pseudorandom function with a secret.
// nb: we can't put a `tls_prf::Secret` in here because it is
// consumed by `tls_prf::Secret::derive()`
pub struct Tls12PrfSecret {
    pub alg: HashAlgorithm,
    pub secret: Secret,
}

impl Tls12PrfSecret {
    /// Fills `output`, which must not be empty.
    pub fn prf(&self, output: &mut [u8], label: &[u8], seed: &[u8])
        requires
            0 < old(output)@.len() <= isize::MAX,
        ensures
            final(output)@ == prf_output(
                self.alg,
                self.secret@,
                label@,
                seed@,
                old(output)@.len(),
            ),
            final(output)@.len() == old(output)@.len(),
    {
        let derived = prf_derive(self.alg, self.secret.as_ref(), label, seed, output.len());
        copy_into(output, 0, derived.as_slice());
        assert(output@ =~= derived@);
    }
}

/// The pseudorandom function of TLS 1.2 with some hash function.
#[derive(Clone, Copy, Debug, PartialEq, Eq, Structural)]
pub struct Tls12Prf(pub HashAlgorithm);

impl Tls12Prf {
    /// Computes `output` from what a key exchange came to. If that has failed, the
    /// error is passed on.
    pub fn for_key_exchange(
        &self,
        output: &mut [u8; 48],
        shared_secret: Result<SharedSecret, Error>,
        label: &[u8],
        seed: &[u8],
    ) -> (r: Result<(), Error>)
        ensures
            match shared_secret {
                Ok(secret) => r is Ok && final(output)@ == prf_output(
                    self.0,
                    secret@,
                    label@,
                    seed@,
                    48,
                ),
                Err(e) => r == Err::<(), Error>(e) && final(output)@ == old(output)@,
            },
    {
        let secret = match shared_secret {
            Ok(secret) => secret,
            Err(e) => return Err(e),
        };
        let keyed = Tls12PrfSecret { alg: self.0, secret: Secret::KeyExchange(secret) };
        let bytes: &mut [u8] = output;
        keyed.prf(bytes, label, seed);
        Ok(())
    }

    /// The function keyed with a master secret.
    pub fn new_secret(&self, secret: &[u8; 48]) -> (r: Tls12PrfSecret)
        ensures
            r.alg == self.0,
            r.secret is Master,
            r.secret@ == secret@,
    {
        Tls12PrfSecret { alg: self.0, secret: Secret::Master(*secret) }
    }

    /// The function is as approved as the provider as a whole.
    pub fn fips(&self, provider: FipsStatus) -> (r: FipsStatus)
        ensures
            r == provider,
    {
        provider
    }
}

} // verus!
