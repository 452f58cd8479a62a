//! Key derivation of TLS 1.3, computed by `aws_lc_rs::hkdf` and `aws_lc_rs::hmac`.

use aws_lc_rs::hkdf;
use aws_lc_rs::hmac;

use vstd::prelude::*;

use crate::crypto::fips::FipsStatus;
use crate::crypto::hash::HashAlgorithm;
use crate::msgs::message::flatten;

verus! {

/// A pseudorandom key of `aws_lc_rs::hkdf`.
#[verifier::external_type_specification]
#[verifier::external_body]
pub struct ExPrk(hkdf::Prk);

/// The hash function that a pseudorandom key is for.
pub uninterp spec fn prk_algorithm(prk: hkdf::Prk) -> HashAlgorithm;

/// The salt that a pseudorandom key was extracted with, or nothing if it was given
/// as it is.
pub uninterp spec fn prk_salt(prk: hkdf::Prk) -> Option<Seq<u8>>;

/// The secret that a pseudorandom key was extracted from, or the key itself if it
/// was given as it is.
pub uninterp spec fn prk_secret(prk: hkdf::Prk) -> Seq<u8>;

/// The first `len` bytes that HKDF-Expand makes of a pseudorandom key and `info`.
///
/// The key is what HKDF-Extract makes of `salt` and `secret`, or, without a salt,
/// `secret` itself. See RFC 5869.
pub uninterp spec fn hkdf_expanded(
    algorithm: HashAlgorithm,
    salt: Option<Seq<u8>>,
    secret: Seq<u8>,
    info: Seq<u8>,
    len: nat,
) -> Seq<u8>;

/// The HMAC of `message`.
pub uninterp spec fn hmac_tag(algorithm: HashAlgorithm, key: Seq<u8>, message: Seq<u8>) -> Seq<u8>;

/// The number of bytes that can be expanded is limited to this many hash values.
pub const MAX_EXPANDED_BLOCKS: usize = 255;

/// Calls `hkdf::Salt::new` and `hkdf::Salt::extract`. The key remembers what it is
/// to be extracted from.
#[verifier::external_body]
fn prk_extract(algorithm: HashAlgorithm, salt: &[u8], secret: &[u8]) -> (r: hkdf::Prk)
    ensures
        prk_algorithm(r) == algorithm,
        prk_salt(r) == Some(salt@),
        prk_secret(r) == secret@,
{
    let algorithm = match algorithm {
        HashAlgorithm::SHA256 => hkdf::HKDF_SHA256,
        HashAlgorithm::SHA384 => hkdf::HKDF_SHA384,
    };
    hkdf::Salt::new(algorithm, salt).extract(secret)
}

/// Calls `hkdf::Prk::new_less_safe`. The key is `value`, which may be no longer than
/// the longest hash value: on more, the function would panic.
#[verifier::external_body]
fn prk_new(algorithm: HashAlgorithm, value: &[u8]) -> (r: hkdf::Prk)
    requires
        value@.len() <= OKM_MAX_LEN,
    ensures
        prk_algorithm(r) == algorithm,
        prk_salt(r) is None,
        prk_secret(r) == value@,
{
    let algorithm = match algorithm {
        HashAlgorithm::SHA256 => hkdf::HKDF_SHA256,
        HashAlgorithm::SHA384 => hkdf::HKDF_SHA384,
    };
    hkdf::Prk::new_less_safe(algorithm, value)
}

/// Calls `hkdf::Prk::expand` and `hkdf::Okm::fill`. They fill `output` with what
/// HKDF-Expand makes of the key and the concatenation of `info`, as long as that is
/// no more than 255 hash values, and fail without touching it otherwise. The
/// concatenation has to fit in memory.
#[verifier::external_body]
fn prk_expand(prk: &hkdf::Prk, info: &[&[u8]], output: &mut [u8]) -> (r: bool)
    requires
        flatten(info@).len() <= isize::MAX,
    ensures
        r == (old(output)@.len() <= MAX_EXPANDED_BLOCKS * prk_algorithm(*prk).output_size()),
        r ==> final(output)@ == hkdf_expanded(
            prk_algorithm(*prk),
            prk_salt(*prk),
            prk_secret(*prk),
            flatten(info@),
            old(output)@.len(),
        ),
        !r ==> final(output)@ == old(output)@,
        final(output)@.len() == old(output)@.len(),
{
    match prk.expand(info, Len(output.len())) {
        Ok(okm) => okm.fill(output).is_ok(),
        Err(_) => false,
    }
}

/// Calls `hmac::Key::new` and `hmac::sign`. The tag depends on the hash function,
/// the key and the message, and is as long as a hash value.
#[verifier::external_body]
fn hmac_compute(algorithm: HashAlgorithm, key: &[u8], message: &[u8]) -> (r: Vec<u8>)
    ensures
        r@ == hmac_tag(algorithm, key@, message@),
        r@.len() == algorithm.output_size(),
{
    let algorithm = match algorithm {
        HashAlgorithm::SHA256 => hmac::HMAC_SHA256,
        HashAlgorithm::SHA384 => hmac::HMAC_SHA384,
    };
    hmac::sign(&hmac::Key::new(algorithm, key), message).as_ref().to_vec()
}

/// A number of bytes to expand to.
pub struct Len(pub usize);

impl hkdf::KeyType for Len {
    fn len(&self) -> (r: usize)
        ensures
            r == self.0,
    {
        self.0
    }
}

/// The longest block of output keying material, which is the longest hash value.
pub const OKM_MAX_LEN: usize = 64;

/// Output key material of some algorithm, at most [`OKM_MAX_LEN`] bytes.
pub struct OkmBlock {
    buf: Vec<u8>,
}

impl View for OkmBlock {
    type V = Seq<u8>;

    closed spec fn view(&self) -> Seq<u8> {
        self.buf@
    }
}

impl OkmBlock {
    #[verifier::type_invariant]
    spec fn inv(self) -> bool {
        self.buf@.len() <= OKM_MAX_LEN
    }

    /// A block with the given bytes.
    pub fn new(bytes: &[u8]) -> (r: Self)
        requires
            bytes@.len() <= OKM_MAX_LEN,
        ensures
            r@ == bytes@,
    {
        OkmBlock { buf: vstd::slice::slice_to_vec(bytes) }
    }

    pub fn as_ref(&self) -> (r: &[u8])
        ensures
            r@ == self@,
            r@.len() <= OKM_MAX_LEN,
    {
        proof {
            use_type_invariant(self);
        }
        self.buf.as_slice()
    }
}

/// An HMAC.
#[derive(Debug)]
pub struct Tag {
    pub bytes: Vec<u8>,
}

impl Tag {
    pub fn as_ref(&self) -> (r: &[u8])
        ensures
            r@ == self.bytes@,
    {
        self.bytes.as_slice()
    }
}

/// More output was asked for than HKDF-Expand can give.
#[derive(Clone, Copy, Debug, PartialEq, Eq, Structural)]
pub struct OutputLengthError;

/// `n` zero bytes.
pub open spec fn zeroes(n: nat) -> Seq<u8> {
    Seq::new(n, |i: int| 0u8)
}

/// The salt to use: as many zeros as a hash value is long, unless one is given.
pub open spec fn salt_or_zeroes(algorithm: HashAlgorithm, salt: Option<&[u8]>) -> Seq<u8> {
    match salt {
        Some(salt) => salt@,
        None => zeroes(algorithm.output_size()),
    }
}

/// As many zeros as a hash value is long.
fn make_zeroes(algorithm: HashAlgorithm) -> (r: Vec<u8>)
    ensures
        r@ == zeroes(algorithm.output_size()),
{
    let mut bytes: Vec<u8> = Vec::new();
    bytes.resize(algorithm.output_len(), 0u8);
    assert(bytes@ =~= zeroes(algorithm.output_size()));
    bytes
}

/// HKDF and HMAC with some hash function.
#[derive(Clone, Copy, Debug, PartialEq, Eq, Structural)]
pub struct AwsLcHkdf(pub HashAlgorithm);

impl AwsLcHkdf {
    /// `HKDF-Extract(salt, 0_HashLen)`
    ///
    /// `salt` defaults to `0_HashLen`.
    pub fn extract_from_zero_ikm(&self, salt: Option<&[u8]>) -> (r: AwsLcHkdfExpander)
        ensures
            r.algorithm() == self.0,
            r.salt() == Some(salt_or_zeroes(self.0, salt)),
            r.secret() == zeroes(self.0.output_size()),
    {
        let zeroes = make_zeroes(self.0);
        let salt: &[u8] = match salt {
            Some(salt) => salt,
            None => zeroes.as_slice(),
        };
        AwsLcHkdfExpander { alg: self.0, prk: prk_extract(self.0, salt, zeroes.as_slice()) }
    }

    /// `HKDF-Extract(salt, secret)`
    ///
    /// `salt` defaults to `0_HashLen`.
    pub fn extract_from_secret(&self, salt: Option<&[u8]>, secret: &[u8]) -> (r: AwsLcHkdfExpander)
        ensures
            r.algorithm() == self.0,
            r.salt() == Some(salt_or_zeroes(self.0, salt)),
            r.secret() == secret@,
    {
        let zeroes = make_zeroes(self.0);
        let salt: &[u8] = match salt {
            Some(salt) => salt,
            None => zeroes.as_slice(),
        };
        AwsLcHkdfExpander { alg: self.0, prk: prk_extract(self.0, salt, secret) }
    }

    /// An expander with `okm` as the pseudorandom key.
    pub fn expander_for_okm(&self, okm: &OkmBlock) -> (r: AwsLcHkdfExpander)
        ensures
            r.algorithm() == self.0,
            r.salt() is None,
            r.secret() == okm@,
    {
        AwsLcHkdfExpander { alg: self.0, prk: prk_new(self.0, okm.as_ref()) }
    }

    /// Signs `message` using `key` viewed as an HMAC key.
    pub fn hmac_sign(&self, key: &OkmBlock, message: &[u8]) -> (r: Tag)
        ensures
            r.bytes@ == hmac_tag(self.0, key@, message@),
            r.bytes@.len() == self.0.output_size(),
    {
        Tag { bytes: hmac_compute(self.0, key.as_ref(), message) }
    }

    /// The functions are as approved as the provider as a whole.
    pub fn fips(&self, provider: FipsStatus) -> (r: FipsStatus)
        ensures
            r == provider,
    {
        provider
    }
}

/// Expands one pseudorandom key.
pub struct AwsLcHkdfExpander {
    alg: HashAlgorithm,
    prk: hkdf::Prk,
}

impl AwsLcHkdfExpander {
    #[verifier::type_invariant]
    spec fn inv(self) -> bool {
        self.alg == prk_algorithm(self.prk)
    }

    /// The hash function.
    pub closed spec fn algorithm(&self) -> HashAlgorithm {
        self.alg
    }

    /// The salt that the key was extracted with, if it was.
    pub closed spec fn salt(&self) -> Option<Seq<u8>> {
        prk_salt(self.prk)
    }

    /// What the key was extracted from, or the key itself.
    pub closed spec fn secret(&self) -> Seq<u8> {
        prk_secret(self.prk)
    }

    /// The first `len` bytes that the key is expanded to.
    pub open spec fn expanded(&self, info: Seq<u8>, len: nat) -> Seq<u8> {
        hkdf_expanded(self.algorithm(), self.salt(), self.secret(), info, len)
    }

    /// `HKDF-Expand(PRK, info, L)` into a slice.
    ///
    /// `PRK` is the implicit key material represented by this instance, and `L` is
    /// the length of `output`. The info is the concatenation of its parts.
    pub fn expand_slice(&self, info: &[&[u8]], output: &mut [u8]) -> (r: Result<
        (),
        OutputLengthError,
    >)
        requires
            flatten(info@).len() <= isize::MAX,
        ensures
            old(output)@.len() <= MAX_EXPANDED_BLOCKS * self.algorithm().output_size() ==> r is Ok
                && final(output)@ == self.expanded(flatten(info@), old(output)@.len()),
            old(output)@.len() > MAX_EXPANDED_BLOCKS * self.algorithm().output_size() ==> r == Err::<
                (),
                OutputLengthError,
            >(OutputLengthError) && final(output)@ == old(output)@,
            final(output)@.len() == old(output)@.len(),
    {
        proof {
            use_type_invariant(self);
        }
        if prk_expand(&self.prk, info, output) {
            Ok(())
        } else {
            Err(OutputLengthError)
        }
    }

    /// `HKDF-Expand(PRK, info, L=HashLen)` returned as a value.
    pub fn expand_block(&self, info: &[&[u8]]) -> (r: OkmBlock)
        requires
            flatten(info@).len() <= isize::MAX,
        ensures
            r@ == self.expanded(flatten(info@), self.algorithm().output_size()),
            r@.len() == self.algorithm().output_size(),
    {
        proof {
            use_type_invariant(self);
        }
        let mut buf: Vec<u8> = make_zeroes(self.alg);
        let _ = prk_expand(&self.prk, info, buf.as_mut_slice());
        OkmBlock::new(buf.as_slice())
    }

    /// The length of a hash value.
    pub fn hash_len(&self) -> (r: usize)
        ensures
            r == self.algorithm().output_size(),
    {
        self.alg.output_len()
    }
}

} // verus!
