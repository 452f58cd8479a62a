//! What cipher suites are described with.

use vstd::prelude::*;

use crate::crypto::cipher::{AeadKey, Iv};
use crate::crypto::hash::HashAlgorithm;

verus! {

/// The names of the supported cipher suites.
#[allow(non_camel_case_types)]
#[derive(Clone, Copy, Debug, PartialEq, Eq, Structural)]
pub enum CipherSuite {
    TLS13_AES_128_GCM_SHA256,
    TLS13_AES_256_GCM_SHA384,
    TLS13_CHACHA20_POLY1305_SHA256,
    TLS_ECDHE_ECDSA_WITH_AES_128_GCM_SHA256,
    TLS_ECDHE_ECDSA_WITH_AES_256_GCM_SHA384,
    TLS_ECDHE_ECDSA_WITH_CHACHA20_POLY1305_SHA256,
    TLS_ECDHE_RSA_WITH_AES_128_GCM_SHA256,
    TLS_ECDHE_RSA_WITH_AES_256_GCM_SHA384,
    TLS_ECDHE_RSA_WITH_CHACHA20_POLY1305_SHA256,
}

/// Signature schemes that cipher suites allow.
#[allow(non_camel_case_types)]
#[derive(Clone, Copy, Debug, PartialEq, Eq, Structural)]
pub enum SignatureScheme {
    ED25519,
    ECDSA_NISTP521_SHA512,
    ECDSA_NISTP384_SHA384,
    ECDSA_NISTP256_SHA256,
    RSA_PSS_SHA512,
    RSA_PSS_SHA384,
    RSA_PSS_SHA256,
    RSA_PKCS1_SHA512,
    RSA_PKCS1_SHA384,
    RSA_PKCS1_SHA256,
}

/// Key exchanges that cipher suites of TLS 1.2 name.
#[derive(Clone, Copy, Debug, PartialEq, Eq, Structural)]
pub enum KeyExchangeAlgorithm {
    ECDHE,
}

/// Common state for cipher suites (both for TLS 1.2 and TLS 1.3)
#[derive(Clone, Copy, Debug, PartialEq, Eq, Structural)]
pub struct CipherSuiteCommon {
    /// The TLS enumeration naming this cipher suite.
    pub suite: CipherSuite,
    /// Which hash function the suite uses.
    pub hash_provider: HashAlgorithm,
    /// Number of records that can be safely encrypted without degrading
    /// confidentiality.
    pub confidentiality_limit: u64,
}

/// The number of records that AES-GCM can safely encrypt.
pub const GCM_CONFIDENTIALITY_LIMIT: u64 = 1 << 24;

/// How the key block of TLS 1.2 is divided for a cipher suite.
#[derive(Clone, Copy, Debug, PartialEq, Eq, Structural)]
pub struct KeyBlockShape {
    /// How long keys are.
    pub enc_key_len: usize,
    /// How long the fixed part of the IV is.
    pub fixed_iv_len: usize,
    /// How long the explicit part of the nonce is.
    pub explicit_nonce_len: usize,
}

/// Secrets for transmitting/receiving data over a session, by cipher.
pub enum ConnectionTrafficSecrets {
    /// Secrets for the AES_128_GCM AEAD algorithm
    Aes128Gcm { key: AeadKey, iv: Iv },
    /// Secrets for the AES_256_GCM AEAD algorithm
    Aes256Gcm { key: AeadKey, iv: Iv },
    /// Secrets for the CHACHA20_POLY1305 AEAD algorithm
    Chacha20Poly1305 { key: AeadKey, iv: Iv },
}

/// An operation that an algorithm does not support.
#[derive(Clone, Copy, Debug, PartialEq, Eq, Structural)]
pub struct UnsupportedOperationError;

} // verus!
