//! Hashing and record protection.

pub mod aead;
pub mod cipher;
pub mod fips;
pub mod hash;
pub mod hkdf;
pub mod laws;
pub mod prf;
pub mod record_laws;
pub mod suites;
pub mod suites12;
pub mod suites13;
pub mod tls12;
pub mod tls13;
