//! Whether algorithms are FIPS approved.

use vstd::prelude::*;

verus! {

/// FIPS validation status of an algorithm or implementation.
#[derive(Clone, Copy, Debug, PartialEq, Eq)]
pub enum FipsStatus {
    /// Not FIPS tested, or unapproved algorithm.
    Unvalidated,
    /// In queue for FIPS validation.
    Pending,
    /// FIPS certified, with named certificate.
    Certified { certificate: &'static str },
}

} // verus!
