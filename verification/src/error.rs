//! Errors of the record layer.

use vstd::prelude::*;

verus! {

/// A message from the peer could not be understood.
#[derive(Clone, Copy, Debug, PartialEq, Eq)]
pub enum InvalidMessage {
    /// A value of the named type was cut short.
    MissingData(&'static str),
    /// Bytes were left over behind a value of the named type.
    TrailingData(&'static str),
    MessageTooShort,
    MessageTooLarge,
    InvalidEmptyPayload,
    InvalidContentType,
    UnknownProtocolVersion,
    InvalidDtls13UnifiedHeader,
}

/// A record header could not be read.
#[derive(Clone, Copy, Debug, PartialEq, Eq, Structural)]
pub enum RecordError {
    TooShortForHeader,
    TooShortForLength,
    InvalidEmptyPayload,
    MessageTooLarge,
    InvalidContentType,
    UnknownProtocolVersion,
}

/// The caller handed over something unusable.
#[derive(Clone, Copy, Debug, PartialEq, Eq, Structural)]
pub enum ApiMisuse {
    /// The output buffer is shorter than the record to be written into it.
    EncryptBufferTooSmall { required: usize, provided: usize },
    /// An initialization vector is longer than any that is supported.
    IvLengthExceedsMaximum { actual: usize, maximum: usize },
    /// A nonce does not have the length that the cipher takes.
    NonceArraySizeMismatch { expected: usize, actual: usize },
}

/// The peer broke the protocol.
#[derive(Clone, Copy, Debug, PartialEq, Eq, Structural)]
pub enum PeerMisbehaved {
    /// A TLS 1.3 inner plaintext consists of nothing but padding.
    IllegalTlsInnerPlaintext,
}

/// Anything that can go wrong in the record layer.
#[derive(Clone, Copy, Debug, PartialEq, Eq)]
pub enum Error {
    InvalidMessage(InvalidMessage),
    PeerMisbehaved(PeerMisbehaved),
    ApiMisuse(ApiMisuse),
    PeerSentOversizedRecord,
    BadMaxFragmentSize,
    EncryptError,
    DecryptError,
}

} // verus!
