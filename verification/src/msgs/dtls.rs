//! Message definitions specific to DTLS 1.2 ([RFC 6347]) and 1.3 ([RFC 9147]).
//!
//! [RFC 6347]: https://www.rfc-editor.org/info/rfc6347
//! [RFC 9147]: https://www.rfc-editor.org/info/rfc9147

use vstd::prelude::*;
use vstd::std_specs::convert::FromSpecImpl;

use crate::enums::{ContentType, HandshakeType, ProtocolVersion};
use crate::epoch::{Epoch, EpochAndSequence};
use crate::error::{Error, InvalidMessage, RecordError};
use crate::msgs::codec::{
    be_bytes, be_value, encode_be, lemma_be_bytes_len, lemma_be_value_of_bytes,
    lemma_pow256_values, pow256, put_be, Reader, U24,
};
use crate::msgs::message::{record_header_bytes, Payload, HANDSHAKE_HEADER_SIZE, HEADER_SIZE};

verus! {

/// Length of the header on a full DTLS record.
///
/// This header is used for all DTLS 1.2 records and for unencrypted DTLS 1.3
/// records: the TLS header plus epoch (2 bytes) and sequence number (6 bytes).
pub const DTLS_12_HEADER_SIZE: usize = HEADER_SIZE + 2 + 6;

/// Another name for the length of the header on a full DTLS record.
pub const DTLS_HEADER_SIZE: usize = DTLS_12_HEADER_SIZE;

/// Length of the unified header on an encrypted DTLS 1.3 record: bit field,
/// no connection ID, 2 bytes of sequence number, 2 bytes of length.
pub const DTLS_13_UNIFIED_HEADER_SIZE: usize = 1 + 2 + 2;

/// Length of extra fields in the handshake header for DTLS.
///
/// Message sequence (2 bytes), fragment offset (3 bytes) and fragment length
/// (3 bytes).
pub const DTLS_HANDSHAKE_HEADER_EXTRA: usize = 2 + 3 + 3;

/// Length of the header on a DTLS handshake message, without the record header.
pub const DTLS_HANDSHAKE_HEADER_SIZE: usize = HANDSHAKE_HEADER_SIZE + DTLS_HANDSHAKE_HEADER_EXTRA;

/// Records must carry fewer bytes than this.
pub const MAX_PAYLOAD: u16 = 16_384 + 2_048;

/// Sequence number of a handshake message.
pub type HandshakeSequenceNumber = u16;

/// The header of a DTLS record that has no unified header.
#[derive(Clone, Copy, Debug, PartialEq, Eq, Structural)]
pub struct DtlsMessageHeader {
    pub typ: ContentType,
    pub version: ProtocolVersion,
    pub epoch: Epoch,
    pub sequence: FullRecordSequenceNumber,
    pub len: u16,
}

/// The version numbers of TLS (0x03XX) and DTLS (0xfeXX).
pub open spec fn is_plausible_version(version: ProtocolVersion) -> bool {
    version.code() / 256 == 0x03 || version.code() / 256 == 0xfe
}

/// The header that a full DTLS record begins with.
pub open spec fn record_header(bytes: Seq<u8>) -> Result<DtlsMessageHeader, RecordError> {
    let typ = ContentType::of(bytes[0]);
    let version = ProtocolVersion::of(be_value(bytes.subrange(1, 3)) as u16);
    let len = be_value(bytes.subrange(11, 13)) as u16;
    if bytes.len() < 1 {
        Err(RecordError::TooShortForHeader)
    } else if !typ.is_known() {
        Err(RecordError::InvalidContentType)
    } else if bytes.len() < 3 {
        Err(RecordError::TooShortForHeader)
    } else if !is_plausible_version(version) {
        Err(RecordError::UnknownProtocolVersion)
    } else if bytes.len() < DTLS_12_HEADER_SIZE {
        Err(RecordError::TooShortForHeader)
    } else if typ != ContentType::ApplicationData && len == 0 {
        Err(RecordError::InvalidEmptyPayload)
    } else if len >= MAX_PAYLOAD {
        Err(RecordError::MessageTooLarge)
    } else {
        Ok(
            DtlsMessageHeader {
                typ,
                version,
                epoch: Epoch { number: be_value(bytes.subrange(3, 5)) as u64 },
                sequence: FullRecordSequenceNumber(be_value(bytes.subrange(5, 11)) as u64),
                len,
            },
        )
    }
}

/// How many bytes are looked at before the header of a full DTLS record is
/// accepted or refused.
pub open spec fn record_header_progress(bytes: Seq<u8>) -> int {
    if bytes.len() < 1 {
        0
    } else if !ContentType::of(bytes[0]).is_known() || bytes.len() < 3 {
        1
    } else if !is_plausible_version(ProtocolVersion::of(be_value(bytes.subrange(1, 3)) as u16))
        || bytes.len() < 5 {
        3
    } else if bytes.len() < 11 {
        5
    } else if bytes.len() < 13 {
        11
    } else {
        13
    }
}

/// Reads the header of a full DTLS record.
pub fn read_dtls_record_header(r: &mut Reader<'_>) -> (res: Result<DtlsMessageHeader, RecordError>)
    requires
        old(r).wf(),
    ensures
        final(r).wf(),
        res == record_header(old(r).rest()),
        final(r).rest() == old(r).rest().skip(record_header_progress(old(r).rest())),
{
    let ghost b = r.rest();
    proof {
        lemma_pow256_values();
        assert(b.skip(0) =~= b);
    }
    let typ = match r.read_be(1, "ContentType") {
        Ok(code) => {
            proof {
                assert(b.take(1).drop_last() =~= Seq::empty());
                assert(be_value(b.take(1)) == b[0]) by {
                    reveal_with_fuel(be_value, 2);
                }
            }
            ContentType::from_u8(code as u8)
        },
        Err(_) => return Err(RecordError::TooShortForHeader),
    };
    // Don't accept any new content types.
    match typ {
        ContentType::Unknown(_) => return Err(RecordError::InvalidContentType),
        _ => {},
    }
    let ghost b1 = r.rest();
    let version = match r.read_be(2, "ProtocolVersion") {
        Ok(code) => {
            assert(b1.take(2) =~= b.subrange(1, 3));
            ProtocolVersion::from_u16(code as u16)
        },
        Err(_) => return Err(RecordError::TooShortForHeader),
    };
    assert(r.rest() =~= b.skip(3));
    // Accept only versions 0x03XX (TLS) or 0xfeXX (DTLS) for any XX.
    let high_byte: u16 = version.to_u16() / 256;
    if high_byte != 0x03 && high_byte != 0xfe {
        return Err(RecordError::UnknownProtocolVersion);
    }
    // Epoch numbers are encoded as 16 bits in plaintext record headers.
    let epoch = match r.read_be(2, "u16") {
        Ok(number) => Epoch::new(number),
        Err(_) => return Err(RecordError::TooShortForHeader),
    };
    assert(b.skip(3).take(2) =~= b.subrange(3, 5));
    assert(r.rest() =~= b.skip(5));
    // Record sequence numbers are encoded as 48 bits in plaintext record headers.
    let sequence = match r.read_be(6, "u48") {
        Ok(number) => FullRecordSequenceNumber(number),
        Err(_) => return Err(RecordError::TooShortForHeader),
    };
    assert(b.skip(5).take(6) =~= b.subrange(5, 11));
    assert(r.rest() =~= b.skip(11));
    let len: u16 = match r.read_be(2, "u16") {
        Ok(number) => number as u16,
        Err(_) => return Err(RecordError::TooShortForHeader),
    };
    assert(b.skip(11).take(2) =~= b.subrange(11, 13));
    assert(r.rest() =~= b.skip(13));
    // Reject undersize messages.
    if typ != ContentType::ApplicationData && len == 0 {
        return Err(RecordError::InvalidEmptyPayload);
    }
    // Reject oversize messages.
    if len >= MAX_PAYLOAD {
        return Err(RecordError::MessageTooLarge);
    }
    Ok(DtlsMessageHeader { typ, version, epoch, sequence, len })
}

/// Full DTLS record sequence number.
///
/// Appears in record headers for DTLS 1.2 and unencrypted DTLS 1.3. It can also
/// be obtained by reconstructing a sequence number from the encrypted,
/// truncated one in a DTLS 1.3 unified header.
#[derive(Clone, Copy, Debug, PartialEq, Eq, Structural, PartialOrd, Ord, Hash)]
pub struct FullRecordSequenceNumber(pub u64);

impl FullRecordSequenceNumber {
    /// Moves on to the next sequence number.
    pub fn increment(&mut self)
        requires
            old(self).0 < u64::MAX,
        ensures
            final(self).0 == old(self).0 + 1,
    {
        self.0 = self.0 + 1;
    }

    /// The low 16 bits of the sequence number, in the long encoding.
    pub open spec fn truncates_to(self, truncated: TruncatedRecordSequenceNumber) -> bool {
        &&& truncated.truncated@ == be_bytes(self.0 as nat, 2)
        &&& truncated.long_encoding
    }

    /// The low 16 bits of the sequence number, in the long encoding.
    pub fn truncate(&self) -> (r: TruncatedRecordSequenceNumber)
        ensures
            self.truncates_to(r),
    {
        let high: u8 = ((self.0 / 256) % 256) as u8;
        let low: u8 = (self.0 % 256) as u8;
        let r = TruncatedRecordSequenceNumber { truncated: [high, low], long_encoding: true };
        proof {
            reveal_with_fuel(be_bytes, 3);
            assert(r.truncated@ =~= be_bytes(self.0 as nat, 2));
        }
        r
    }

    /// Writes the low 48 bits of the sequence number.
    pub fn encode(&self, into: &mut [u8])
        requires
            old(into)@.len() == 6,
        ensures
            final(into)@ == be_bytes(self.0 as nat, 6),
    {
        put_be(self.0, 6, into, 0);
        assert(into@ =~= be_bytes(self.0 as nat, 6));
    }
}

impl From<FullRecordSequenceNumber> for u64 {
    fn from(value: FullRecordSequenceNumber) -> (r: u64) {
        value.0
    }
}

impl FromSpecImpl<FullRecordSequenceNumber> for u64 {
    open spec fn obeys_from_spec() -> bool {
        true
    }

    open spec fn from_spec(value: FullRecordSequenceNumber) -> u64 {
        value.0
    }
}

impl From<u64> for FullRecordSequenceNumber {
    fn from(value: u64) -> (r: Self) {
        FullRecordSequenceNumber(value)
    }
}

impl FromSpecImpl<u64> for FullRecordSequenceNumber {
    open spec fn obeys_from_spec() -> bool {
        true
    }

    open spec fn from_spec(value: u64) -> Self {
        FullRecordSequenceNumber(value)
    }
}

/// Encrypts and decrypts the sequence numbers of DTLS 1.3 records.
pub trait RecordSequenceNumberEncrypter {
    /// What becomes of `number` on a record with the given ciphertext. Nothing is
    /// known of it where an implementation does not say.
    open spec fn transformed(&self, number: Seq<u8>, ciphertext: Seq<u8>) -> Result<
        Seq<u8>,
        Error,
    > {
        arbitrary()
    }

    /// Encrypts or decrypts `number` in place.
    fn transform(&self, number: &mut [u8; 2], ciphertext: &[u8]) -> (r: Result<(), Error>)
        ensures
            match self.transformed(old(number)@, ciphertext@) {
                Ok(bytes) => r is Ok && final(number)@ == bytes,
                Err(e) => r == Err::<(), Error>(e),
            },
    ;
}

/// Protected DTLS record sequence number.
///
/// Exclusively appears in the unified header on a DTLS 1.3 encrypted message.
#[derive(Clone, Copy, Debug)]
pub struct ProtectedRecordSequenceNumber {
    /// The encrypted, truncated sequence number.
    ///
    /// Padded with a single 0 if the original encoded number was 1 byte long.
    pub protected: [u8; 2],
    /// Whether the sequence number was encoded in the long form.
    ///
    /// The long form is 2 bytes, the short form is 1. DTLS 1.3 unified headers
    /// allow either encoding.
    pub long_encoding: bool,
}

/// A sequence number of two bytes, or of one byte that is padded with a single 0.
pub open spec fn padded(number: Seq<u8>, long_encoding: bool) -> Seq<u8> {
    seq![
        number[0],
        if long_encoding {
            number[1]
        } else {
            0
        },
    ]
}

/// `number` in place of the first bytes of `old`: two bytes in the long form,
/// one in the short form.
pub open spec fn number_written(number: Seq<u8>, long_encoding: bool, old: Seq<u8>) -> Seq<u8> {
    if long_encoding {
        number.take(2) + old.skip(2)
    } else {
        number.take(1) + old.skip(1)
    }
}

/// Writes a sequence number of two bytes, or just its first byte.
fn write_number(number: &[u8; 2], long_encoding: bool, into: &mut [u8])
    requires
        old(into)@.len() >= if long_encoding { 2int } else { 1int },
    ensures
        final(into)@ == number_written(number@, long_encoding, old(into)@),
{
    into[0] = number[0];
    if long_encoding {
        into[1] = number[1];
    }
    assert(into@ =~= number_written(number@, long_encoding, old(into)@));
}

impl ProtectedRecordSequenceNumber {
    /// Deprotect a record sequence number into a truncated sequence number.
    pub fn deprotect(
        &self,
        encrypter: &Box<dyn RecordSequenceNumberEncrypter>,
        ciphertext: &[u8],
    ) -> (r: TruncatedRecordSequenceNumber)
        requires
            encrypter.transformed(self.protected@, ciphertext@) is Ok,
        ensures
            r.truncated@ == padded(
                encrypter.transformed(self.protected@, ciphertext@)->Ok_0,
                self.long_encoding,
            ),
            r.long_encoding == self.long_encoding,
    {
        let mut truncated: [u8; 2] = self.protected;
        let transformed = encrypter.transform(&mut truncated, ciphertext);
        assert(transformed is Ok);
        if !self.long_encoding {
            truncated[1] = 0;
        }
        assert(truncated@ =~= padded(
            encrypter.transformed(self.protected@, ciphertext@)->Ok_0,
            self.long_encoding,
        ));
        TruncatedRecordSequenceNumber { truncated, long_encoding: self.long_encoding }
    }

    /// Encode the protected sequence number into the provided slice.
    pub fn encode(&self, into: &mut [u8])
        requires
            old(into)@.len() >= if self.long_encoding { 2int } else { 1int },
        ensures
            final(into)@ == number_written(self.protected@, self.long_encoding, old(into)@),
    {
        write_number(&self.protected, self.long_encoding, into);
    }
}

/// Deprotected, truncated DTLS record sequence number.
///
/// This is the result of deprotecting a [`ProtectedRecordSequenceNumber`] from
/// a DTLS 1.3 unified header and never appears in an encoded message.
#[derive(Clone, Copy, Debug)]
pub struct TruncatedRecordSequenceNumber {
    /// The truncated sequence number.
    ///
    /// Padded with a single 0 if the original encoded number was 1 byte long.
    pub truncated: [u8; 2],
    /// Whether the sequence number was encoded in the long form.
    ///
    /// The long form is 2 bytes, the short form is 1. DTLS 1.3 unified headers
    /// allow either encoding.
    pub long_encoding: bool,
}

/// How far apart two numbers are.
pub open spec fn distance(a: int, b: int) -> int {
    if a < b {
        b - a
    } else {
        a - b
    }
}

/// Whether `full` is at least as good a reconstruction of `value` as `other`.
spec fn is_closest(highest: int, value: int, modulus: int, full: int, other: int) -> bool {
    &&& full % modulus == value
    &&& other % modulus == value ==> {
        ||| distance(full, highest + 1) < distance(other, highest + 1)
        ||| distance(full, highest + 1) == distance(other, highest + 1) && (other == full || full
            / modulus == highest / modulus)
    }
}

/// The number with the given low 16 bits that is closest to `highest + 1`.
fn closest_long(highest: u64, value: u64) -> (r: u64)
    requires
        highest < u64::MAX,
        value < 0x1_0000,
    ensures
        forall|other: u64|
            #[trigger] is_closest(highest as int, value as int, 0x1_0000, r as int, other as int),
{
    let expected: u64 = highest + 1;
    // First candidate: the highest sequence number with its low bits replaced.
    let same: u64 = highest / 0x1_0000 * 0x1_0000 + value;
    // Other candidates: one step below and one step above.
    if same > expected && same - expected > 0x8000 && same >= 0x1_0000 {
        same - 0x1_0000
    } else if expected > same && expected - same > 0x8000 && same <= u64::MAX - 0x1_0000 {
        same + 0x1_0000
    } else {
        same
    }
}

/// The number with the given low 8 bits that is closest to `highest + 1`.
fn closest_short(highest: u64, value: u64) -> (r: u64)
    requires
        highest < u64::MAX,
        value < 0x100,
    ensures
        forall|other: u64|
            #[trigger] is_closest(highest as int, value as int, 0x100, r as int, other as int),
{
    let expected: u64 = highest + 1;
    let same: u64 = highest / 0x100 * 0x100 + value;
    if same > expected && same - expected > 0x80 && same >= 0x100 {
        same - 0x100
    } else if expected > same && expected - same > 0x80 && same <= u64::MAX - 0x100 {
        same + 0x100
    } else {
        same
    }
}

impl TruncatedRecordSequenceNumber {
    /// The part of the sequence number that was kept.
    pub open spec fn value(self) -> int {
        if self.long_encoding {
            self.truncated@[0] * 256 + self.truncated@[1]
        } else {
            self.truncated@[0] as int
        }
    }

    /// The number of values that the truncated sequence number can take.
    pub open spec fn modulus(self) -> int {
        if self.long_encoding {
            0x1_0000
        } else {
            0x100
        }
    }

    /// Whether truncating `full` to as many bits gives this number.
    pub open spec fn is_truncation_of(self, full: u64) -> bool {
        full as int % self.modulus() == self.value()
    }

    /// Whether `full` is, of all sequence numbers that this could be the
    /// truncation of, the one that is numerically closest to one plus `highest`.
    /// Of two that are equally close, it is the one that differs from `highest`
    /// in the truncated part alone.
    pub open spec fn reconstructs_to(self, highest: u64, full: u64) -> bool {
        &&& self.is_truncation_of(full)
        &&& forall|other: u64| #[trigger]
            self.is_truncation_of(other) ==> {
                ||| distance(full as int, highest + 1) < distance(other as int, highest + 1)
                ||| distance(full as int, highest + 1) == distance(other as int, highest + 1) && (
                other == full || full as int / self.modulus() == highest as int / self.modulus())
            }
    }

    /// Encode the truncated sequence number into the provided slice.
    pub fn encode(&self, into: &mut [u8])
        requires
            old(into)@.len() >= if self.long_encoding { 2int } else { 1int },
        ensures
            final(into)@ == number_written(self.truncated@, self.long_encoding, old(into)@),
    {
        write_number(&self.truncated, self.long_encoding, into);
    }

    /// Reconstruct the truncated sequence number into
    /// [`FullRecordSequenceNumber`].
    ///
    /// RFC 9147, section 4.2.2:
    ///
    /// > [I]mplementations SHOULD reconstruct the sequence number by computing the full
    /// > sequence number which is numerically closest to one plus the sequence number of
    /// > the highest successfully deprotected record in the current epoch.
    pub fn reconstruct(&self, highest_seq: FullRecordSequenceNumber) -> (r:
        FullRecordSequenceNumber)
        requires
            highest_seq.0 < u64::MAX,
        ensures
            self.reconstructs_to(highest_seq.0, r.0),
    {
        let r: u64 = if self.long_encoding {
            closest_long(
                highest_seq.0,
                self.truncated[0] as u64 * 256 + self.truncated[1] as u64,
            )
        } else {
            closest_short(highest_seq.0, self.truncated[0] as u64)
        };
        proof {
            let modulus = self.modulus();
            assert(is_closest(highest_seq.0 as int, self.value(), modulus, r as int, r as int));
            assert forall|other: u64| #[trigger] self.is_truncation_of(other) implies {
                ||| distance(r as int, highest_seq.0 + 1) < distance(
                    other as int,
                    highest_seq.0 + 1,
                )
                ||| distance(r as int, highest_seq.0 + 1) == distance(
                    other as int,
                    highest_seq.0 + 1,
                ) && (other == r || r as int / self.modulus() == highest_seq.0 as int
                    / self.modulus())
            } by {
                assert(is_closest(
                    highest_seq.0 as int,
                    self.value(),
                    modulus,
                    r as int,
                    other as int,
                ));
            }
        }
        FullRecordSequenceNumber(r)
    }

    /// Protect (encrypt) a truncated sequence number.
    pub fn protect(
        &self,
        encrypter: &Box<dyn RecordSequenceNumberEncrypter>,
        ciphertext: &[u8],
    ) -> (r: ProtectedRecordSequenceNumber)
        requires
            encrypter.transformed(self.truncated@, ciphertext@) is Ok,
        ensures
            r.protected@ == padded(
                encrypter.transformed(self.truncated@, ciphertext@)->Ok_0,
                self.long_encoding,
            ),
            r.long_encoding == self.long_encoding,
    {
        let mut protected: [u8; 2] = self.truncated;
        let transformed = encrypter.transform(&mut protected, ciphertext);
        assert(transformed is Ok);
        if !self.long_encoding {
            protected[1] = 0;
        }
        assert(protected@ =~= padded(
            encrypter.transformed(self.truncated@, ciphertext@)->Ok_0,
            self.long_encoding,
        ));
        ProtectedRecordSequenceNumber { protected, long_encoding: self.long_encoding }
    }
}

/// A sequence number that was truncated is reconstructed to itself as long as
/// it is less than half the range of the truncated number away from the one
/// that is expected next.
pub proof fn law_truncated_number_is_reconstructed(
    full: FullRecordSequenceNumber,
    truncated: TruncatedRecordSequenceNumber,
    highest: FullRecordSequenceNumber,
    reconstructed: FullRecordSequenceNumber,
)
    requires
        full.truncates_to(truncated),
        truncated.reconstructs_to(highest.0, reconstructed.0),
        distance(full.0 as int, highest.0 + 1) < 0x8000,
    ensures
        reconstructed == full,
{
    reveal_with_fuel(be_bytes, 3);
    assert(truncated.truncated@[0] == (full.0 / 256) % 256);
    assert(truncated.truncated@[1] == full.0 % 256);
    assert(truncated.is_truncation_of(full.0));
    assert(full.0 as int % 0x1_0000 == reconstructed.0 as int % 0x1_0000);
}

/// There is only one reconstruction.
pub proof fn law_reconstruction_is_unique(
    truncated: TruncatedRecordSequenceNumber,
    highest: FullRecordSequenceNumber,
    a: FullRecordSequenceNumber,
    b: FullRecordSequenceNumber,
)
    requires
        truncated.reconstructs_to(highest.0, a.0),
        truncated.reconstructs_to(highest.0, b.0),
    ensures
        a == b,
{
    assert(truncated.is_truncation_of(a.0));
    assert(truncated.is_truncation_of(b.0));
}

/// The transform combines both bytes of a number with those of a mask.
pub open spec fn masks(
    encrypter: &Box<dyn RecordSequenceNumberEncrypter>,
    ciphertext: Seq<u8>,
    mask: Seq<u8>,
) -> bool {
    forall|x: Seq<u8>|
        x.len() == 2 ==> #[trigger] encrypter.transformed(x, ciphertext) == Ok::<Seq<u8>, Error>(
            seq![x[0] ^ mask[0], x[1] ^ mask[1]],
        )
}

/// The transform undoes itself.
pub open spec fn undoes_itself(
    encrypter: &Box<dyn RecordSequenceNumberEncrypter>,
    ciphertext: Seq<u8>,
) -> bool {
    forall|x: Seq<u8>|
        x.len() == 2 ==> {
            &&& (#[trigger] encrypter.transformed(x, ciphertext)) is Ok
            &&& encrypter.transformed(x, ciphertext)->Ok_0.len() == 2
            &&& encrypter.transformed(encrypter.transformed(x, ciphertext)->Ok_0, ciphertext)
                == Ok::<Seq<u8>, Error>(x)
        }
}

/// Deprotecting a protected sequence number gives the truncated number back. With
/// numbers of two bytes it is enough that the transform undoes itself. Numbers of one
/// byte are padded with a single 0 before and after, so that both bytes have to be
/// transformed by themselves, as a mask does.
pub proof fn law_deprotect_undoes_protect(
    encrypter: &Box<dyn RecordSequenceNumberEncrypter>,
    ciphertext: Seq<u8>,
    mask: Seq<u8>,
    truncated: TruncatedRecordSequenceNumber,
    protected: ProtectedRecordSequenceNumber,
    deprotected: TruncatedRecordSequenceNumber,
)
    requires
        masks(encrypter, ciphertext, mask) || truncated.long_encoding && undoes_itself(
            encrypter,
            ciphertext,
        ),
        !truncated.long_encoding ==> truncated.truncated[1] == 0,
        protected.protected@ == padded(
            encrypter.transformed(truncated.truncated@, ciphertext)->Ok_0,
            truncated.long_encoding,
        ),
        protected.long_encoding == truncated.long_encoding,
        deprotected.truncated@ == padded(
            encrypter.transformed(protected.protected@, ciphertext)->Ok_0,
            protected.long_encoding,
        ),
        deprotected.long_encoding == protected.long_encoding,
    ensures
        deprotected.truncated@ == truncated.truncated@,
        deprotected.long_encoding == truncated.long_encoding,
        !truncated.long_encoding ==> protected.protected@ == seq![
            truncated.truncated@[0] ^ mask[0],
            0,
        ],
{
    let t = truncated.truncated@;
    if masks(encrypter, ciphertext, mask) {
        assert forall|x: u8, m: u8| #[trigger] ((x ^ m) ^ m) == x by {
            assert((x ^ m) ^ m == x) by (bit_vector);
        }
    } else {
        assert(protected.protected@ =~= encrypter.transformed(t, ciphertext)->Ok_0);
    }
    assert(deprotected.truncated@ =~= t);
}

/// Sequence number of a DTLS record, possibly encrypted.
///
/// Not to be confused with a [`HandshakeSequenceNumber`].
#[derive(Clone, Copy, Debug)]
pub enum RecordSequenceNumber {
    /// Encrypted, truncated sequence number in a unified header.
    Protected(ProtectedRecordSequenceNumber),
    Full(FullRecordSequenceNumber),
}

/// Number of a record in an acknowledgement.
///
/// This is a 128 bit value consisting of the record epoch and sequence numbers.
/// It is used exclusively in `Ack` messages. Epoch and sequence numbers in record
/// headers are represented differently based on protocol version.
#[derive(Clone, Copy, Debug, PartialEq, Eq, Structural, PartialOrd, Ord, Hash)]
pub struct AckRecordSequenceNumber {
    pub epoch: Epoch,
    pub seq: FullRecordSequenceNumber,
}

impl AckRecordSequenceNumber {
    /// The 16 bytes that encode this record number.
    pub open spec fn encoding(self) -> Seq<u8> {
        be_bytes(self.epoch.number as nat, 8) + be_bytes(self.seq.0 as nat, 8)
    }

    /// The record number that 16 bytes encode.
    pub open spec fn of(bytes: Seq<u8>) -> Self {
        AckRecordSequenceNumber {
            epoch: Epoch { number: be_value(bytes.subrange(0, 8)) as u64 },
            seq: FullRecordSequenceNumber(be_value(bytes.subrange(8, 16)) as u64),
        }
    }

    /// How many bytes are looked at in reading a record number.
    pub open spec fn progress(bytes: Seq<u8>) -> int {
        if bytes.len() < 8 {
            0
        } else if bytes.len() < 16 {
            8
        } else {
            16
        }
    }

    pub fn encode(&self, bytes: &mut Vec<u8>)
        ensures
            final(bytes)@ == old(bytes)@ + self.encoding(),
    {
        // Be careful to encode epoch number as 64 bits, not 16 bits as in plaintext record header.
        encode_be(self.epoch.number(), 8, bytes);
        encode_be(self.seq.0, 8, bytes);
        assert(bytes@ =~= old(bytes)@ + self.encoding());
    }

    pub fn read(r: &mut Reader<'_>) -> (res: Result<Self, InvalidMessage>)
        requires
            old(r).wf(),
        ensures
            final(r).wf(),
            final(r).rest() == old(r).rest().skip(Self::progress(old(r).rest())),
            res == (if old(r).rest().len() < 16 {
                Err::<Self, InvalidMessage>(InvalidMessage::MissingData("u64"))
            } else {
                Ok(Self::of(old(r).rest()))
            }),
    {
        let ghost b = r.rest();
        // Epoch is serialized as 64 bits in struct RecordNumber, though it is 16 bits elsewhere.
        let epoch = match r.read_be(8, "u64") {
            Ok(number) => Epoch::new(number),
            Err(e) => {
                assert(b.skip(0) =~= b);
                return Err(e);
            },
        };
        let seq = match r.read_be(8, "u64") {
            Ok(number) => FullRecordSequenceNumber(number),
            Err(e) => return Err(e),
        };
        assert(b.take(8) =~= b.subrange(0, 8));
        assert(b.skip(8).take(8) =~= b.subrange(8, 16));
        assert(r.rest() =~= b.skip(16));
        Ok(AckRecordSequenceNumber { epoch, seq })
    }
}

/// The encodings of all record numbers, one behind the other.
pub open spec fn ack_entries(records: Seq<AckRecordSequenceNumber>) -> Seq<u8>
    decreases records.len(),
{
    if records.len() == 0 {
        Seq::empty()
    } else {
        ack_entries(records.drop_last()) + records.last().encoding()
    }
}

/// The record numbers that `body` holds, 16 bytes each.
pub open spec fn ack_records(body: Seq<u8>) -> Seq<AckRecordSequenceNumber> {
    Seq::new(
        body.len() / 16,
        |i: int| AckRecordSequenceNumber::of(body.subrange(16 * i, 16 * i + 16)),
    )
}

/// The encoding of an acknowledgement: a length in bytes, then the record
/// numbers.
pub open spec fn ack_encoding(records: Seq<AckRecordSequenceNumber>) -> Seq<u8> {
    be_bytes(16 * records.len(), 2) + ack_entries(records)
}

/// The acknowledgement that `bytes` hold.
pub open spec fn ack_of(bytes: Seq<u8>) -> Result<Seq<AckRecordSequenceNumber>, InvalidMessage> {
    let n = be_value(bytes.take(2)) as int;
    if bytes.len() < 2 {
        Err(InvalidMessage::MissingData("u16"))
    } else if bytes.len() < 2 + n {
        Err(InvalidMessage::MessageTooShort)
    } else if n % 16 != 0 {
        Err(InvalidMessage::MissingData("u64"))
    } else if bytes.len() > 2 + n {
        Err(InvalidMessage::TrailingData("Ack"))
    } else {
        Ok(ack_records(bytes.skip(2)))
    }
}

/// Every record number takes 16 bytes.
proof fn lemma_ack_entries_len(records: Seq<AckRecordSequenceNumber>)
    ensures
        ack_entries(records).len() == 16 * records.len(),
    decreases records.len(),
{
    broadcast use lemma_be_bytes_len;

    if records.len() > 0 {
        lemma_ack_entries_len(records.drop_last());
    }
}

/// A record number is read back as it was written.
proof fn lemma_ack_record_round_trip(record: AckRecordSequenceNumber)
    ensures
        record.encoding().len() == 16,
        AckRecordSequenceNumber::of(record.encoding()) == record,
{
    broadcast use lemma_be_bytes_len;

    lemma_pow256_values();
    lemma_be_value_of_bytes(record.epoch.number as nat, 8);
    lemma_be_value_of_bytes(record.seq.0 as nat, 8);
    assert(record.encoding().subrange(0, 8) =~= be_bytes(record.epoch.number as nat, 8));
    assert(record.encoding().subrange(8, 16) =~= be_bytes(record.seq.0 as nat, 8));
}

/// Record numbers are read back as they were written.
proof fn lemma_ack_records_round_trip(records: Seq<AckRecordSequenceNumber>)
    ensures
        ack_records(ack_entries(records)) == records,
    decreases records.len(),
{
    lemma_ack_entries_len(records);
    if records.len() > 0 {
        let front = records.drop_last();
        lemma_ack_records_round_trip(front);
        lemma_ack_entries_len(front);
        lemma_ack_record_round_trip(records.last());
        let all = ack_entries(records);
        assert forall|i: int| 0 <= i < records.len() implies ack_records(all)[i] == records[i] by {
            if i < front.len() {
                assert(all.subrange(16 * i, 16 * i + 16) =~= ack_entries(front).subrange(
                    16 * i,
                    16 * i + 16,
                ));
                assert(ack_records(ack_entries(front))[i] == front[i]);
            } else {
                assert(all.subrange(16 * i, 16 * i + 16) =~= records.last().encoding());
            }
        }
    }
    assert(ack_records(ack_entries(records)) =~= records);
}

/// An acknowledgement is read back as it was written.
pub proof fn law_ack_round_trip(records: Seq<AckRecordSequenceNumber>)
    requires
        16 * records.len() <= u16::MAX,
    ensures
        ack_of(ack_encoding(records)) == Ok::<_, InvalidMessage>(records),
{
    broadcast use lemma_be_bytes_len;

    lemma_pow256_values();
    lemma_be_value_of_bytes(16 * records.len(), 2);
    lemma_ack_entries_len(records);
    lemma_ack_records_round_trip(records);
    assert(ack_encoding(records).take(2) =~= be_bytes(16 * records.len(), 2));
    assert(ack_encoding(records).skip(2) =~= ack_entries(records));
}

/// A DTLS 1.3 acknowledgement.
#[derive(Debug)]
pub struct AckPayload {
    pub record_numbers: Vec<AckRecordSequenceNumber>,
}

impl AckPayload {
    /// Appends a length of two bytes and the record numbers.
    pub fn encode(&self, bytes: &mut Vec<u8>)
        requires
            16 * self.record_numbers@.len() <= u16::MAX,
        ensures
            final(bytes)@ == old(bytes)@ + ack_encoding(self.record_numbers@),
    {
        let ghost records = self.record_numbers@;
        encode_be(16 * self.record_numbers.len() as u64, 2, bytes);
        let mut i: usize = 0;
        assert(bytes@ =~= old(bytes)@ + be_bytes(16 * records.len(), 2) + ack_entries(
            records.take(0),
        ));
        while i < self.record_numbers.len()
            invariant
                i <= records.len(),
                records == self.record_numbers@,
                bytes@ == old(bytes)@ + be_bytes(16 * records.len(), 2) + ack_entries(
                    records.take(i as int),
                ),
            decreases records.len() - i,
        {
            self.record_numbers[i].encode(bytes);
            proof {
                assert(records.take(i + 1).drop_last() =~= records.take(i as int));
                assert(bytes@ =~= old(bytes)@ + be_bytes(16 * records.len(), 2) + ack_entries(
                    records.take(i + 1),
                ));
            }
            i = i + 1;
        }
        assert(records.take(i as int) =~= records);
        assert(bytes@ =~= old(bytes)@ + ack_encoding(records));
    }

    /// Reads an acknowledgement that takes up all of the input.
    pub fn read(r: &mut Reader<'_>) -> (res: Result<Self, InvalidMessage>)
        requires
            old(r).wf(),
        ensures
            final(r).wf(),
            match (res, ack_of(old(r).rest())) {
                (Ok(ack), Ok(records)) => ack.record_numbers@ == records,
                (Err(e), Err(expected)) => e == expected,
                _ => false,
            },
            ({
                let b = old(r).rest();
                final(r).rest() == if b.len() < 2 {
                    b
                } else if b.len() < 2 + be_value(b.take(2)) {
                    b.skip(2)
                } else {
                    b.skip(2 + be_value(b.take(2)) as int)
                }
            }),
    {
        let ghost b = r.rest();
        let len: usize = match r.read_be(2, "u16") {
            Ok(len) => {
                proof {
                    lemma_pow256_values();
                }
                len as usize
            },
            Err(e) => return Err(e),
        };
        let body: &[u8] = match r.take(len) {
            Some(body) => body,
            None => return Err(InvalidMessage::MessageTooShort),
        };
        assert(r.rest() =~= b.skip(2 + len));
        assert(body@ =~= b.subrange(2, 2 + len));
        let mut sub = Reader::new(body);
        let mut record_numbers: Vec<AckRecordSequenceNumber> = Vec::new();
        let ghost mut done: int = 0;
        assert(body@.skip(0) =~= body@);
        while sub.any_left()
            invariant
                sub.wf(),
                len == body@.len(),
                0 <= done <= len,
                done == 16 * record_numbers@.len(),
                sub.rest() == body@.skip(done),
                body@ == b.subrange(2, 2 + len),
                b.len() >= 2 + len,
                len == be_value(b.take(2)),
                r.wf(),
                r.rest() == b.skip(2 + len),
                b == old(r).rest(),
                forall|i: int|
                    0 <= i < record_numbers@.len() ==> record_numbers@[i]
                        == AckRecordSequenceNumber::of(
                        #[trigger] body@.subrange(16 * i, 16 * i + 16),
                    ),
            decreases sub.rest().len(),
        {
            match AckRecordSequenceNumber::read(&mut sub) {
                Ok(record) => {
                    proof {
                        let window = body@.subrange(done, done + 16);
                        assert(body@.skip(done).subrange(0, 8) =~= window.subrange(0, 8));
                        assert(body@.skip(done).subrange(8, 16) =~= window.subrange(8, 16));
                        assert(sub.rest() =~= body@.skip(done + 16));
                        done = done + 16;
                    }
                    record_numbers.push(record);
                },
                Err(e) => {
                    return Err(e);
                },
            }
        }
        if r.any_left() {
            return Err(InvalidMessage::TrailingData("Ack"));
        }
        proof {
            assert(b.skip(2) =~= body@);
            assert(record_numbers@ =~= ack_records(body@));
        }
        Ok(AckPayload { record_numbers })
    }
}

/// The contents of a fragment of a handshake message.
pub struct HandshakeFragment {
    pub msg_type: HandshakeType,
    pub length: u32,
    pub message_seq: HandshakeSequenceNumber,
    pub fragment_offset: u32,
    pub fragment_length: u32,
    pub fragment: Seq<u8>,
}

impl HandshakeFragment {
    /// The bytes that encode the fields in front of the fragment itself.
    pub open spec fn header(self) -> Seq<u8> {
        seq![self.msg_type.code()] + be_bytes(self.length as nat, 3) + be_bytes(
            self.message_seq as nat,
            2,
        ) + be_bytes(self.fragment_offset as nat, 3) + be_bytes(self.fragment_length as nat, 3)
    }

    /// The bytes that encode the fragment.
    pub open spec fn encoding(self) -> Seq<u8> {
        self.header() + self.fragment
    }

    /// The numbers fit into their fields, and the length is that of the bytes.
    pub open spec fn is_valid(self) -> bool {
        &&& self.msg_type.is_canonical()
        &&& self.length < pow256(3)
        &&& self.fragment_offset < pow256(3)
        &&& self.fragment_length < pow256(3)
        &&& self.fragment.len() == self.fragment_length
    }

    /// The fragment that `bytes` begin with.
    pub open spec fn of(bytes: Seq<u8>) -> Result<Self, InvalidMessage> {
        let fragment_length = be_value(bytes.subrange(9, 12)) as u32;
        if bytes.len() < 1 {
            Err(InvalidMessage::MissingData("HandshakeType"))
        } else if bytes.len() < 4 {
            Err(InvalidMessage::MissingData("u24"))
        } else if bytes.len() < 6 {
            Err(InvalidMessage::MissingData("u16"))
        } else if bytes.len() < 12 {
            Err(InvalidMessage::MissingData("u24"))
        } else if bytes.len() < 12 + fragment_length {
            Err(InvalidMessage::MessageTooShort)
        } else {
            Ok(
                HandshakeFragment {
                    msg_type: HandshakeType::of(bytes[0]),
                    length: be_value(bytes.subrange(1, 4)) as u32,
                    message_seq: be_value(bytes.subrange(4, 6)) as u16,
                    fragment_offset: be_value(bytes.subrange(6, 9)) as u32,
                    fragment_length,
                    fragment: bytes.subrange(12, 12 + fragment_length),
                },
            )
        }
    }

    /// How many bytes are looked at in reading a fragment.
    pub open spec fn progress(bytes: Seq<u8>) -> int {
        if bytes.len() < 1 {
            0
        } else if bytes.len() < 4 {
            1
        } else if bytes.len() < 6 {
            4
        } else if bytes.len() < 9 {
            6
        } else if bytes.len() < 12 {
            9
        } else {
            match Self::of(bytes) {
                Ok(fragment) => 12 + fragment.fragment_length,
                Err(_) => 12,
            }
        }
    }
}

/// Fragment of a DTLS handshake message used in Datagram TLS 1.2 and 1.3.
#[derive(Debug)]
pub struct DtlsHandshakeFragment<'a> {
    pub msg_type: HandshakeType,
    /// Total length of the message this is a fragment of. The value will be the
    /// same in all fragments of a given message.
    pub length: U24,
    /// Sequence number of the message this is a fragment of. The value will be
    /// the same in all fragments of a given message.
    pub message_seq: HandshakeSequenceNumber,
    /// The offset into the original message where this fragment begins.
    /// Equivalently, the sum of the lengths of all previous fragments.
    pub fragment_offset: U24,
    /// The length of this fragment.
    pub fragment_length: U24,
    /// The fragment. Its length must be equal to `fragment_length`.
    pub fragment: Payload<'a>,
}

impl<'a> View for DtlsHandshakeFragment<'a> {
    type V = HandshakeFragment;

    open spec fn view(&self) -> HandshakeFragment {
        HandshakeFragment {
            msg_type: self.msg_type,
            length: self.length.0,
            message_seq: self.message_seq,
            fragment_offset: self.fragment_offset.0,
            fragment_length: self.fragment_length.0,
            fragment: self.fragment@,
        }
    }
}

impl<'a> DtlsHandshakeFragment<'a> {
    /// Appends the header and the fragment.
    pub fn encode(&self, bytes: &mut Vec<u8>)
        ensures
            final(bytes)@ == old(bytes)@ + self@.encoding(),
    {
        bytes.push(self.msg_type.to_u8());
        encode_be(self.length.0 as u64, 3, bytes);
        encode_be(self.message_seq as u64, 2, bytes);
        encode_be(self.fragment_offset.0 as u64, 3, bytes);
        encode_be(self.fragment_length.0 as u64, 3, bytes);
        self.fragment.encode(bytes);
        assert(bytes@ =~= old(bytes)@ + self@.encoding());
    }

    /// The header and the fragment.
    pub fn get_encoding(&self) -> (r: Vec<u8>)
        ensures
            r@ == self@.encoding(),
    {
        let mut bytes: Vec<u8> = Vec::new();
        self.encode(&mut bytes);
        assert(bytes@ =~= self@.encoding());
        bytes
    }

    /// Reads a fragment off the front of the input.
    pub fn read(r: &mut Reader<'a>) -> (res: Result<Self, InvalidMessage>)
        requires
            old(r).wf(),
        ensures
            final(r).wf(),
            match (res, HandshakeFragment::of(old(r).rest())) {
                (Ok(fragment), Ok(expected)) => fragment@ == expected && fragment@.is_valid(),
                (Err(e), Err(expected)) => e == expected,
                _ => false,
            },
            final(r).rest() == old(r).rest().skip(HandshakeFragment::progress(old(r).rest())),
    {
        let ghost b = r.rest();
        proof {
            lemma_pow256_values();
            assert(b.skip(0) =~= b);
        }
        let msg_type = match r.read_be(1, "HandshakeType") {
            Ok(code) => {
                proof {
                    assert(b.take(1).drop_last() =~= Seq::empty());
                    assert(be_value(b.take(1)) == b[0]) by {
                        reveal_with_fuel(be_value, 2);
                    }
                }
                HandshakeType::from_u8(code as u8)
            },
            Err(e) => return Err(e),
        };
        let length: u32 = match r.read_be(3, "u24") {
            Ok(value) => value as u32,
            Err(e) => return Err(e),
        };
        assert(b.skip(1).take(3) =~= b.subrange(1, 4));
        assert(r.rest() =~= b.skip(4));
        let message_seq: u16 = match r.read_be(2, "u16") {
            Ok(value) => value as u16,
            Err(e) => return Err(e),
        };
        assert(b.skip(4).take(2) =~= b.subrange(4, 6));
        assert(r.rest() =~= b.skip(6));
        let fragment_offset: u32 = match r.read_be(3, "u24") {
            Ok(value) => value as u32,
            Err(e) => return Err(e),
        };
        assert(b.skip(6).take(3) =~= b.subrange(6, 9));
        assert(r.rest() =~= b.skip(9));
        let fragment_length: u32 = match r.read_be(3, "u24") {
            Ok(value) => value as u32,
            Err(e) => return Err(e),
        };
        assert(b.skip(9).take(3) =~= b.subrange(9, 12));
        assert(r.rest() =~= b.skip(12));
        let fragment = match r.take(fragment_length as usize) {
            Some(bytes) => Payload::Borrowed(bytes),
            None => return Err(InvalidMessage::MessageTooShort),
        };
        assert(fragment@ =~= b.subrange(12, 12 + fragment_length));
        assert(r.rest() =~= b.skip(12 + fragment_length));
        Ok(
            DtlsHandshakeFragment {
                msg_type,
                length: U24(length),
                message_seq,
                fragment_offset: U24(fragment_offset),
                fragment_length: U24(fragment_length),
                fragment,
            },
        )
    }

    /// Reads a fragment that takes up all of `bytes`.
    pub fn read_bytes(bytes: &'a [u8]) -> (res: Result<Self, InvalidMessage>)
        ensures
            match HandshakeFragment::of(bytes@) {
                Err(expected) => res matches Err(e) && e == expected,
                Ok(expected) => if bytes@.len() > 12 + expected.fragment_length {
                    res matches Err(e) && e == InvalidMessage::TrailingData("read_bytes")
                } else {
                    res matches Ok(fragment) && fragment@ == expected
                },
            },
    {
        let mut r = Reader::new(bytes);
        match Self::read(&mut r) {
            Ok(fragment) => {
                if r.any_left() {
                    Err(InvalidMessage::TrailingData("read_bytes"))
                } else {
                    Ok(fragment)
                }
            },
            Err(e) => Err(e),
        }
    }
}

/// The header of a handshake fragment is twelve bytes long.
pub proof fn lemma_handshake_header_len(fragment: HandshakeFragment)
    ensures
        fragment.header().len() == DTLS_HANDSHAKE_HEADER_SIZE,
{
    broadcast use lemma_be_bytes_len;

}

/// A fragment is read back as it was written, whatever comes behind it.
pub proof fn law_handshake_fragment_round_trip(fragment: HandshakeFragment, behind: Seq<u8>)
    requires
        fragment.is_valid(),
    ensures
        HandshakeFragment::of(fragment.encoding() + behind) == Ok::<_, InvalidMessage>(fragment),
        HandshakeFragment::progress(fragment.encoding() + behind) == fragment.encoding().len(),
{
    broadcast use lemma_be_bytes_len;

    lemma_pow256_values();
    lemma_handshake_header_len(fragment);
    lemma_be_value_of_bytes(fragment.length as nat, 3);
    lemma_be_value_of_bytes(fragment.message_seq as nat, 2);
    lemma_be_value_of_bytes(fragment.fragment_offset as nat, 3);
    lemma_be_value_of_bytes(fragment.fragment_length as nat, 3);
    let b = fragment.encoding() + behind;
    assert(b.subrange(1, 4) =~= be_bytes(fragment.length as nat, 3));
    assert(b.subrange(4, 6) =~= be_bytes(fragment.message_seq as nat, 2));
    assert(b.subrange(6, 9) =~= be_bytes(fragment.fragment_offset as nat, 3));
    assert(b.subrange(9, 12) =~= be_bytes(fragment.fragment_length as nat, 3));
    assert(b.subrange(12, 12 + fragment.fragment_length) =~= fragment.fragment);
}

/// What is known of a record when its header is encoded.
#[derive(Clone, Copy, Debug)]
pub struct EncodingContext {
    pub epoch: Epoch,
    pub record_seq: FullRecordSequenceNumber,
}

const UNIFIED_HEADER_FIXED_BITS: u8 = 0b0010_0000;

const UNIFIED_HEADER_FIXED_BITS_MASK: u8 = 0b1110_0000;

const UNIFIED_HEADER_C_BIT_MASK: u8 = 0b0001_0000;

const UNIFIED_HEADER_S_BIT_MASK: u8 = 0b0000_1000;

const UNIFIED_HEADER_L_BIT_MASK: u8 = 0b0000_0100;

const UNIFIED_HEADER_EE_BITS_MASK: u8 = 0b0000_0011;

/// The first three bits of a unified header are 001.
pub open spec fn has_fixed_bits(byte: u8) -> bool {
    byte & 0b1110_0000 == 0b0010_0000
}

/// The "C" bit: a connection ID is present.
pub open spec fn has_c_bit(byte: u8) -> bool {
    byte & 0b0001_0000 != 0
}

/// The "S" bit: the sequence number has two bytes rather than one.
pub open spec fn has_s_bit(byte: u8) -> bool {
    byte & 0b0000_1000 != 0
}

/// The "L" bit: the length is present.
pub open spec fn has_l_bit(byte: u8) -> bool {
    byte & 0b0000_0100 != 0
}

/// The "EE" bits: the low two bits of the epoch.
pub open spec fn epoch_bits(byte: u8) -> u8 {
    byte & 0b0000_0011
}

/// Whether `byte` is the first byte of a unified header, not a content type.
pub fn is_unified_header(byte: u8) -> (r: bool)
    ensures
        r == has_fixed_bits(byte),
{
    byte & UNIFIED_HEADER_FIXED_BITS_MASK == UNIFIED_HEADER_FIXED_BITS
}

/// DTLS 1.3 unified record header, specified in [RFC 9147 section 4][1].
///
/// The first byte of the unified header is a bitfield describing the remainder
/// of the header:
///
/// ```text
///  0 1 2 3 4 5 6 7
/// +-+-+-+-+-+-+-+-+
/// |0|0|1|C|S|L|E E|
/// +-+-+-+-+-+-+-+-+
/// ```
///
/// The first three bits are 001 to distinguish from content type fields of
/// records in other protocols.
/// "C" bit indicates whether the connection ID is present in the header. Its
/// length will have previously been negotiated during the handshake.
/// "S" bit indicates size of the sequence number.
/// "L" bit indicates whether length is present.
/// "EE" bits are low two bits of the epoch of the encrypted message.
///
/// [1]: https://datatracker.ietf.org/doc/html/rfc9147#section-4
#[derive(Debug)]
pub struct UnifiedHeader<S> {
    /// An absent connection ID is represented by an empty `Vec`. They are always
    /// absent for now.
    pub connection_id: Vec<u8>,
    pub epoch: Epoch,
    pub sequence: S,
    pub length: Option<u16>,
}

impl<S> UnifiedHeader<S> {
    /// There is no connection ID.
    pub open spec fn wf(&self) -> bool {
        self.connection_id@.len() == 0
    }

    /// The length as it is encoded.
    pub fn encoded_len(&self) -> (r: Option<[u8; 2]>)
        ensures
            r is Some <==> self.length is Some,
            r matches Some(bytes) ==> bytes@ == be_bytes(self.length->Some_0 as nat, 2),
    {
        match self.length {
            Some(length) => {
                let bytes: [u8; 2] = [(length / 256) as u8, (length % 256) as u8];
                proof {
                    reveal_with_fuel(be_bytes, 3);
                    assert(bytes@ =~= be_bytes(length as nat, 2));
                }
                Some(bytes)
            },
            None => None,
        }
    }
}

impl<S: Copy> UnifiedHeader<S> {
    pub fn sequence(&self) -> (r: S)
        ensures
            r == self.sequence,
    {
        self.sequence
    }
}

impl UnifiedHeader<TruncatedRecordSequenceNumber> {
    /// The first byte of the encoded header.
    pub open spec fn first_byte(&self) -> u8 {
        let with_s = 0b0010_0000u8 | 0b0000_1000u8;
        let with_l = if self.length is Some {
            with_s | 0b0000_0100u8
        } else {
            with_s
        };
        with_l | (self.epoch.number as u8)
    }

    /// The header in place of the first bytes of `old`.
    pub open spec fn written(&self, old: Seq<u8>) -> Seq<u8> {
        let front = seq![self.first_byte()] + number_written(
            self.sequence.truncated@,
            self.sequence.long_encoding,
            old.subrange(1, 3),
        );
        match self.length {
            Some(length) => front + be_bytes(length as nat, 2) + old.skip(5),
            None => front + old.skip(3),
        }
    }

    /// The header of a record with a payload of `len` bytes.
    pub fn new(len: u16, cx: EncodingContext) -> (r: Self)
        ensures
            r.wf(),
            r.epoch.number == cx.epoch.number % 4,
            cx.record_seq.truncates_to(r.sequence),
            r.length == Some(len),
    {
        // truncate epoch to 2 bits
        let epoch_low_bits = Epoch::new(cx.epoch.number() % 4);
        UnifiedHeader {
            connection_id: Vec::new(),
            epoch: epoch_low_bits,
            sequence: cx.record_seq.truncate(),
            length: Some(len),
        }
    }

    /// Writes the header over the first bytes of `bytes`.
    pub fn encode(&self, bytes: &mut [u8])
        requires
            self.wf(),
            self.epoch.number <= 0b11,
            old(bytes)@.len() >= if self.length is Some {
                5int
            } else {
                3int
            },
        ensures
            final(bytes)@ == self.written(old(bytes)@),
    {
        let mut bitfield: u8 = UNIFIED_HEADER_FIXED_BITS;
        // Always encode sequence number as 2 bytes for simplicity
        bitfield = bitfield | UNIFIED_HEADER_S_BIT_MASK;
        bytes[1] = self.sequence.truncated[0];
        if self.sequence.long_encoding {
            bytes[2] = self.sequence.truncated[1];
        }
        match self.encoded_len() {
            Some(length) => {
                bitfield = bitfield | UNIFIED_HEADER_L_BIT_MASK;
                bytes[3] = length[0];
                bytes[4] = length[1];
            },
            None => {},
        }
        bytes[0] = bitfield | (self.epoch.number() as u8);
        assert(bytes@ =~= self.written(old(bytes)@));
    }
}

/// What a unified header says.
pub struct UnifiedHeaderFields {
    pub epoch: Epoch,
    pub protected: Seq<u8>,
    pub long_encoding: bool,
    pub length: Option<u16>,
}

/// How many bytes the header takes whose first byte is `first`.
pub open spec fn unified_header_len(first: u8) -> int {
    1 + (if has_s_bit(first) {
        2int
    } else {
        1int
    }) + (if has_l_bit(first) {
        2int
    } else {
        0int
    })
}

/// The epoch with the low two bits `bits` that is nearest to `current`. Of two that
/// are equally near it is the one that differs from `current` in no other bits.
pub open spec fn nearest_epoch(current: u64, bits: u8) -> u64 {
    if current % 4 == 0 && bits == 3 && current > 0 {
        (current - 1) as u64
    } else if current % 4 == 3 && bits == 0 && current < u64::MAX {
        (current + 1) as u64
    } else {
        (current - current % 4 + bits) as u64
    }
}

/// No other epoch with the same low two bits is nearer, and of two that are equally
/// near the one that shares all other bits with the current epoch is taken.
pub proof fn law_inferred_epoch_is_nearest(current: u64, bits: u8, other: u64)
    requires
        bits < 4,
        other % 4 == bits,
    ensures
        nearest_epoch(current, bits) % 4 == bits,
        ({
            let r = nearest_epoch(current, bits);
            ||| distance(r as int, current as int) < distance(other as int, current as int)
            ||| distance(r as int, current as int) == distance(other as int, current as int) && (
            other == r || r / 4 == current / 4)
        }),
{
}

/// Infers an epoch from its low two bits.
fn infer_epoch(current: u64, bits: u8) -> (r: u64)
    requires
        bits < 4,
    ensures
        r == nearest_epoch(current, bits),
{
    if current % 4 == 0 && bits == 3 && current > 0 {
        current - 1
    } else if current % 4 == 3 && bits == 0 && current < u64::MAX {
        current + 1
    } else {
        current - current % 4 + bits as u64
    }
}

/// The unified header that a record begins with. The epoch that it stands for
/// is the one nearest to `current` that has the low bits from the header.
pub open spec fn unified_header(bytes: Seq<u8>, current: Epoch) -> Result<
    UnifiedHeaderFields,
    InvalidMessage,
> {
    let first = bytes[0];
    let long_encoding = has_s_bit(first);
    let number_end: int = if long_encoding {
        3
    } else {
        2
    };
    if bytes.len() < 1 {
        Err(InvalidMessage::MissingData("u8"))
    } else if !has_fixed_bits(first) {
        Err(InvalidMessage::InvalidDtls13UnifiedHeader)
    } else if bytes.len() < number_end {
        Err(InvalidMessage::MissingData("u8"))
    } else if bytes.len() < unified_header_len(first) {
        Err(InvalidMessage::MissingData("u16"))
    } else {
        Ok(
            UnifiedHeaderFields {
                epoch: Epoch { number: nearest_epoch(current.number, epoch_bits(first)) },
                protected: seq![
                    bytes[1],
                    if long_encoding {
                        bytes[2]
                    } else {
                        0
                    },
                ],
                long_encoding,
                length: if has_l_bit(first) {
                    Some(be_value(bytes.subrange(number_end, number_end + 2)) as u16)
                } else {
                    None
                },
            },
        )
    }
}

/// How many bytes are looked at in reading a unified header.
pub open spec fn unified_header_progress(bytes: Seq<u8>) -> int {
    let first = bytes[0];
    let number_end: int = if has_s_bit(first) {
        3
    } else {
        2
    };
    if bytes.len() < 1 {
        0
    } else if !has_fixed_bits(first) || bytes.len() < 2 {
        1
    } else if bytes.len() < number_end {
        2
    } else if bytes.len() < unified_header_len(first) {
        number_end
    } else {
        unified_header_len(first)
    }
}

/// The first bytes announce a connection ID, which is not supported.
pub open spec fn has_connection_id(bytes: Seq<u8>) -> bool {
    bytes.len() > 0 && has_fixed_bits(bytes[0]) && has_c_bit(bytes[0])
}

/// Whether `byte` begins a unified header that has a connection ID.
pub fn announces_connection_id(byte: u8) -> (r: bool)
    ensures
        r == (has_fixed_bits(byte) && has_c_bit(byte)),
{
    is_unified_header(byte) && byte & UNIFIED_HEADER_C_BIT_MASK != 0
}

impl UnifiedHeader<ProtectedRecordSequenceNumber> {
    /// Whether this header says what `fields` say.
    pub open spec fn says(&self, fields: UnifiedHeaderFields) -> bool {
        &&& self.wf()
        &&& self.epoch == fields.epoch
        &&& self.sequence.protected@ == fields.protected
        &&& self.sequence.long_encoding == fields.long_encoding
        &&& self.length == fields.length
    }

    /// Read a unified header from `r`.
    ///
    /// `current_epoch` is the epoch messages are expected to be in. It is used to
    /// infer the epoch of the record from its low bits.
    pub fn read(r: &mut Reader<'_>, current_epoch: Epoch) -> (res: Result<Self, InvalidMessage>)
        requires
            old(r).wf(),
            !has_connection_id(old(r).rest()),
        ensures
            final(r).wf(),
            match (res, unified_header(old(r).rest(), current_epoch)) {
                (Ok(header), Ok(fields)) => header.says(fields),
                (Err(e), Err(expected)) => e == expected,
                _ => false,
            },
            final(r).rest() == old(r).rest().skip(unified_header_progress(old(r).rest())),
    {
        let ghost b = r.rest();
        proof {
            lemma_pow256_values();
            assert(b.skip(0) =~= b);
            assert forall|s: Seq<u8>| s.len() == 1 implies #[trigger] be_value(s) == s[0] by {
                assert(s.drop_last() =~= Seq::empty());
                reveal_with_fuel(be_value, 2);
            }
        }
        let bitfield: u8 = match r.read_be(1, "u8") {
            Ok(byte) => byte as u8,
            Err(e) => return Err(e),
        };
        if bitfield & UNIFIED_HEADER_FIXED_BITS_MASK != UNIFIED_HEADER_FIXED_BITS {
            return Err(InvalidMessage::InvalidDtls13UnifiedHeader);
        }
        assert(bitfield & UNIFIED_HEADER_C_BIT_MASK == 0);
        let long_encoding = bitfield & UNIFIED_HEADER_S_BIT_MASK != 0;
        let first: u8 = match r.read_be(1, "u8") {
            Ok(byte) => byte as u8,
            Err(e) => return Err(e),
        };
        assert(r.rest() =~= b.skip(2));
        let second: u8 = if long_encoding {
            // bit set: 2 byte seq
            match r.read_be(1, "u8") {
                Ok(byte) => byte as u8,
                Err(e) => return Err(e),
            }
        } else {
            // bit clear: 1 byte seq
            0
        };
        let ghost number_end: int = if long_encoding {
            3
        } else {
            2
        };
        assert(r.rest() =~= b.skip(number_end));
        let length: Option<u16> = if bitfield & UNIFIED_HEADER_L_BIT_MASK != 0 {
            match r.read_be(2, "u16") {
                Ok(value) => {
                    assert(b.skip(number_end).take(2) =~= b.subrange(number_end, number_end + 2));
                    Some(value as u16)
                },
                Err(e) => return Err(e),
            }
        } else {
            None
        };
        assert(r.rest() =~= b.skip(unified_header_len(bitfield)));
        // Infer the epoch based on the low bits in the header and most recently seen epoch.
        let epoch_low_bits: u8 = bitfield & UNIFIED_HEADER_EE_BITS_MASK;
        assert(bitfield & 0b0000_0011 < 4) by (bit_vector);
        let protected: [u8; 2] = [first, second];
        proof {
            assert(protected@ =~= seq![
                b[1],
                if long_encoding {
                    b[2]
                } else {
                    0
                },
            ]);
        }
        Ok(
            UnifiedHeader {
                connection_id: Vec::new(),
                epoch: Epoch::new(infer_epoch(current_epoch.number(), epoch_low_bits)),
                sequence: ProtectedRecordSequenceNumber { protected, long_encoding },
                length,
            },
        )
    }
}

/// The low two bits of an epoch.
pub open spec fn low_bits(epoch: Epoch) -> u64 {
    epoch.number % 4
}

/// A unified header is read back as it was written. A record of the current
/// epoch, the one before or the very next is recognised as such.
pub proof fn law_unified_header_round_trip(
    header: UnifiedHeader<TruncatedRecordSequenceNumber>,
    old: Seq<u8>,
    current: Epoch,
)
    requires
        header.wf(),
        header.epoch.number <= 0b11,
        header.sequence.long_encoding,
        header.length is Some,
        old.len() >= DTLS_13_UNIFIED_HEADER_SIZE,
    ensures
        !has_connection_id(header.written(old)),
        unified_header(header.written(old), current) matches Ok(fields) && {
            &&& fields.protected == header.sequence.truncated@
            &&& fields.long_encoding
            &&& fields.length == header.length
            &&& fields.epoch.number == nearest_epoch(current.number, header.epoch.number as u8)
            &&& fields.epoch.number % 4 == header.epoch.number
            &&& forall|epoch: Epoch|
                distance(epoch.number as int, current.number as int) <= 1 && #[trigger] low_bits(
                    epoch,
                ) == header.epoch.number ==> fields.epoch == epoch
        },
{
    broadcast use lemma_be_bytes_len;

    let b = header.written(old);
    let first = header.first_byte();
    let low = header.epoch.number as u8;
    assert(first == 0x20u8 | 0x08u8 | 0x04u8 | low);
    assert(low <= 3 ==> {
        let first = 0x20u8 | 0x08u8 | 0x04u8 | low;
        &&& first & 0xe0 == 0x20
        &&& first & 0x10 == 0
        &&& first & 0x08 != 0
        &&& first & 0x04 != 0
        &&& first & 0x03 == low
    }) by (bit_vector);
    lemma_pow256_values();
    lemma_be_value_of_bytes(header.length->Some_0 as nat, 2);
    assert(b.subrange(3, 5) =~= be_bytes(header.length->Some_0 as nat, 2));
    assert(unified_header(b, current)->Ok_0.protected =~= header.sequence.truncated@);
}

/// The header of a full DTLS record is read back as it was written, provided
/// that the record is one that is accepted at all.
pub proof fn law_record_header_round_trip(
    typ: ContentType,
    version: ProtocolVersion,
    es: EpochAndSequence,
    payload: Seq<u8>,
)
    requires
        typ.is_known(),
        version.is_canonical(),
        is_plausible_version(version),
        es.sequence < pow256(6),
        typ == ContentType::ApplicationData || payload.len() > 0,
        payload.len() < MAX_PAYLOAD,
    ensures
        record_header(record_header_bytes(typ, version, Some(es), payload.len()) + payload) == Ok::<
            _,
            RecordError,
        >(
            DtlsMessageHeader {
                typ,
                version,
                epoch: Epoch { number: es.epoch as u64 },
                sequence: FullRecordSequenceNumber(es.sequence),
                len: payload.len() as u16,
            },
        ),
        record_header_bytes(typ, version, Some(es), payload.len()).len() == DTLS_12_HEADER_SIZE,
        !has_fixed_bits(record_header_bytes(typ, version, Some(es), payload.len())[0]),
{
    broadcast use lemma_be_bytes_len;

    let b = record_header_bytes(typ, version, Some(es), payload.len()) + payload;
    lemma_pow256_values();
    lemma_be_value_of_bytes(version.code() as nat, 2);
    lemma_be_value_of_bytes(es.epoch as nat, 2);
    lemma_be_value_of_bytes(es.sequence as nat, 6);
    lemma_be_value_of_bytes(payload.len(), 2);
    assert(b.subrange(1, 3) =~= be_bytes(version.code() as nat, 2));
    assert(b.subrange(3, 5) =~= be_bytes(es.epoch as nat, 2));
    assert(b.subrange(5, 11) =~= be_bytes(es.sequence as nat, 6));
    assert(b.subrange(11, 13) =~= be_bytes(payload.len(), 2));
    let code = typ.code();
    assert(b[0] == code);
    assert(code < 32 ==> code & 0xe0 == 0) by (bit_vector);
}

} // verus!
