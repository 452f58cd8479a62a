//! The cipher suites of TLS 1.3.

use vstd::prelude::*;

use crate::crypto::aead::{
    aead_opened, aead_sealed, AeadCipher, ChaCha20Poly1305RecordDecrypter,
    ChaCha20Poly1305RecordEncrypter, Gcm13RecordDecrypter, GcmRecordEncrypter, TAG_LEN,
};
use crate::crypto::cipher::{
    nonce_bytes, nonce_len_error, too_small, unused, AeadKey, Iv, NonceUse, NONCE_LEN,
};
use crate::crypto::fips::FipsStatus;
use crate::crypto::hash::HashAlgorithm;
use crate::crypto::hkdf::AwsLcHkdf;
use crate::crypto::laws::{tls13_accepts_as, tls13_uses_key};
use crate::crypto::suites::{
    CipherSuite, CipherSuiteCommon, ConnectionTrafficSecrets, UnsupportedOperationError,
    GCM_CONFIDENTIALITY_LIMIT,
};
use crate::crypto::tls13::{
    tls13_aad, Tls13RecordDecrypter, Tls13RecordEncrypter, TLS13_AAD_SIZE,
};
use crate::enums::{ContentType, ProtocolVersion};
use crate::error::Error;
use crate::msgs::codec::lemma_be_bytes_len;
use crate::msgs::message::OutboundPlain;
use crate::msgs::record::{
    lemma_unpadded, tls13_inner_plaintext, EncodableVersion, InboundOpaque, Record,
    MAX_FRAGMENT_LEN,
};

verus! {

/// How much longer a protected record of TLS 1.3 is than its plaintext: there is
/// the content type, and the tag.
pub const TLS13_OVERHEAD: usize = 1 + 16;

/// The payload of a protected record of TLS 1.3.
pub open spec fn tls13_protected(
    cipher: AeadCipher,
    key: Seq<u8>,
    iv: Seq<u8>,
    typ: ContentType,
    version: ProtocolVersion,
    seq: u64,
    plaintext: Seq<u8>,
) -> Seq<u8> {
    aead_sealed(
        cipher,
        key,
        nonce_bytes(iv, seq),
        tls13_aad(ContentType::ApplicationData, version, plaintext.len() + TLS13_OVERHEAD as nat),
        plaintext.push(typ.code()),
    )
}

/// What becomes of a record of TLS 1.3 whose protected payload came in: the content
/// type that was sealed with the plaintext, and the plaintext.
pub open spec fn tls13_outcome(
    cipher: AeadCipher,
    key: Seq<u8>,
    iv: Seq<u8>,
    typ: ContentType,
    version: ProtocolVersion,
    seq: u64,
    payload: Seq<u8>,
) -> Result<(ContentType, Seq<u8>), Error> {
    if payload.len() < TAG_LEN {
        Err(Error::DecryptError)
    } else if iv.len() != NONCE_LEN {
        Err(nonce_len_error(iv.len()))
    } else {
        match aead_opened(
            cipher,
            key,
            nonce_bytes(iv, seq),
            tls13_aad(typ, version, payload.len()),
            payload,
        ) {
            None => Err(Error::DecryptError),
            Some(inner) => tls13_inner_plaintext(inner),
        }
    }
}

enum AnyEncrypter {
    Gcm(Tls13RecordEncrypter<GcmRecordEncrypter, GcmRecordEncrypter>),
    ChaCha20Poly1305(
        Tls13RecordEncrypter<ChaCha20Poly1305RecordEncrypter, ChaCha20Poly1305RecordEncrypter>,
    ),
}

/// Protects the records of a connection with TLS 1.3.
pub struct Tls13SuiteEncrypter {
    encrypter: AnyEncrypter,
    keyed: Ghost<(AeadCipher, Seq<u8>)>,
}

impl Tls13SuiteEncrypter {
    /// The cipher that records are sealed with.
    pub closed spec fn cipher(&self) -> AeadCipher {
        self.keyed@.0
    }

    /// The key that records are sealed with.
    pub closed spec fn key(&self) -> Seq<u8> {
        self.keyed@.1
    }

    /// The IV that nonces are made from.
    pub closed spec fn iv(&self) -> Seq<u8> {
        match self.encrypter {
            AnyEncrypter::Gcm(encrypter) => encrypter.iv(),
            AnyEncrypter::ChaCha20Poly1305(encrypter) => encrypter.iv(),
        }
    }

    /// Which nonces were used, for contiguous plaintexts and for others.
    pub closed spec fn nonces(&self, single: bool) -> NonceUse {
        match self.encrypter {
            AnyEncrypter::Gcm(encrypter) => encrypter.nonces(single),
            AnyEncrypter::ChaCha20Poly1305(encrypter) => encrypter.nonces(single),
        }
    }

    /// Whether the cipher seals the record with this sequence number, given the
    /// nonces that were used.
    pub open spec fn accepts(&self, single: bool, seq: u64, len: nat) -> bool {
        self.cipher().accepts_record(
            single,
            self.nonces(single),
            nonce_bytes(self.iv(), seq),
            TLS13_AAD_SIZE as nat,
            len,
            1,
        )
    }

    /// Everything is sealed with the one cipher and key.
    pub closed spec fn wf(&self) -> bool {
        match self.encrypter {
            AnyEncrypter::Gcm(encrypter) => {
                &&& encrypter.tag_size() == TAG_LEN
                &&& tls13_uses_key(encrypter, self.cipher(), self.key())
                &&& tls13_accepts_as(encrypter, self.cipher())
                &&& forall|len: int| #[trigger]
                    encrypter.can_take(len) == (len + TLS13_OVERHEAD <= usize::MAX)
            },
            AnyEncrypter::ChaCha20Poly1305(encrypter) => {
                &&& encrypter.tag_size() == TAG_LEN
                &&& tls13_uses_key(encrypter, self.cipher(), self.key())
                &&& tls13_accepts_as(encrypter, self.cipher())
                &&& forall|len: int| #[trigger]
                    encrypter.can_take(len) == (len + TLS13_OVERHEAD <= usize::MAX)
            },
        }
    }

    /// Protects a record. The payload goes to `out`.
    ///
    /// Whether the plaintext is in one piece does not matter, but AES-GCM insists on
    /// sequence numbers that count up, for contiguous plaintexts and for others. A
    /// record that was protected is opened again by whoever has the key and the IV, as long as its
    /// content type is not the one that stands for padding.
    pub fn encrypt<'a>(
        &mut self,
        record: Record<OutboundPlain<'_>>,
        seq: u64,
        out: &'a mut [u8],
    ) -> (r: Result<Record<&'a [u8]>, Error>)
        requires
            old(self).wf(),
            record.payload.wf(),
            record.payload@.len() + TLS13_OVERHEAD <= usize::MAX,
        ensures
            ({
                let plaintext = record.payload@;
                let total = (plaintext.len() + TLS13_OVERHEAD) as int;
                let iv = old(self).iv();
                &&& final(out)@.len() == old(out)@.len()
                &&& old(out)@.len() < total ==> r == Err::<Record<&'a [u8]>, Error>(
                    too_small(total, old(out)@.len() as int),
                ) && final(out)@ == old(out)@
                &&& old(out)@.len() >= total ==> final(out)@.skip(total) == old(out)@.skip(total)
                &&& old(out)@.len() >= total && iv.len() != NONCE_LEN ==> r == Err::<
                    Record<&'a [u8]>,
                    Error,
                >(nonce_len_error(iv.len()))
                &&& old(out)@.len() >= total && iv.len() == NONCE_LEN && r is Err ==> r == Err::<
                    Record<&'a [u8]>,
                    Error,
                >(Error::EncryptError)
                &&& old(out)@.len() >= total && iv.len() == NONCE_LEN ==> (r is Ok <==> old(
                    self).accepts(record.payload is Single, seq, plaintext.len()))
                &&& forall|single: bool| #[trigger]
                    final(self).nonces(single) == if old(out)@.len() >= total && iv.len()
                        == NONCE_LEN && single == record.payload is Single {
                        old(self).cipher().nonces_after(
                            old(self).nonces(single),
                            nonce_bytes(iv, seq),
                        )
                    } else {
                        old(self).nonces(single)
                    }
                &&& r matches Ok(protected) ==> {
                    &&& protected.typ == ContentType::ApplicationData
                    &&& protected.version == record.version
                    &&& protected.payload@.len() == total
                    &&& protected.payload@ == final(out)@.take(total)
                    &&& protected.payload@ == tls13_protected(
                        old(self).cipher(),
                        old(self).key(),
                        iv,
                        record.typ,
                        record.version.shown(),
                        seq,
                        plaintext,
                    )
                    &&& plaintext.len() <= MAX_FRAGMENT_LEN && record.typ.is_canonical()
                        && record.typ.code() != 0 ==> tls13_outcome(
                        old(self).cipher(),
                        old(self).key(),
                        iv,
                        ContentType::ApplicationData,
                        record.version.shown(),
                        seq,
                        protected.payload@,
                    ) == Ok::<(ContentType, Seq<u8>), Error>((record.typ, plaintext))
                }
            }),
            final(self).wf(),
            final(self).cipher() == old(self).cipher(),
            final(self).key() == old(self).key(),
            final(self).iv() == old(self).iv(),
    {
        broadcast use lemma_be_bytes_len;

        let ghost plaintext = record.payload@;
        proof {
            if record.typ.code() != 0 {
                lemma_unpadded(plaintext, record.typ.code());
            }
            assert(plaintext.push(record.typ.code()).take(plaintext.len() as int) =~= plaintext);
        }
        match &mut self.encrypter {
            AnyEncrypter::Gcm(encrypter) => encrypter.encrypt(record, seq, out),
            AnyEncrypter::ChaCha20Poly1305(encrypter) => encrypter.encrypt(record, seq, out),
        }
    }

    /// The length of a protected payload.
    pub fn encrypted_payload_len(&self, payload_len: usize) -> (r: usize)
        requires
            self.wf(),
            payload_len + TLS13_OVERHEAD <= usize::MAX,
        ensures
            r == payload_len + TLS13_OVERHEAD,
    {
        match &self.encrypter {
            AnyEncrypter::Gcm(encrypter) => encrypter.encrypted_payload_len(payload_len),
            AnyEncrypter::ChaCha20Poly1305(encrypter) => encrypter.encrypted_payload_len(
                payload_len,
            ),
        }
    }
}

enum AnyDecrypter {
    Gcm(Tls13RecordDecrypter<Gcm13RecordDecrypter>),
    ChaCha20Poly1305(Tls13RecordDecrypter<ChaCha20Poly1305RecordDecrypter>),
}

/// Opens the records of a connection with TLS 1.3.
pub struct Tls13SuiteDecrypter {
    decrypter: AnyDecrypter,
    keyed: Ghost<(AeadCipher, Seq<u8>)>,
}

impl Tls13SuiteDecrypter {
    /// The cipher that records are opened with.
    pub closed spec fn cipher(&self) -> AeadCipher {
        self.keyed@.0
    }

    /// The key that records are opened with.
    pub closed spec fn key(&self) -> Seq<u8> {
        self.keyed@.1
    }

    /// The IV that nonces are made from.
    pub closed spec fn iv(&self) -> Seq<u8> {
        match self.decrypter {
            AnyDecrypter::Gcm(decrypter) => decrypter.iv(),
            AnyDecrypter::ChaCha20Poly1305(decrypter) => decrypter.iv(),
        }
    }

    /// Everything is opened with the one cipher and key.
    pub closed spec fn wf(&self) -> bool {
        match self.decrypter {
            AnyDecrypter::Gcm(decrypter) => {
                &&& decrypter.tag_size() == TAG_LEN
                &&& forall|n: Seq<u8>, a: Seq<u8>, s: Seq<u8>| #[trigger]
                    decrypter.opened(n, a, s) == aead_opened(self.cipher(), self.key(), n, a, s)
            },
            AnyDecrypter::ChaCha20Poly1305(decrypter) => {
                &&& decrypter.tag_size() == TAG_LEN
                &&& forall|n: Seq<u8>, a: Seq<u8>, s: Seq<u8>| #[trigger]
                    decrypter.opened(n, a, s) == aead_opened(self.cipher(), self.key(), n, a, s)
            },
        }
    }

    /// Opens a record in place.
    pub fn decrypt<'a>(&mut self, record: Record<InboundOpaque<'a>>, seq: u64) -> (r: Result<
        Record<&'a [u8]>,
        Error,
    >)
        requires
            old(self).wf(),
        ensures
            match (
                r,
                tls13_outcome(
                    old(self).cipher(),
                    old(self).key(),
                    old(self).iv(),
                    record.typ,
                    record.version.actual(),
                    seq,
                    old(record.payload.1)@,
                ),
            ) {
                (Ok(opened), Ok((typ, plaintext))) => {
                    &&& opened.typ == typ
                    &&& opened.version == EncodableVersion::Legacy(ProtocolVersion::TLSv1_3)
                    &&& opened.payload@ == plaintext
                },
                (Err(e), Err(expected)) => e == expected,
                _ => false,
            },
            final(record.payload.0)@ == old(record.payload.0)@,
            final(record.payload.1)@.len() == old(record.payload.1)@.len(),
            final(self).wf(),
            final(self).cipher() == old(self).cipher(),
            final(self).key() == old(self).key(),
            final(self).iv() == old(self).iv(),
    {
        match &mut self.decrypter {
            AnyDecrypter::Gcm(decrypter) => decrypter.decrypt(record, seq),
            AnyDecrypter::ChaCha20Poly1305(decrypter) => decrypter.decrypt(record, seq),
        }
    }
}

/// What the AES-GCM algorithms of TLS 1.3 have in common.
#[derive(Clone, Copy, Debug, PartialEq, Eq, Structural)]
pub struct AeadAlgorithm(pub AeadCipher);

impl AeadAlgorithm {
    /// A record cipher that seals in place.
    pub fn encrypter(&self, key: &AeadKey) -> (r: GcmRecordEncrypter)
        requires
            self.0.is_gcm(),
            key@.len() == self.0.key_size(),
        ensures
            r.cipher() == self.0,
            r.key() == key@,
            r.used() == unused(),
    {
        GcmRecordEncrypter::new(self.0, key)
    }

    /// A record cipher that seals out of place.
    pub fn contiguous_encrypter(&self, key: &AeadKey) -> (r: Option<GcmRecordEncrypter>)
        requires
            self.0.is_gcm(),
            key@.len() == self.0.key_size(),
        ensures
            r matches Some(encrypter) && encrypter.cipher() == self.0 && encrypter.key() == key@
                && encrypter.used() == unused(),
    {
        Some(GcmRecordEncrypter::new(self.0, key))
    }

    /// A record cipher that opens.
    pub fn decrypter(&self, key: &AeadKey) -> (r: Gcm13RecordDecrypter)
        requires
            self.0.is_gcm(),
            key@.len() == self.0.key_size(),
        ensures
            r.cipher() == self.0,
            r.key() == key@,
    {
        Gcm13RecordDecrypter::new(self.0, key)
    }

    /// The length of a key.
    pub fn key_len(&self) -> (r: usize)
        ensures
            r == self.0.key_size(),
    {
        self.0.key_len()
    }
}

/// The ChaCha20-Poly1305 algorithm of TLS 1.3.
#[derive(Clone, Copy, Debug, PartialEq, Eq, Structural)]
pub struct Chacha20Poly1305Aead;

impl Chacha20Poly1305Aead {
    /// A record cipher that seals in place.
    pub fn encrypter(&self, key: &AeadKey) -> (r: ChaCha20Poly1305RecordEncrypter)
        requires
            key@.len() == AeadCipher::ChaCha20Poly1305.key_size(),
        ensures
            r.cipher() == AeadCipher::ChaCha20Poly1305,
            r.key() == key@,
    {
        ChaCha20Poly1305RecordEncrypter::new(key)
    }

    /// A record cipher that seals out of place.
    pub fn contiguous_encrypter(&self, key: &AeadKey) -> (r: Option<
        ChaCha20Poly1305RecordEncrypter,
    >)
        requires
            key@.len() == AeadCipher::ChaCha20Poly1305.key_size(),
        ensures
            r matches Some(encrypter) && encrypter.cipher() == AeadCipher::ChaCha20Poly1305
                && encrypter.key() == key@,
    {
        Some(ChaCha20Poly1305RecordEncrypter::new(key))
    }

    /// A record cipher that opens.
    pub fn decrypter(&self, key: &AeadKey) -> (r: ChaCha20Poly1305RecordDecrypter)
        requires
            key@.len() == AeadCipher::ChaCha20Poly1305.key_size(),
        ensures
            r.cipher() == AeadCipher::ChaCha20Poly1305,
            r.key() == key@,
    {
        ChaCha20Poly1305RecordDecrypter::new(key)
    }
}

/// The AEAD algorithms of TLS 1.3.
#[derive(Clone, Copy, Debug, PartialEq, Eq, Structural)]
pub enum Tls13AeadAlgorithm {
    Chacha20Poly1305Aead,
    Aes256GcmAead,
    Aes128GcmAead,
}

impl Tls13AeadAlgorithm {
    /// The cipher behind the algorithm.
    pub open spec fn cipher(self) -> AeadCipher {
        match self {
            Tls13AeadAlgorithm::Chacha20Poly1305Aead => AeadCipher::ChaCha20Poly1305,
            Tls13AeadAlgorithm::Aes256GcmAead => AeadCipher::Aes256Gcm,
            Tls13AeadAlgorithm::Aes128GcmAead => AeadCipher::Aes128Gcm,
        }
    }

    /// The cipher behind the algorithm.
    pub fn aead(&self) -> (r: AeadCipher)
        ensures
            r == self.cipher(),
    {
        match *self {
            Tls13AeadAlgorithm::Chacha20Poly1305Aead => AeadCipher::ChaCha20Poly1305,
            Tls13AeadAlgorithm::Aes256GcmAead => AeadCipher::Aes256Gcm,
            Tls13AeadAlgorithm::Aes128GcmAead => AeadCipher::Aes128Gcm,
        }
    }

    /// What protects records with a key and an IV.
    pub fn record_encrypter(&self, key: AeadKey, iv: Iv) -> (r: Tls13SuiteEncrypter)
        requires
            key@.len() == self.cipher().key_size(),
        ensures
            r.wf(),
            r.cipher() == self.cipher(),
            r.key() == key@,
            r.iv() == iv@,
            forall|single: bool| #[trigger] r.nonces(single) == unused(),
    {
        let encrypter = match *self {
            Tls13AeadAlgorithm::Chacha20Poly1305Aead => AnyEncrypter::ChaCha20Poly1305(
                Tls13RecordEncrypter::new(
                    Chacha20Poly1305Aead.encrypter(&key),
                    Chacha20Poly1305Aead.contiguous_encrypter(&key),
                    iv,
                ),
            ),
            _ => {
                let algorithm = AeadAlgorithm(self.aead());
                AnyEncrypter::Gcm(
                    Tls13RecordEncrypter::new(
                        algorithm.encrypter(&key),
                        algorithm.contiguous_encrypter(&key),
                        iv,
                    ),
                )
            },
        };
        Tls13SuiteEncrypter { encrypter, keyed: Ghost((self.cipher(), key@)) }
    }

    /// What opens records with a key and an IV.
    pub fn record_decrypter(&self, key: AeadKey, iv: Iv) -> (r: Tls13SuiteDecrypter)
        requires
            key@.len() == self.cipher().key_size(),
        ensures
            r.wf(),
            r.cipher() == self.cipher(),
            r.key() == key@,
            r.iv() == iv@,
    {
        let decrypter = match *self {
            Tls13AeadAlgorithm::Chacha20Poly1305Aead => AnyDecrypter::ChaCha20Poly1305(
                Tls13RecordDecrypter::new(Chacha20Poly1305Aead.decrypter(&key), iv),
            ),
            _ => AnyDecrypter::Gcm(
                Tls13RecordDecrypter::new(AeadAlgorithm(self.aead()).decrypter(&key), iv),
            ),
        };
        Tls13SuiteDecrypter { decrypter, keyed: Ghost((self.cipher(), key@)) }
    }

    /// The length of a key.
    pub fn key_len(&self) -> (r: usize)
        ensures
            r == self.cipher().key_size(),
    {
        self.aead().key_len()
    }

    /// The key and IV as an application may ask for them.
    pub fn extract_keys(&self, key: AeadKey, iv: Iv) -> (r: Result<
        ConnectionTrafficSecrets,
        UnsupportedOperationError,
    >)
        ensures
            r == Ok::<ConnectionTrafficSecrets, UnsupportedOperationError>(
                match self {
                    Tls13AeadAlgorithm::Chacha20Poly1305Aead =>
                        ConnectionTrafficSecrets::Chacha20Poly1305 { key, iv },
                    Tls13AeadAlgorithm::Aes256GcmAead => ConnectionTrafficSecrets::Aes256Gcm {
                        key,
                        iv,
                    },
                    Tls13AeadAlgorithm::Aes128GcmAead => ConnectionTrafficSecrets::Aes128Gcm {
                        key,
                        iv,
                    },
                },
            ),
    {
        match *self {
            Tls13AeadAlgorithm::Chacha20Poly1305Aead => Ok(
                ConnectionTrafficSecrets::Chacha20Poly1305 { key, iv },
            ),
            Tls13AeadAlgorithm::Aes256GcmAead => Ok(
                ConnectionTrafficSecrets::Aes256Gcm { key, iv },
            ),
            Tls13AeadAlgorithm::Aes128GcmAead => Ok(
                ConnectionTrafficSecrets::Aes128Gcm { key, iv },
            ),
        }
    }

    /// AES-GCM is as approved as the provider as a whole, and ChaCha20-Poly1305 is
    /// not approved.
    pub fn fips(&self, provider: FipsStatus) -> (r: FipsStatus)
        ensures
            r == if self is Chacha20Poly1305Aead {
                FipsStatus::Unvalidated
            } else {
                provider
            },
    {
        match *self {
            Tls13AeadAlgorithm::Chacha20Poly1305Aead => FipsStatus::Unvalidated,
            _ => provider,
        }
    }
}

/// An encrypter that has not protected anything yet can protect any record, under
/// any sequence number and whether or not the plaintext is in one piece.
pub proof fn law_tls13_first_record_is_protected(encrypter: Tls13SuiteEncrypter, seq: u64, len: nat)
    requires
        forall|single: bool| #[trigger] encrypter.nonces(single) == unused(),
        len <= MAX_FRAGMENT_LEN,
    ensures
        encrypter.accepts(true, seq, len),
        encrypter.accepts(false, seq, len),
{
}

/// The ciphers that mask the headers of QUIC packets.
#[allow(non_camel_case_types)]
#[derive(Clone, Copy, Debug, PartialEq, Eq, Structural)]
pub enum QuicHeaderAlgorithm {
    AES_128,
    AES_256,
    CHACHA20,
}

/// What QUIC needs to know to protect packets with a cipher suite.
#[derive(Clone, Copy, Debug, PartialEq, Eq, Structural)]
pub struct QuicKeyBuilder {
    /// The cipher for packets.
    pub packet_alg: AeadCipher,
    /// The cipher for headers.
    pub header_alg: QuicHeaderAlgorithm,
    /// Number of packets that can be safely encrypted.
    pub confidentiality_limit: u64,
    /// Number of packets that may fail to be authentic.
    pub integrity_limit: u64,
}

/// The number of QUIC packets that ChaCha20-Poly1305 may fail to authenticate.
pub const CHACHA_INTEGRITY_LIMIT: u64 = 1 << 36;

/// The number of QUIC packets that AES-GCM can safely encrypt.
pub const GCM_PACKET_CONFIDENTIALITY_LIMIT: u64 = 1 << 23;

/// The number of QUIC packets that AES-GCM may fail to authenticate.
pub const GCM_INTEGRITY_LIMIT: u64 = 1 << 52;

/// A TLS 1.3 cipher suite supported by this library.
#[derive(Clone, Copy, Debug, PartialEq, Eq, Structural)]
pub struct Tls13CipherSuite {
    /// Common cipher suite fields.
    pub common: CipherSuiteCommon,
    /// The associated protocol version.
    pub protocol_version: ProtocolVersion,
    /// How to complete HKDF with the suite's hash function.
    pub hkdf_provider: AwsLcHkdf,
    /// How to produce a record encrypter or decrypter suitable for use with this
    /// suite.
    pub aead_alg: Tls13AeadAlgorithm,
    /// How to create QUIC header and record protection algorithms for this suite.
    pub quic: Option<QuicKeyBuilder>,
}

/// The suite with the given name.
pub open spec fn tls13_suite(suite: CipherSuite) -> Tls13CipherSuite {
    let hash = match suite {
        CipherSuite::TLS13_AES_256_GCM_SHA384 => HashAlgorithm::SHA384,
        _ => HashAlgorithm::SHA256,
    };
    let aead_alg = match suite {
        CipherSuite::TLS13_AES_256_GCM_SHA384 => Tls13AeadAlgorithm::Aes256GcmAead,
        CipherSuite::TLS13_AES_128_GCM_SHA256 => Tls13AeadAlgorithm::Aes128GcmAead,
        _ => Tls13AeadAlgorithm::Chacha20Poly1305Aead,
    };
    let limits: (u64, u64, u64) = if aead_alg is Chacha20Poly1305Aead {
        (u64::MAX, u64::MAX, CHACHA_INTEGRITY_LIMIT)
    } else {
        (GCM_CONFIDENTIALITY_LIMIT, GCM_PACKET_CONFIDENTIALITY_LIMIT, GCM_INTEGRITY_LIMIT)
    };
    Tls13CipherSuite {
        common: CipherSuiteCommon { suite, hash_provider: hash, confidentiality_limit: limits.0 },
        protocol_version: ProtocolVersion::TLSv1_3,
        hkdf_provider: AwsLcHkdf(hash),
        aead_alg,
        quic: Some(
            QuicKeyBuilder {
                packet_alg: aead_alg.cipher(),
                header_alg: match aead_alg {
                    Tls13AeadAlgorithm::Chacha20Poly1305Aead => QuicHeaderAlgorithm::CHACHA20,
                    Tls13AeadAlgorithm::Aes256GcmAead => QuicHeaderAlgorithm::AES_256,
                    Tls13AeadAlgorithm::Aes128GcmAead => QuicHeaderAlgorithm::AES_128,
                },
                confidentiality_limit: limits.1,
                integrity_limit: limits.2,
            },
        ),
    }
}

/// The TLS1.3 ciphersuite TLS_CHACHA20_POLY1305_SHA256
pub fn tls13_chacha20_poly1305_sha256() -> (r: Tls13CipherSuite)
    ensures
        r == tls13_suite(CipherSuite::TLS13_CHACHA20_POLY1305_SHA256),
{
    Tls13CipherSuite {
        common: CipherSuiteCommon {
            suite: CipherSuite::TLS13_CHACHA20_POLY1305_SHA256,
            hash_provider: HashAlgorithm::SHA256,
            confidentiality_limit: u64::MAX,
        },
        protocol_version: ProtocolVersion::TLSv1_3,
        hkdf_provider: AwsLcHkdf(HashAlgorithm::SHA256),
        aead_alg: Tls13AeadAlgorithm::Chacha20Poly1305Aead,
        quic: Some(
            QuicKeyBuilder {
                packet_alg: AeadCipher::ChaCha20Poly1305,
                header_alg: QuicHeaderAlgorithm::CHACHA20,
                confidentiality_limit: u64::MAX,
                integrity_limit: CHACHA_INTEGRITY_LIMIT,
            },
        ),
    }
}

/// The TLS1.3 ciphersuite TLS_AES_256_GCM_SHA384
pub fn tls13_aes_256_gcm_sha384() -> (r: Tls13CipherSuite)
    ensures
        r == tls13_suite(CipherSuite::TLS13_AES_256_GCM_SHA384),
{
    Tls13CipherSuite {
        common: CipherSuiteCommon {
            suite: CipherSuite::TLS13_AES_256_GCM_SHA384,
            hash_provider: HashAlgorithm::SHA384,
            confidentiality_limit: GCM_CONFIDENTIALITY_LIMIT,
        },
        protocol_version: ProtocolVersion::TLSv1_3,
        hkdf_provider: AwsLcHkdf(HashAlgorithm::SHA384),
        aead_alg: Tls13AeadAlgorithm::Aes256GcmAead,
        quic: Some(
            QuicKeyBuilder {
                packet_alg: AeadCipher::Aes256Gcm,
                header_alg: QuicHeaderAlgorithm::AES_256,
                confidentiality_limit: GCM_PACKET_CONFIDENTIALITY_LIMIT,
                integrity_limit: GCM_INTEGRITY_LIMIT,
            },
        ),
    }
}

/// The TLS1.3 ciphersuite TLS_AES_128_GCM_SHA256
pub fn tls13_aes_128_gcm_sha256() -> (r: Tls13CipherSuite)
    ensures
        r == tls13_suite(CipherSuite::TLS13_AES_128_GCM_SHA256),
{
    Tls13CipherSuite {
        common: CipherSuiteCommon {
            suite: CipherSuite::TLS13_AES_128_GCM_SHA256,
            hash_provider: HashAlgorithm::SHA256,
            confidentiality_limit: GCM_CONFIDENTIALITY_LIMIT,
        },
        protocol_version: ProtocolVersion::TLSv1_3,
        hkdf_provider: AwsLcHkdf(HashAlgorithm::SHA256),
        aead_alg: Tls13AeadAlgorithm::Aes128GcmAead,
        quic: Some(
            QuicKeyBuilder {
                packet_alg: AeadCipher::Aes128Gcm,
                header_alg: QuicHeaderAlgorithm::AES_128,
                confidentiality_limit: GCM_PACKET_CONFIDENTIALITY_LIMIT,
                integrity_limit: GCM_INTEGRITY_LIMIT,
            },
        ),
    }
}

/// The TLS1.3 cipher suite configuration that an application should use by default.
///
/// This will be [`all_tls13_cipher_suites`] sans any supported cipher suites that
/// shouldn't be enabled by most applications. In FIPS builds, those that are not
/// approved are not enabled.
pub fn default_tls13_cipher_suites(fips: bool) -> (r: Vec<Tls13CipherSuite>)
    ensures
        r@ == if fips {
            seq![
                tls13_suite(CipherSuite::TLS13_AES_128_GCM_SHA256),
                tls13_suite(CipherSuite::TLS13_AES_256_GCM_SHA384),
            ]
        } else {
            seq![
                tls13_suite(CipherSuite::TLS13_AES_128_GCM_SHA256),
                tls13_suite(CipherSuite::TLS13_AES_256_GCM_SHA384),
                tls13_suite(CipherSuite::TLS13_CHACHA20_POLY1305_SHA256),
            ]
        },
{
    if fips {
        vec![tls13_aes_128_gcm_sha256(), tls13_aes_256_gcm_sha384()]
    } else {
        all_tls13_cipher_suites()
    }
}

/// A list of all the TLS1.3 cipher suites that are supported.
pub fn all_tls13_cipher_suites() -> (r: Vec<Tls13CipherSuite>)
    ensures
        r@ == seq![
            tls13_suite(CipherSuite::TLS13_AES_128_GCM_SHA256),
            tls13_suite(CipherSuite::TLS13_AES_256_GCM_SHA384),
            tls13_suite(CipherSuite::TLS13_CHACHA20_POLY1305_SHA256),
        ],
{
    vec![
        tls13_aes_128_gcm_sha256(),
        tls13_aes_256_gcm_sha384(),
        tls13_chacha20_poly1305_sha256(),
    ]
}

} // verus!
