//! The cipher suites of TLS 1.2.

use vstd::prelude::*;

use crate::crypto::aead::{
    aead_opened, aead_sealed, AeadCipher, ChaCha20Poly1305RecordDecrypter,
    ChaCha20Poly1305RecordEncrypter, GcmRecordDecrypter, GcmRecordEncrypter, TAG_LEN,
};
use crate::crypto::cipher::{
    nonce_bytes, nonce_len_error, too_small, unused, AeadKey, Iv, NonceUse, IV_MAX_LEN, NONCE_LEN,
};
use crate::crypto::fips::FipsStatus;
use crate::crypto::hash::HashAlgorithm;
use crate::crypto::laws::{
    chacha_accepts_as, chacha_uses_key, gcm_accepts_as, gcm_uses_key, lemma_nonce_keeps_salt,
};
use crate::crypto::prf::Tls12Prf;
use crate::crypto::suites::{
    CipherSuite, CipherSuiteCommon, ConnectionTrafficSecrets, KeyBlockShape, KeyExchangeAlgorithm,
    SignatureScheme, UnsupportedOperationError, GCM_CONFIDENTIALITY_LIMIT,
};
use crate::crypto::tls12::{
    gcm_iv, plaintext_outcome, tls12_aad, Tls12ChaCha20Poly1305RecordDecrypter,
    Tls12ChaCha20Poly1305RecordEncrypter, Tls12GcmRecordDecrypter, Tls12GcmRecordEncrypter,
    CHACHAPOLY1305_OVERHEAD, GCM_EXPLICIT_NONCE_LEN, GCM_OVERHEAD, TLS12_AAD_SIZE,
};
use crate::enums::{ContentType, ProtocolVersion};
use crate::error::Error;
use crate::msgs::codec::lemma_be_bytes_len;
use crate::msgs::message::OutboundPlain;
use crate::msgs::record::{InboundOpaque, Record, MAX_FRAGMENT_LEN};

verus! {

/// How much longer a protected record of TLS 1.2 is than its plaintext.
pub open spec fn tls12_overhead(cipher: AeadCipher) -> nat {
    if cipher.is_gcm() {
        GCM_OVERHEAD as nat
    } else {
        CHACHAPOLY1305_OVERHEAD as nat
    }
}

/// The payload of a protected record of TLS 1.2.
pub open spec fn tls12_protected(
    cipher: AeadCipher,
    key: Seq<u8>,
    iv: Seq<u8>,
    typ: ContentType,
    version: ProtocolVersion,
    seq: u64,
    plaintext: Seq<u8>,
) -> Seq<u8> {
    let nonce = nonce_bytes(iv, seq);
    let sealed = aead_sealed(
        cipher,
        key,
        nonce,
        tls12_aad(seq, typ, version, plaintext.len()),
        plaintext,
    );
    if cipher.is_gcm() {
        nonce.skip(4) + sealed
    } else {
        sealed
    }
}

/// What becomes of a record of TLS 1.2 whose protected payload came in.
///
/// `iv` is only the salt for the ciphers that have the rest of the nonce in the
/// record.
pub open spec fn tls12_outcome(
    cipher: AeadCipher,
    key: Seq<u8>,
    iv: Seq<u8>,
    typ: ContentType,
    version: ProtocolVersion,
    seq: u64,
    payload: Seq<u8>,
) -> Result<Seq<u8>, Error> {
    let len = (payload.len() - tls12_overhead(cipher)) as nat;
    let aad = tls12_aad(seq, typ, version, len);
    if payload.len() < tls12_overhead(cipher) {
        Err(Error::DecryptError)
    } else if cipher.is_gcm() {
        plaintext_outcome(
            aead_opened(cipher, key, iv + payload.take(8), aad, payload.skip(8)),
        )
    } else if iv.len() != NONCE_LEN {
        Err(nonce_len_error(iv.len()))
    } else {
        plaintext_outcome(aead_opened(cipher, key, nonce_bytes(iv, seq), aad, payload))
    }
}

/// The part of an IV that the receiver of a record needs to know.
pub open spec fn tls12_receiver_iv(cipher: AeadCipher, iv: Seq<u8>) -> Seq<u8> {
    if cipher.is_gcm() {
        iv.take(4)
    } else {
        iv
    }
}

type GcmEncrypter = Tls12GcmRecordEncrypter<GcmRecordEncrypter, GcmRecordEncrypter>;

type ChaChaEncrypter = Tls12ChaCha20Poly1305RecordEncrypter<
    ChaCha20Poly1305RecordEncrypter,
    ChaCha20Poly1305RecordEncrypter,
>;

enum AnyEncrypter {
    Gcm(GcmEncrypter),
    ChaCha20Poly1305(ChaChaEncrypter),
}

/// Protects the records of a connection with TLS 1.2.
pub struct Tls12RecordEncrypter {
    encrypter: AnyEncrypter,
    keyed: Ghost<(AeadCipher, Seq<u8>)>,
}

impl Tls12RecordEncrypter {
    /// The cipher that records are sealed with.
    pub closed spec fn cipher(&self) -> AeadCipher {
        self.keyed@.0
    }

    /// The key that records are sealed with.
    pub closed spec fn key(&self) -> Seq<u8> {
        self.keyed@.1
    }

    /// The IV that nonces are made from.
    pub closed spec fn iv(&self) -> Seq<u8> {
        match self.encrypter {
            AnyEncrypter::Gcm(encrypter) => encrypter.iv(),
            AnyEncrypter::ChaCha20Poly1305(encrypter) => encrypter.iv(),
        }
    }

    /// Which nonces were used, for contiguous plaintexts and for others.
    pub closed spec fn nonces(&self, single: bool) -> NonceUse {
        match self.encrypter {
            AnyEncrypter::Gcm(encrypter) => encrypter.nonces(single),
            AnyEncrypter::ChaCha20Poly1305(encrypter) => encrypter.nonces(single),
        }
    }

    /// Whether the cipher seals the record with this sequence number, given the
    /// nonces that were used.
    pub open spec fn accepts(&self, single: bool, seq: u64, len: nat) -> bool {
        self.cipher().accepts_record(
            single,
            self.nonces(single),
            nonce_bytes(self.iv(), seq),
            TLS12_AAD_SIZE as nat,
            len,
            0,
        )
    }

    /// Everything is sealed with the one cipher and key.
    pub closed spec fn wf(&self) -> bool {
        match self.encrypter {
            AnyEncrypter::Gcm(encrypter) => {
                &&& self.cipher().is_gcm()
                &&& encrypter.wf()
                &&& encrypter.iv().len() == NONCE_LEN
                &&& encrypter.tag_size() == TAG_LEN
                &&& gcm_uses_key(encrypter, self.cipher(), self.key())
                &&& gcm_accepts_as(encrypter, self.cipher())
                &&& forall|len: int| #[trigger]
                    encrypter.can_take(len) == (len + GCM_OVERHEAD <= usize::MAX)
            },
            AnyEncrypter::ChaCha20Poly1305(encrypter) => {
                &&& self.cipher() is ChaCha20Poly1305
                &&& encrypter.tag_size() == TAG_LEN
                &&& chacha_uses_key(encrypter, self.cipher(), self.key())
                &&& chacha_accepts_as(encrypter, self.cipher())
                &&& forall|len: int| #[trigger]
                    encrypter.can_take(len) == (len + CHACHAPOLY1305_OVERHEAD <= usize::MAX)
            },
        }
    }

    /// Protects a record. The payload goes to `out`.
    ///
    /// Whether the plaintext is in one piece does not matter, but AES-GCM insists on
    /// sequence numbers that count up, for contiguous plaintexts and for others. A
    /// record that was protected is opened again by whoever has the key and the IV.
    pub fn encrypt<'a>(
        &mut self,
        record: Record<OutboundPlain<'_>>,
        seq: u64,
        out: &'a mut [u8],
    ) -> (r: Result<Record<&'a [u8]>, Error>)
        requires
            old(self).wf(),
            record.payload.wf(),
            record.payload@.len() + tls12_overhead(old(self).cipher()) <= usize::MAX,
        ensures
            ({
                let plaintext = record.payload@;
                let total = (plaintext.len() + tls12_overhead(old(self).cipher())) as int;
                let iv = old(self).iv();
                &&& final(out)@.len() == old(out)@.len()
                &&& old(out)@.len() < total ==> r == Err::<Record<&'a [u8]>, Error>(
                    too_small(total, old(out)@.len() as int),
                ) && final(out)@ == old(out)@
                &&& old(out)@.len() >= total ==> final(out)@.skip(total) == old(out)@.skip(total)
                &&& old(out)@.len() >= total && iv.len() != NONCE_LEN ==> r == Err::<
                    Record<&'a [u8]>,
                    Error,
                >(nonce_len_error(iv.len()))
                &&& old(out)@.len() >= total && iv.len() == NONCE_LEN && r is Err ==> r == Err::<
                    Record<&'a [u8]>,
                    Error,
                >(Error::EncryptError)
                &&& old(out)@.len() >= total && iv.len() == NONCE_LEN ==> (r is Ok <==> old(
                    self).accepts(record.payload is Single, seq, plaintext.len()))
                &&& forall|single: bool| #[trigger]
                    final(self).nonces(single) == if old(out)@.len() >= total && iv.len()
                        == NONCE_LEN && single == record.payload is Single {
                        old(self).cipher().nonces_after(
                            old(self).nonces(single),
                            nonce_bytes(iv, seq),
                        )
                    } else {
                        old(self).nonces(single)
                    }
                &&& r matches Ok(protected) ==> {
                    &&& protected.typ == record.typ
                    &&& protected.version == record.version
                    &&& protected.payload@.len() == total
                    &&& protected.payload@ == final(out)@.take(total)
                    &&& protected.payload@ == tls12_protected(
                        old(self).cipher(),
                        old(self).key(),
                        iv,
                        record.typ,
                        record.version.shown(),
                        seq,
                        plaintext,
                    )
                    &&& plaintext.len() <= MAX_FRAGMENT_LEN ==> tls12_outcome(
                        old(self).cipher(),
                        old(self).key(),
                        tls12_receiver_iv(old(self).cipher(), iv),
                        record.typ,
                        record.version.shown(),
                        seq,
                        protected.payload@,
                    ) == Ok::<Seq<u8>, Error>(plaintext)
                }
            }),
            final(self).wf(),
            final(self).cipher() == old(self).cipher(),
            final(self).key() == old(self).key(),
            final(self).iv() == old(self).iv(),
    {
        broadcast use lemma_be_bytes_len;

        let ghost nonce = nonce_bytes(self.iv(), seq);
        match &mut self.encrypter {
            AnyEncrypter::Gcm(encrypter) => {
                proof {
                    lemma_nonce_keeps_salt(encrypter.iv(), seq);
                }
                let r = encrypter.encrypt(record, seq, out);
                proof {
                    if r is Ok {
                        let payload = r->Ok_0.payload@;
                        assert(payload =~= payload.take(8) + payload.skip(8));
                        assert(nonce =~= nonce.take(4) + nonce.skip(4));
                    }
                }
                r
            },
            AnyEncrypter::ChaCha20Poly1305(encrypter) => encrypter.encrypt(record, seq, out),
        }
    }

    /// The length of a protected payload.
    pub fn encrypted_payload_len(&self, payload_len: usize) -> (r: usize)
        requires
            self.wf(),
            payload_len + tls12_overhead(self.cipher()) <= usize::MAX,
        ensures
            r == payload_len + tls12_overhead(self.cipher()),
    {
        match &self.encrypter {
            AnyEncrypter::Gcm(encrypter) => encrypter.encrypted_payload_len(payload_len),
            AnyEncrypter::ChaCha20Poly1305(encrypter) => encrypter.encrypted_payload_len(
                payload_len,
            ),
        }
    }

    pub fn protocol_version(&self) -> (r: ProtocolVersion)
        ensures
            r == ProtocolVersion::TLSv1_2,
    {
        ProtocolVersion::TLSv1_2
    }
}

enum AnyDecrypter {
    Gcm(Tls12GcmRecordDecrypter<GcmRecordDecrypter>),
    ChaCha20Poly1305(Tls12ChaCha20Poly1305RecordDecrypter<ChaCha20Poly1305RecordDecrypter>),
}

/// Opens the records of a connection with TLS 1.2.
pub struct Tls12RecordDecrypter {
    decrypter: AnyDecrypter,
    keyed: Ghost<(AeadCipher, Seq<u8>)>,
}

impl Tls12RecordDecrypter {
    /// The cipher that records are opened with.
    pub closed spec fn cipher(&self) -> AeadCipher {
        self.keyed@.0
    }

    /// The key that records are opened with.
    pub closed spec fn key(&self) -> Seq<u8> {
        self.keyed@.1
    }

    /// The IV, or the salt where the rest is in the records.
    pub closed spec fn iv(&self) -> Seq<u8> {
        match self.decrypter {
            AnyDecrypter::Gcm(decrypter) => decrypter.salt(),
            AnyDecrypter::ChaCha20Poly1305(decrypter) => decrypter.iv(),
        }
    }

    /// Everything is opened with the one cipher and key.
    pub closed spec fn wf(&self) -> bool {
        match self.decrypter {
            AnyDecrypter::Gcm(decrypter) => {
                &&& self.cipher().is_gcm()
                &&& forall|n: Seq<u8>, a: Seq<u8>, s: Seq<u8>| #[trigger]
                    decrypter.opened(n, a, s) == aead_opened(self.cipher(), self.key(), n, a, s)
                &&& forall|start: int| #[trigger] decrypter.origin(start) == start
            },
            AnyDecrypter::ChaCha20Poly1305(decrypter) => {
                &&& self.cipher() is ChaCha20Poly1305
                &&& forall|n: Seq<u8>, a: Seq<u8>, s: Seq<u8>| #[trigger]
                    decrypter.opened(n, a, s) == aead_opened(self.cipher(), self.key(), n, a, s)
            },
        }
    }

    /// Opens a record in place.
    pub fn decrypt<'a>(&mut self, record: Record<InboundOpaque<'a>>, seq: u64) -> (r: Result<
        Record<&'a [u8]>,
        Error,
    >)
        requires
            old(self).wf(),
        ensures
            match (
                r,
                tls12_outcome(
                    old(self).cipher(),
                    old(self).key(),
                    old(self).iv(),
                    record.typ,
                    record.version.actual(),
                    seq,
                    old(record.payload.1)@,
                ),
            ) {
                (Ok(opened), Ok(plaintext)) => {
                    &&& opened.typ == record.typ
                    &&& opened.version == record.version
                    &&& opened.payload@ == plaintext
                },
                (Err(e), Err(expected)) => e == expected,
                _ => false,
            },
            final(record.payload.0)@ == old(record.payload.0)@,
            final(record.payload.1)@.len() == old(record.payload.1)@.len(),
            final(self).wf(),
            final(self).cipher() == old(self).cipher(),
            final(self).key() == old(self).key(),
            final(self).iv() == old(self).iv(),
    {
        match &mut self.decrypter {
            AnyDecrypter::Gcm(decrypter) => decrypter.decrypt(record, seq),
            AnyDecrypter::ChaCha20Poly1305(decrypter) => decrypter.decrypt(record, seq),
        }
    }
}

/// The AES-GCM algorithms of TLS 1.2.
#[allow(non_camel_case_types)]
#[derive(Clone, Copy, Debug, PartialEq, Eq, Structural)]
pub enum GcmAlgorithm {
    AES128_GCM,
    AES256_GCM,
}

impl GcmAlgorithm {
    /// The cipher behind the algorithm.
    pub open spec fn cipher(self) -> AeadCipher {
        match self {
            GcmAlgorithm::AES128_GCM => AeadCipher::Aes128Gcm,
            GcmAlgorithm::AES256_GCM => AeadCipher::Aes256Gcm,
        }
    }

    /// The cipher behind the algorithm.
    pub fn aead(&self) -> (r: AeadCipher)
        ensures
            r == self.cipher(),
    {
        match *self {
            GcmAlgorithm::AES128_GCM => AeadCipher::Aes128Gcm,
            GcmAlgorithm::AES256_GCM => AeadCipher::Aes256Gcm,
        }
    }

    /// A record cipher that seals in place.
    pub fn encrypter(&self, enc_key: &AeadKey) -> (r: GcmRecordEncrypter)
        requires
            enc_key@.len() == self.cipher().key_size(),
        ensures
            r.cipher() == self.cipher(),
            r.key() == enc_key@,
            r.used() == unused(),
    {
        GcmRecordEncrypter::new(self.aead(), enc_key)
    }

    /// A record cipher that seals out of place.
    pub fn contiguous_encrypter(&self, enc_key: &AeadKey) -> (r: Option<GcmRecordEncrypter>)
        requires
            enc_key@.len() == self.cipher().key_size(),
        ensures
            r matches Some(encrypter) && encrypter.cipher() == self.cipher() && encrypter.key()
                == enc_key@ && encrypter.used() == unused(),
    {
        Some(GcmRecordEncrypter::new(self.aead(), enc_key))
    }

    /// A record cipher that opens.
    pub fn decrypter(&self, dec_key: &AeadKey) -> (r: GcmRecordDecrypter)
        requires
            dec_key@.len() == self.cipher().key_size(),
        ensures
            r.cipher() == self.cipher(),
            r.key() == dec_key@,
    {
        GcmRecordDecrypter::new(self.aead(), dec_key)
    }

    /// What protects records with a key, the salt and the explicit part of an IV.
    pub fn record_encrypter(&self, key: AeadKey, iv: &[u8], extra: &[u8]) -> (r:
        Tls12RecordEncrypter)
        requires
            key@.len() == self.cipher().key_size(),
            iv@.len() == 4,
            extra@.len() == 8,
        ensures
            r.wf(),
            r.cipher() == self.cipher(),
            r.key() == key@,
            r.iv() == iv@ + extra@,
            forall|single: bool| #[trigger] r.nonces(single) == unused(),
    {
        let encrypter = Tls12GcmRecordEncrypter::new(
            self.encrypter(&key),
            self.contiguous_encrypter(&key),
            iv,
            extra,
        );
        Tls12RecordEncrypter {
            encrypter: AnyEncrypter::Gcm(encrypter),
            keyed: Ghost((self.cipher(), key@)),
        }
    }

    /// What opens records with a key and the salt.
    pub fn record_decrypter(&self, key: AeadKey, iv: &[u8]) -> (r: Tls12RecordDecrypter)
        requires
            key@.len() == self.cipher().key_size(),
            iv@.len() == 4,
        ensures
            r.wf(),
            r.cipher() == self.cipher(),
            r.key() == key@,
            r.iv() == iv@,
    {
        let decrypter = Tls12GcmRecordDecrypter::new(self.decrypter(&key), iv);
        Tls12RecordDecrypter {
            decrypter: AnyDecrypter::Gcm(decrypter),
            keyed: Ghost((self.cipher(), key@)),
        }
    }

    pub fn key_block_shape(&self) -> (r: KeyBlockShape)
        ensures
            r.enc_key_len == self.cipher().key_size(),
            r.fixed_iv_len == 4,
            r.explicit_nonce_len == 8,
    {
        KeyBlockShape {
            enc_key_len: self.aead().key_len(),
            fixed_iv_len: 4,
            explicit_nonce_len: GCM_EXPLICIT_NONCE_LEN,
        }
    }

    /// The key and IV as an application may ask for them.
    pub fn extract_keys(&self, key: AeadKey, write_iv: &[u8], explicit: &[u8]) -> (r: Result<
        ConnectionTrafficSecrets,
        UnsupportedOperationError,
    >)
        requires
            write_iv@.len() == 4,
            explicit@.len() == 8,
        ensures
            match self {
                GcmAlgorithm::AES128_GCM => r matches Ok(ConnectionTrafficSecrets::Aes128Gcm {
                    key: k,
                    iv,
                }) && k == key && iv@ == write_iv@ + explicit@,
                GcmAlgorithm::AES256_GCM => r matches Ok(ConnectionTrafficSecrets::Aes256Gcm {
                    key: k,
                    iv,
                }) && k == key && iv@ == write_iv@ + explicit@,
            },
    {
        let iv = gcm_iv(write_iv, explicit);
        match *self {
            GcmAlgorithm::AES128_GCM => Ok(ConnectionTrafficSecrets::Aes128Gcm { key, iv }),
            GcmAlgorithm::AES256_GCM => Ok(ConnectionTrafficSecrets::Aes256Gcm { key, iv }),
        }
    }

    /// AES-GCM is as approved as the provider as a whole.
    pub fn fips(&self, provider: FipsStatus) -> (r: FipsStatus)
        ensures
            r == provider,
    {
        provider
    }
}

/// The ChaCha20-Poly1305 algorithm of TLS 1.2.
#[derive(Clone, Copy, Debug, PartialEq, Eq, Structural)]
pub struct ChaCha20Poly1305;

impl ChaCha20Poly1305 {
    /// A record cipher that seals in place.
    pub fn encrypter(&self, enc_key: &AeadKey) -> (r: ChaCha20Poly1305RecordEncrypter)
        requires
            enc_key@.len() == AeadCipher::ChaCha20Poly1305.key_size(),
        ensures
            r.cipher() == AeadCipher::ChaCha20Poly1305,
            r.key() == enc_key@,
    {
        ChaCha20Poly1305RecordEncrypter::new(enc_key)
    }

    /// A record cipher that seals out of place.
    pub fn contiguous_encrypter(&self, enc_key: &AeadKey) -> (r: Option<
        ChaCha20Poly1305RecordEncrypter,
    >)
        requires
            enc_key@.len() == AeadCipher::ChaCha20Poly1305.key_size(),
        ensures
            r matches Some(encrypter) && encrypter.cipher() == AeadCipher::ChaCha20Poly1305
                && encrypter.key() == enc_key@,
    {
        Some(ChaCha20Poly1305RecordEncrypter::new(enc_key))
    }

    /// A record cipher that opens.
    pub fn decrypter(&self, dec_key: &AeadKey) -> (r: ChaCha20Poly1305RecordDecrypter)
        requires
            dec_key@.len() == AeadCipher::ChaCha20Poly1305.key_size(),
        ensures
            r.cipher() == AeadCipher::ChaCha20Poly1305,
            r.key() == dec_key@,
    {
        ChaCha20Poly1305RecordDecrypter::new(dec_key)
    }

    /// What protects records with a key and an IV.
    pub fn record_encrypter(&self, key: AeadKey, iv: &[u8]) -> (r: Tls12RecordEncrypter)
        requires
            key@.len() == AeadCipher::ChaCha20Poly1305.key_size(),
            iv@.len() <= IV_MAX_LEN,
        ensures
            r.wf(),
            r.cipher() == AeadCipher::ChaCha20Poly1305,
            r.key() == key@,
            r.iv() == iv@,
            forall|single: bool| #[trigger] r.nonces(single) == unused(),
    {
        let encrypter = Tls12ChaCha20Poly1305RecordEncrypter::new(
            self.encrypter(&key),
            self.contiguous_encrypter(&key),
            iv,
        );
        Tls12RecordEncrypter {
            encrypter: AnyEncrypter::ChaCha20Poly1305(encrypter),
            keyed: Ghost((AeadCipher::ChaCha20Poly1305, key@)),
        }
    }

    /// What opens records with a key and an IV.
    pub fn record_decrypter(&self, key: AeadKey, iv: &[u8]) -> (r: Tls12RecordDecrypter)
        requires
            key@.len() == AeadCipher::ChaCha20Poly1305.key_size(),
            iv@.len() <= IV_MAX_LEN,
        ensures
            r.wf(),
            r.cipher() == AeadCipher::ChaCha20Poly1305,
            r.key() == key@,
            r.iv() == iv@,
    {
        let decrypter = Tls12ChaCha20Poly1305RecordDecrypter::new(self.decrypter(&key), iv);
        Tls12RecordDecrypter {
            decrypter: AnyDecrypter::ChaCha20Poly1305(decrypter),
            keyed: Ghost((AeadCipher::ChaCha20Poly1305, key@)),
        }
    }

    pub fn key_block_shape(&self) -> (r: KeyBlockShape)
        ensures
            r.enc_key_len == AeadCipher::ChaCha20Poly1305.key_size(),
            r.fixed_iv_len == NONCE_LEN,
            r.explicit_nonce_len == 0,
    {
        KeyBlockShape { enc_key_len: 32, fixed_iv_len: 12, explicit_nonce_len: 0 }
    }

    /// The key and IV as an application may ask for them.
    pub fn extract_keys(&self, key: AeadKey, iv: &[u8]) -> (r: Result<
        ConnectionTrafficSecrets,
        UnsupportedOperationError,
    >)
        requires
            iv@.len() <= IV_MAX_LEN,
        ensures
            r matches Ok(ConnectionTrafficSecrets::Chacha20Poly1305 { key: k, iv: v }) && k == key
                && v@ == iv@,
    {
        Ok(ConnectionTrafficSecrets::Chacha20Poly1305 { key, iv: Iv::new(iv).unwrap() })
    }

    /// ChaCha20-Poly1305 is not FIPS approved.
    pub fn fips(&self) -> (r: FipsStatus)
        ensures
            r == FipsStatus::Unvalidated,
    {
        FipsStatus::Unvalidated
    }
}

/// The AEAD algorithms of TLS 1.2.
#[derive(Clone, Copy, Debug, PartialEq, Eq, Structural)]
pub enum Tls12AeadAlgorithm {
    Gcm(GcmAlgorithm),
    ChaCha20Poly1305,
}

impl Tls12AeadAlgorithm {
    /// The cipher behind the algorithm.
    pub open spec fn cipher(self) -> AeadCipher {
        match self {
            Tls12AeadAlgorithm::Gcm(algorithm) => algorithm.cipher(),
            Tls12AeadAlgorithm::ChaCha20Poly1305 => AeadCipher::ChaCha20Poly1305,
        }
    }

    /// Whether a key and the two parts of an IV have the lengths that
    /// [`key_block_shape`](Self::key_block_shape) gives.
    pub open spec fn fits(self, key: Seq<u8>, iv: Seq<u8>, extra: Seq<u8>) -> bool {
        &&& key.len() == self.cipher().key_size()
        &&& match self {
            Tls12AeadAlgorithm::Gcm(_) => iv.len() == 4 && extra.len() == 8,
            Tls12AeadAlgorithm::ChaCha20Poly1305 => iv.len() == NONCE_LEN,
        }
    }

    /// What protects records with a key and an IV in two parts.
    pub fn record_encrypter(&self, key: AeadKey, iv: &[u8], extra: &[u8]) -> (r:
        Tls12RecordEncrypter)
        requires
            self.fits(key@, iv@, extra@),
        ensures
            r.wf(),
            r.cipher() == self.cipher(),
            r.key() == key@,
            r.iv() == if self is Gcm {
                iv@ + extra@
            } else {
                iv@
            },
            forall|single: bool| #[trigger] r.nonces(single) == unused(),
    {
        match self {
            Tls12AeadAlgorithm::Gcm(algorithm) => algorithm.record_encrypter(key, iv, extra),
            Tls12AeadAlgorithm::ChaCha20Poly1305 => ChaCha20Poly1305.record_encrypter(key, iv),
        }
    }

    /// What opens records with a key and the first part of an IV.
    pub fn record_decrypter(&self, key: AeadKey, iv: &[u8]) -> (r: Tls12RecordDecrypter)
        requires
            self.fits(key@, iv@, Seq::new(8, |i: int| 0u8)),
        ensures
            r.wf(),
            r.cipher() == self.cipher(),
            r.key() == key@,
            r.iv() == iv@,
    {
        match self {
            Tls12AeadAlgorithm::Gcm(algorithm) => algorithm.record_decrypter(key, iv),
            Tls12AeadAlgorithm::ChaCha20Poly1305 => ChaCha20Poly1305.record_decrypter(key, iv),
        }
    }

    pub fn key_block_shape(&self) -> (r: KeyBlockShape)
        ensures
            r.enc_key_len == self.cipher().key_size(),
            r.fixed_iv_len == if self is Gcm {
                4int
            } else {
                12
            },
            r.explicit_nonce_len == if self is Gcm {
                8int
            } else {
                0
            },
    {
        match self {
            Tls12AeadAlgorithm::Gcm(algorithm) => algorithm.key_block_shape(),
            Tls12AeadAlgorithm::ChaCha20Poly1305 => ChaCha20Poly1305.key_block_shape(),
        }
    }

    /// The key and IV as an application may ask for them.
    pub fn extract_keys(&self, key: AeadKey, iv: &[u8], explicit: &[u8]) -> (r: Result<
        ConnectionTrafficSecrets,
        UnsupportedOperationError,
    >)
        requires
            self.fits(key@, iv@, explicit@),
        ensures
            match self.cipher() {
                AeadCipher::Aes128Gcm => r matches Ok(
                    ConnectionTrafficSecrets::Aes128Gcm { key: k, iv: v },
                ) && k == key && v@ == iv@ + explicit@,
                AeadCipher::Aes256Gcm => r matches Ok(
                    ConnectionTrafficSecrets::Aes256Gcm { key: k, iv: v },
                ) && k == key && v@ == iv@ + explicit@,
                AeadCipher::ChaCha20Poly1305 => r matches Ok(
                    ConnectionTrafficSecrets::Chacha20Poly1305 { key: k, iv: v },
                ) && k == key && v@ == iv@,
            },
    {
        match self {
            Tls12AeadAlgorithm::Gcm(algorithm) => algorithm.extract_keys(key, iv, explicit),
            Tls12AeadAlgorithm::ChaCha20Poly1305 => ChaCha20Poly1305.extract_keys(key, iv),
        }
    }

    /// AES-GCM is as approved as the provider as a whole, and ChaCha20-Poly1305 is
    /// not approved.
    pub fn fips(&self, provider: FipsStatus) -> (r: FipsStatus)
        ensures
            r == if self is Gcm {
                provider
            } else {
                FipsStatus::Unvalidated
            },
    {
        match self {
            Tls12AeadAlgorithm::Gcm(algorithm) => algorithm.fips(provider),
            Tls12AeadAlgorithm::ChaCha20Poly1305 => ChaCha20Poly1305.fips(),
        }
    }
}

/// An encrypter that has not protected anything yet can protect any record, under
/// any sequence number and whether or not the plaintext is in one piece.
pub proof fn law_tls12_first_record_is_protected(encrypter: Tls12RecordEncrypter, seq: u64, len: nat)
    requires
        forall|single: bool| #[trigger] encrypter.nonces(single) == unused(),
        len <= MAX_FRAGMENT_LEN,
    ensures
        encrypter.accepts(true, seq, len),
        encrypter.accepts(false, seq, len),
{
}

/// Sealed records open through the corresponding decrypter: an encrypter and a
/// decrypter that were made for the same algorithm from the same key and IV agree
/// on the cipher, the key and what the receiver has to know of the IV.
pub proof fn law_tls12_ends_agree(
    algorithm: Tls12AeadAlgorithm,
    encrypter: Tls12RecordEncrypter,
    decrypter: Tls12RecordDecrypter,
    key: Seq<u8>,
    iv: Seq<u8>,
    extra: Seq<u8>,
)
    requires
        algorithm.fits(key, iv, extra),
        encrypter.cipher() == algorithm.cipher(),
        encrypter.key() == key,
        encrypter.iv() == if algorithm is Gcm {
            iv + extra
        } else {
            iv
        },
        decrypter.cipher() == algorithm.cipher(),
        decrypter.key() == key,
        decrypter.iv() == iv,
    ensures
        decrypter.cipher() == encrypter.cipher(),
        decrypter.key() == encrypter.key(),
        decrypter.iv() == tls12_receiver_iv(encrypter.cipher(), encrypter.iv()),
{
    if algorithm is Gcm {
        assert((iv + extra).take(4) =~= iv);
    }
}

/// The signature schemes of suites with an ECDSA certificate.
pub open spec fn ecdsa_schemes() -> Seq<SignatureScheme> {
    seq![
        SignatureScheme::ED25519,
        SignatureScheme::ECDSA_NISTP521_SHA512,
        SignatureScheme::ECDSA_NISTP384_SHA384,
        SignatureScheme::ECDSA_NISTP256_SHA256,
    ]
}

/// The signature schemes of suites with an RSA certificate.
pub open spec fn rsa_schemes() -> Seq<SignatureScheme> {
    seq![
        SignatureScheme::RSA_PSS_SHA512,
        SignatureScheme::RSA_PSS_SHA384,
        SignatureScheme::RSA_PSS_SHA256,
        SignatureScheme::RSA_PKCS1_SHA512,
        SignatureScheme::RSA_PKCS1_SHA384,
        SignatureScheme::RSA_PKCS1_SHA256,
    ]
}

fn make_ecdsa_schemes() -> (r: Vec<SignatureScheme>)
    ensures
        r@ == ecdsa_schemes(),
{
    vec![
        SignatureScheme::ED25519,
        SignatureScheme::ECDSA_NISTP521_SHA512,
        SignatureScheme::ECDSA_NISTP384_SHA384,
        SignatureScheme::ECDSA_NISTP256_SHA256,
    ]
}

fn make_rsa_schemes() -> (r: Vec<SignatureScheme>)
    ensures
        r@ == rsa_schemes(),
{
    vec![
        SignatureScheme::RSA_PSS_SHA512,
        SignatureScheme::RSA_PSS_SHA384,
        SignatureScheme::RSA_PSS_SHA256,
        SignatureScheme::RSA_PKCS1_SHA512,
        SignatureScheme::RSA_PKCS1_SHA384,
        SignatureScheme::RSA_PKCS1_SHA256,
    ]
}

/// A TLS 1.2 cipher suite supported by this library.
#[derive(Debug)]
pub struct Tls12CipherSuite {
    /// Common cipher suite fields.
    pub common: CipherSuiteCommon,
    /// The associated protocol version.
    pub protocol_version: ProtocolVersion,
    /// How to compute the TLS1.2 PRF for the suite's hash function.
    pub prf_provider: Tls12Prf,
    /// How to exchange/agree keys.
    pub kx: KeyExchangeAlgorithm,
    /// How to sign messages for authentication.
    pub sign: Vec<SignatureScheme>,
    /// How to produce a record encrypter or decrypter suitable for use with this
    /// suite.
    pub aead_alg: Tls12AeadAlgorithm,
}

impl Tls12CipherSuite {
    /// Whether this is the suite with the given name and parts. All suites exchange
    /// keys by elliptic curves, and derive secrets with their hash function.
    pub open spec fn describes(
        &self,
        suite: CipherSuite,
        hash: HashAlgorithm,
        confidentiality_limit: u64,
        sign: Seq<SignatureScheme>,
        aead_alg: Tls12AeadAlgorithm,
    ) -> bool {
        &&& self.common == CipherSuiteCommon { suite, hash_provider: hash, confidentiality_limit }
        &&& self.protocol_version == ProtocolVersion::TLSv1_2
        &&& self.prf_provider == Tls12Prf(hash)
        &&& self.kx == KeyExchangeAlgorithm::ECDHE
        &&& self.sign@ == sign
        &&& self.aead_alg == aead_alg
    }

    /// Whether this is the suite with the given name.
    pub open spec fn is_suite(&self, suite: CipherSuite) -> bool {
        let sha256 = HashAlgorithm::SHA256;
        let sha384 = HashAlgorithm::SHA384;
        let limit = GCM_CONFIDENTIALITY_LIMIT;
        let aes128 = Tls12AeadAlgorithm::Gcm(GcmAlgorithm::AES128_GCM);
        let aes256 = Tls12AeadAlgorithm::Gcm(GcmAlgorithm::AES256_GCM);
        let chacha = Tls12AeadAlgorithm::ChaCha20Poly1305;
        match suite {
            CipherSuite::TLS_ECDHE_ECDSA_WITH_AES_128_GCM_SHA256 => self.describes(
                suite,
                sha256,
                limit,
                ecdsa_schemes(),
                aes128,
            ),
            CipherSuite::TLS_ECDHE_ECDSA_WITH_AES_256_GCM_SHA384 => self.describes(
                suite,
                sha384,
                limit,
                ecdsa_schemes(),
                aes256,
            ),
            CipherSuite::TLS_ECDHE_ECDSA_WITH_CHACHA20_POLY1305_SHA256 => self.describes(
                suite,
                sha256,
                u64::MAX,
                ecdsa_schemes(),
                chacha,
            ),
            CipherSuite::TLS_ECDHE_RSA_WITH_AES_128_GCM_SHA256 => self.describes(
                suite,
                sha256,
                limit,
                rsa_schemes(),
                aes128,
            ),
            CipherSuite::TLS_ECDHE_RSA_WITH_AES_256_GCM_SHA384 => self.describes(
                suite,
                sha384,
                limit,
                rsa_schemes(),
                aes256,
            ),
            CipherSuite::TLS_ECDHE_RSA_WITH_CHACHA20_POLY1305_SHA256 => self.describes(
                suite,
                sha256,
                u64::MAX,
                rsa_schemes(),
                chacha,
            ),
            _ => false,
        }
    }
}

/// The TLS1.2 ciphersuite TLS_ECDHE_ECDSA_WITH_CHACHA20_POLY1305_SHA256.
pub fn tls_ecdhe_ecdsa_with_chacha20_poly1305_sha256() -> (r: Tls12CipherSuite)
    ensures
        r.is_suite(CipherSuite::TLS_ECDHE_ECDSA_WITH_CHACHA20_POLY1305_SHA256),
{
    Tls12CipherSuite {
        common: CipherSuiteCommon {
            suite: CipherSuite::TLS_ECDHE_ECDSA_WITH_CHACHA20_POLY1305_SHA256,
            hash_provider: HashAlgorithm::SHA256,
            confidentiality_limit: u64::MAX,
        },
        protocol_version: ProtocolVersion::TLSv1_2,
        prf_provider: Tls12Prf(HashAlgorithm::SHA256),
        kx: KeyExchangeAlgorithm::ECDHE,
        sign: make_ecdsa_schemes(),
        aead_alg: Tls12AeadAlgorithm::ChaCha20Poly1305,
    }
}

/// The TLS1.2 ciphersuite TLS_ECDHE_RSA_WITH_CHACHA20_POLY1305_SHA256.
pub fn tls_ecdhe_rsa_with_chacha20_poly1305_sha256() -> (r: Tls12CipherSuite)
    ensures
        r.is_suite(CipherSuite::TLS_ECDHE_RSA_WITH_CHACHA20_POLY1305_SHA256),
{
    Tls12CipherSuite {
        common: CipherSuiteCommon {
            suite: CipherSuite::TLS_ECDHE_RSA_WITH_CHACHA20_POLY1305_SHA256,
            hash_provider: HashAlgorithm::SHA256,
            confidentiality_limit: u64::MAX,
        },
        protocol_version: ProtocolVersion::TLSv1_2,
        prf_provider: Tls12Prf(HashAlgorithm::SHA256),
        kx: KeyExchangeAlgorithm::ECDHE,
        sign: make_rsa_schemes(),
        aead_alg: Tls12AeadAlgorithm::ChaCha20Poly1305,
    }
}

/// The TLS1.2 ciphersuite TLS_ECDHE_RSA_WITH_AES_128_GCM_SHA256.
pub fn tls_ecdhe_rsa_with_aes_128_gcm_sha256() -> (r: Tls12CipherSuite)
    ensures
        r.is_suite(CipherSuite::TLS_ECDHE_RSA_WITH_AES_128_GCM_SHA256),
{
    Tls12CipherSuite {
        common: CipherSuiteCommon {
            suite: CipherSuite::TLS_ECDHE_RSA_WITH_AES_128_GCM_SHA256,
            hash_provider: HashAlgorithm::SHA256,
            confidentiality_limit: GCM_CONFIDENTIALITY_LIMIT,
        },
        protocol_version: ProtocolVersion::TLSv1_2,
        prf_provider: Tls12Prf(HashAlgorithm::SHA256),
        kx: KeyExchangeAlgorithm::ECDHE,
        sign: make_rsa_schemes(),
        aead_alg: Tls12AeadAlgorithm::Gcm(GcmAlgorithm::AES128_GCM),
    }
}

/// The TLS1.2 ciphersuite TLS_ECDHE_RSA_WITH_AES_256_GCM_SHA384.
pub fn tls_ecdhe_rsa_with_aes_256_gcm_sha384() -> (r: Tls12CipherSuite)
    ensures
        r.is_suite(CipherSuite::TLS_ECDHE_RSA_WITH_AES_256_GCM_SHA384),
{
    Tls12CipherSuite {
        common: CipherSuiteCommon {
            suite: CipherSuite::TLS_ECDHE_RSA_WITH_AES_256_GCM_SHA384,
            hash_provider: HashAlgorithm::SHA384,
            confidentiality_limit: GCM_CONFIDENTIALITY_LIMIT,
        },
        protocol_version: ProtocolVersion::TLSv1_2,
        prf_provider: Tls12Prf(HashAlgorithm::SHA384),
        kx: KeyExchangeAlgorithm::ECDHE,
        sign: make_rsa_schemes(),
        aead_alg: Tls12AeadAlgorithm::Gcm(GcmAlgorithm::AES256_GCM),
    }
}

/// The TLS1.2 ciphersuite TLS_ECDHE_ECDSA_WITH_AES_128_GCM_SHA256.
pub fn tls_ecdhe_ecdsa_with_aes_128_gcm_sha256() -> (r: Tls12CipherSuite)
    ensures
        r.is_suite(CipherSuite::TLS_ECDHE_ECDSA_WITH_AES_128_GCM_SHA256),
{
    Tls12CipherSuite {
        common: CipherSuiteCommon {
            suite: CipherSuite::TLS_ECDHE_ECDSA_WITH_AES_128_GCM_SHA256,
            hash_provider: HashAlgorithm::SHA256,
            confidentiality_limit: GCM_CONFIDENTIALITY_LIMIT,
        },
        protocol_version: ProtocolVersion::TLSv1_2,
        prf_provider: Tls12Prf(HashAlgorithm::SHA256),
        kx: KeyExchangeAlgorithm::ECDHE,
        sign: make_ecdsa_schemes(),
        aead_alg: Tls12AeadAlgorithm::Gcm(GcmAlgorithm::AES128_GCM),
    }
}

/// The TLS1.2 ciphersuite TLS_ECDHE_ECDSA_WITH_AES_256_GCM_SHA384.
pub fn tls_ecdhe_ecdsa_with_aes_256_gcm_sha384() -> (r: Tls12CipherSuite)
    ensures
        r.is_suite(CipherSuite::TLS_ECDHE_ECDSA_WITH_AES_256_GCM_SHA384),
{
    Tls12CipherSuite {
        common: CipherSuiteCommon {
            suite: CipherSuite::TLS_ECDHE_ECDSA_WITH_AES_256_GCM_SHA384,
            hash_provider: HashAlgorithm::SHA384,
            confidentiality_limit: GCM_CONFIDENTIALITY_LIMIT,
        },
        protocol_version: ProtocolVersion::TLSv1_2,
        prf_provider: Tls12Prf(HashAlgorithm::SHA384),
        kx: KeyExchangeAlgorithm::ECDHE,
        sign: make_ecdsa_schemes(),
        aead_alg: Tls12AeadAlgorithm::Gcm(GcmAlgorithm::AES256_GCM),
    }
}

/// Whether these are the suites with the given names.
pub open spec fn are_tls12_suites(suites: Seq<Tls12CipherSuite>, names: Seq<CipherSuite>) -> bool {
    &&& suites.len() == names.len()
    &&& forall|i: int| 0 <= i < suites.len() ==> #[trigger] suites[i].is_suite(names[i])
}

/// The TLS1.2 cipher suite configuration that an application should use by default.
///
/// This will be [`all_tls12_cipher_suites`] sans any supported cipher suites that
/// shouldn't be enabled by most applications. In FIPS builds, those that are not
/// approved are not enabled.
pub fn default_tls12_cipher_suites(fips: bool) -> (r: Vec<Tls12CipherSuite>)
    ensures
        fips ==> are_tls12_suites(
            r@,
            seq![
                CipherSuite::TLS_ECDHE_ECDSA_WITH_AES_128_GCM_SHA256,
                CipherSuite::TLS_ECDHE_ECDSA_WITH_AES_256_GCM_SHA384,
                CipherSuite::TLS_ECDHE_RSA_WITH_AES_128_GCM_SHA256,
                CipherSuite::TLS_ECDHE_RSA_WITH_AES_256_GCM_SHA384,
            ],
        ),
        !fips ==> are_tls12_suites(
            r@,
            seq![
                CipherSuite::TLS_ECDHE_ECDSA_WITH_AES_128_GCM_SHA256,
                CipherSuite::TLS_ECDHE_ECDSA_WITH_AES_256_GCM_SHA384,
                CipherSuite::TLS_ECDHE_ECDSA_WITH_CHACHA20_POLY1305_SHA256,
                CipherSuite::TLS_ECDHE_RSA_WITH_AES_128_GCM_SHA256,
                CipherSuite::TLS_ECDHE_RSA_WITH_AES_256_GCM_SHA384,
                CipherSuite::TLS_ECDHE_RSA_WITH_CHACHA20_POLY1305_SHA256,
            ],
        ),
{
    if fips {
        vec![
            tls_ecdhe_ecdsa_with_aes_128_gcm_sha256(),
            tls_ecdhe_ecdsa_with_aes_256_gcm_sha384(),
            tls_ecdhe_rsa_with_aes_128_gcm_sha256(),
            tls_ecdhe_rsa_with_aes_256_gcm_sha384(),
        ]
    } else {
        all_tls12_cipher_suites()
    }
}

/// A list of all the TLS1.2 cipher suites that are supported.
pub fn all_tls12_cipher_suites() -> (r: Vec<Tls12CipherSuite>)
    ensures
        are_tls12_suites(
            r@,
            seq![
                CipherSuite::TLS_ECDHE_ECDSA_WITH_AES_128_GCM_SHA256,
                CipherSuite::TLS_ECDHE_ECDSA_WITH_AES_256_GCM_SHA384,
                CipherSuite::TLS_ECDHE_ECDSA_WITH_CHACHA20_POLY1305_SHA256,
                CipherSuite::TLS_ECDHE_RSA_WITH_AES_128_GCM_SHA256,
                CipherSuite::TLS_ECDHE_RSA_WITH_AES_256_GCM_SHA384,
                CipherSuite::TLS_ECDHE_RSA_WITH_CHACHA20_POLY1305_SHA256,
            ],
        ),
{
    vec![
        tls_ecdhe_ecdsa_with_aes_128_gcm_sha256(),
        tls_ecdhe_ecdsa_with_aes_256_gcm_sha384(),
        tls_ecdhe_ecdsa_with_chacha20_poly1305_sha256(),
        tls_ecdhe_rsa_with_aes_128_gcm_sha256(),
        tls_ecdhe_rsa_with_aes_256_gcm_sha384(),
        tls_ecdhe_rsa_with_chacha20_poly1305_sha256(),
    ]
}

} // verus!
