//! Protection of TLS 1.2 records.

use vstd::prelude::*;

use crate::crypto::cipher::{
    can_seal, copy_into, is_fast, nonce_bytes, nonce_len_error, record_region, seal_into, seals,
    tags_agree, too_small, used_nonces, used_nonces_after, ContiguousRecordEncryptionProvider, Iv,
    Nonce, NonceUse, RecordDecryptionProvider, RecordEncryptionProvider, IV_MAX_LEN, NONCE_LEN,
};
use crate::enums::{ContentType, ProtocolVersion};
use crate::error::Error;
use crate::msgs::codec::{be_bytes, be_value, lemma_be_bytes_len, lemma_pow256_values, put_be};
use crate::msgs::message::OutboundPlain;
use crate::msgs::record::{EncodableVersion, InboundOpaque, Record, MAX_FRAGMENT_LEN};
use crate::msgs::wire_laws::{law_numbers_are_big_endian, lemma_written_at, number_at};

verus! {

/// Length of the additional data of a TLS 1.2 record.
pub const TLS12_AAD_SIZE: usize = 8 + 1 + 2 + 2;

/// Length of `explicit_nonce` for GCM suites
///
/// <https://www.rfc-editor.org/info/rfc5246/#section-6.2.3.3>
pub const GCM_EXPLICIT_NONCE_LEN: usize = 8;

/// How much longer a GCM record is than its plaintext.
pub const GCM_OVERHEAD: usize = GCM_EXPLICIT_NONCE_LEN + 16;

/// How much longer a ChaCha20-Poly1305 record is than its plaintext.
pub const CHACHAPOLY1305_OVERHEAD: usize = 16;

/// The additional data of a TLS 1.2 record.
///
/// See RFC 5246 s6.2.3.3 for the `additional_data` definition.
pub open spec fn tls12_aad(seq: u64, typ: ContentType, version: ProtocolVersion, len: nat) -> Seq<
    u8,
> {
    be_bytes(seq as nat, 8) + seq![typ.code()] + be_bytes(version.code() as nat, 2) + be_bytes(
        len,
        2,
    )
}

/// The additional data of a TLS 1.2 record has 13 bytes: the sequence number in the first
/// eight, the content type in the next one, then the version in two and the length of the
/// plaintext in the last two.
pub proof fn law_tls12_aad_fields(seq: u64, typ: ContentType, version: ProtocolVersion, len: nat)
    ensures
        ({
            let aad = tls12_aad(seq, typ, version, len);
            &&& aad.len() == 13
            &&& number_at(aad, 0, 8) == seq
            &&& aad[8] == typ.code()
            &&& number_at(aad, 9, 2) == version.code()
            &&& number_at(aad, 11, 2) == len % 0x1_0000
            &&& be_value(aad.subrange(0, 8)) == seq
            &&& be_value(aad.subrange(9, 11)) == version.code()
            &&& len <= 0xffff ==> be_value(aad.subrange(11, 13)) == len
        }),
{
    broadcast use lemma_be_bytes_len;

    lemma_pow256_values();
    let aad = tls12_aad(seq, typ, version, len);
    assert(aad.subrange(0, 8) =~= be_bytes(seq as nat, 8));
    assert(aad.subrange(9, 11) =~= be_bytes(version.code() as nat, 2));
    assert(aad.subrange(11, 13) =~= be_bytes(len, 2));
    lemma_written_at(aad, 0, seq as nat, 8);
    lemma_written_at(aad, 9, version.code() as nat, 2);
    lemma_written_at(aad, 11, len, 2);
    law_numbers_are_big_endian(aad, 0, 8);
    law_numbers_are_big_endian(aad, 9, 2);
    law_numbers_are_big_endian(aad, 11, 2);
}

/// Returns a TLS1.2 `additional_data` encoding.
///
/// See RFC 5246 s6.2.3.3 for the `additional_data` definition.
pub fn make_tls12_aad(seq: u64, typ: ContentType, vers: ProtocolVersion, len: usize) -> (r: [u8;
    13])
    ensures
        r@ == tls12_aad(seq, typ, vers, len as nat),
        number_at(r@, 0, 8) == seq,
        r[8] == typ.code(),
        number_at(r@, 9, 2) == vers.code(),
        number_at(r@, 11, 2) == len % 0x1_0000,
{
    broadcast use lemma_be_bytes_len;

    proof {
        law_tls12_aad_fields(seq, typ, vers, len as nat);
    }
    let mut out: [u8; 13] = [0u8; 13];
    {
        let bytes: &mut [u8] = &mut out;
        put_be(seq, 8, bytes, 0);
        bytes[8] = typ.to_u8();
        put_be(vers.to_u16() as u64, 2, bytes, 9);
        put_be(len as u64, 2, bytes, 11);
    }
    assert(out@ =~= tls12_aad(seq, typ, vers, len as nat));
    out
}

/// The IV of a GCM suite: the salt and then the explicit part.
pub fn gcm_iv(write_iv: &[u8], explicit: &[u8]) -> (r: Iv)
    requires
        write_iv@.len() == 4,
        explicit@.len() == 8,
    ensures
        r@ == write_iv@ + explicit@,
{
    // The GCM nonce is constructed from a 32-bit 'salt' derived
    // from the master-secret, and a 64-bit explicit part,
    // with no specified construction.  Thanks for that.
    //
    // We use the same construction as TLS1.3/ChaCha20Poly1305:
    // a starting point extracted from the key block, xored with
    // the sequence number.
    let mut iv: Vec<u8> = vstd::slice::slice_to_vec(write_iv);
    iv.extend_from_slice(explicit);
    Iv::new(iv.as_slice()).unwrap()
}

/// Protects records with the AES-GCM suites for TLS 1.2.
///
/// This struct implements TLS 1.2 protocol-level details but relies on
/// implementations of [`RecordEncryptionProvider`] and
/// [`ContiguousRecordEncryptionProvider`] for crypto primitives.
pub struct Tls12GcmRecordEncrypter<P, C> {
    provider: P,
    contiguous_provider: Option<C>,
    iv: Iv,
}

impl<P: RecordEncryptionProvider, C: ContiguousRecordEncryptionProvider> Tls12GcmRecordEncrypter<
    P,
    C,
> {
    /// The IV has the length of a nonce.
    pub closed spec fn wf(&self) -> bool {
        self.iv@.len() == NONCE_LEN
    }

    /// The IV that nonces are made from.
    pub closed spec fn iv(&self) -> Seq<u8> {
        self.iv@
    }

    /// The length of the tag.
    pub closed spec fn tag_size(&self) -> nat {
        self.provider.tag_size()
    }

    /// Whether `sealed` is what becomes of `plaintext`, given in one piece or not.
    pub closed spec fn seals(
        &self,
        single: bool,
        nonce: Seq<u8>,
        aad: Seq<u8>,
        plaintext: Seq<u8>,
        sealed: Seq<u8>,
    ) -> bool {
        seals(self.provider, self.contiguous_provider, single, nonce, aad, plaintext, sealed)
    }

    /// Whether a plaintext, given in one piece or not, goes to the contiguous
    /// provider.
    pub closed spec fn is_fast(&self, single: bool) -> bool {
        is_fast(self.contiguous_provider, single)
    }

    /// Whether the providers have tags of the same length.
    pub closed spec fn tags_agree(&self) -> bool {
        tags_agree(self.provider, self.contiguous_provider)
    }

    /// Which nonces the provider has used that a plaintext goes to.
    pub closed spec fn nonces(&self, single: bool) -> NonceUse {
        used_nonces(self.provider, self.contiguous_provider, single)
    }

    /// Which nonces that provider has used after this one was tried.
    pub closed spec fn nonces_after(
        &self,
        single: bool,
        used: NonceUse,
        nonce: Seq<u8>,
    ) -> NonceUse {
        used_nonces_after::<P, C>(self.is_fast(single), used, nonce)
    }

    /// Whether that provider can seal a plaintext if it has used these nonces.
    pub closed spec fn can_seal(
        &self,
        single: bool,
        used: NonceUse,
        nonce: Seq<u8>,
        aad_len: nat,
        len: nat,
        extra_len: nat,
    ) -> bool {
        can_seal(
            self.provider,
            self.contiguous_provider,
            single,
            used,
            nonce,
            aad_len,
            len,
            extra_len,
        )
    }

    /// Two encrypters that differ at most in the nonces that were used.
    pub open spec fn accepts_like(&self, other: Self) -> bool {
        &&& self.tags_agree() == other.tags_agree()
        &&& forall|single: bool| #[trigger] self.is_fast(single) == other.is_fast(single)
        &&& forall|single: bool, used: NonceUse, n: Seq<u8>| #[trigger]
            self.nonces_after(single, used, n) == other.nonces_after(single, used, n)
        &&& forall|single: bool, used: NonceUse, n: Seq<u8>, a: nat, l: nat, e: nat| #[trigger]
            self.can_seal(single, used, n, a, l, e) == other.can_seal(single, used, n, a, l, e)
    }

    /// The tags are no longer than the machine can count with the plaintext.
    pub closed spec fn can_take(&self, len: int) -> bool {
        &&& len + GCM_EXPLICIT_NONCE_LEN + self.provider.tag_size() <= usize::MAX
        &&& self.contiguous_provider matches Some(fast_path) ==> len
            + fast_path.contiguous_tag_size() <= usize::MAX
    }

    /// Create a new encrypter from the providers and IV.
    pub fn new(
        provider: P,
        contiguous_provider: Option<C>,
        write_iv: &[u8],
        explicit: &[u8],
    ) -> (r: Self)
        requires
            write_iv@.len() == 4,
            explicit@.len() == 8,
        ensures
            r.wf(),
            r.iv() == write_iv@ + explicit@,
            r.tag_size() == provider.tag_size(),
            forall|single: bool, n: Seq<u8>, a: Seq<u8>, p: Seq<u8>, s: Seq<u8>| #[trigger]
                r.seals(single, n, a, p, s) == seals(
                    provider,
                    contiguous_provider,
                    single,
                    n,
                    a,
                    p,
                    s,
                ),
            forall|len: int| #[trigger]
                r.can_take(len) == (len + GCM_EXPLICIT_NONCE_LEN + provider.tag_size()
                    <= usize::MAX && (contiguous_provider matches Some(fast_path) ==> len
                    + fast_path.contiguous_tag_size() <= usize::MAX)),
            r.tags_agree() == tags_agree(provider, contiguous_provider),
            forall|single: bool| #[trigger]
                r.is_fast(single) == is_fast(contiguous_provider, single),
            forall|single: bool| #[trigger]
                r.nonces(single) == used_nonces(provider, contiguous_provider, single),
            forall|single: bool, used: NonceUse, n: Seq<u8>| #[trigger]
                r.nonces_after(single, used, n) == used_nonces_after::<P, C>(
                    r.is_fast(single),
                    used,
                    n,
                ),
            forall|single: bool, used: NonceUse, n: Seq<u8>, a: nat, l: nat, e: nat| #[trigger]
                r.can_seal(single, used, n, a, l, e) == can_seal(
                    provider,
                    contiguous_provider,
                    single,
                    used,
                    n,
                    a,
                    l,
                    e,
                ),
    {
        Tls12GcmRecordEncrypter { provider, contiguous_provider, iv: gcm_iv(write_iv, explicit) }
    }

    /// Protects a record. The payload goes to `out`.
    pub fn encrypt<'a>(
        &mut self,
        record: Record<OutboundPlain<'_>>,
        seq: u64,
        out: &'a mut [u8],
    ) -> (r: Result<Record<&'a [u8]>, Error>)
        requires
            old(self).wf(),
            record.payload.wf(),
            old(self).can_take(record.payload@.len() as int),
        ensures
            ({
                let plaintext = record.payload@;
                let nonce = nonce_bytes(old(self).iv(), seq);
                let aad = tls12_aad(seq, record.typ, record.version.shown(), plaintext.len());
                let total = (plaintext.len() + GCM_EXPLICIT_NONCE_LEN + old(self).tag_size()) as int;
                let is_single = record.payload is Single;
                let called = old(out)@.len() >= total && nonce.len() == NONCE_LEN;
                &&& final(out)@.len() == old(out)@.len()
                &&& old(out)@.len() < total ==> r == Err::<Record<&'a [u8]>, Error>(
                    too_small(total, old(out)@.len() as int),
                ) && final(out)@ == old(out)@
                &&& old(out)@.len() >= total ==> final(out)@.skip(total) == old(out)@.skip(total)
                &&& old(out)@.len() >= total && r is Err ==> r == Err::<Record<&'a [u8]>, Error>(
                    Error::EncryptError,
                )
                &&& called ==> (r is Ok <==> old(self).can_seal(
                    is_single,
                    old(self).nonces(is_single),
                    nonce,
                    aad.len(),
                    plaintext.len(),
                    0,
                ))
                &&& forall|single: bool| #[trigger]
                    final(self).nonces(single) == if called && old(self).is_fast(single) == old(
                        self).is_fast(is_single) && (old(self).is_fast(single) ==> old(
                        self).tags_agree()) {
                        old(self).nonces_after(single, old(self).nonces(single), nonce)
                    } else {
                        old(self).nonces(single)
                    }
                &&& r matches Ok(protected) ==> {
                    &&& protected.typ == record.typ
                    &&& protected.version == record.version
                    &&& protected.payload@.len() == total
                    &&& protected.payload@ == final(out)@.take(total)
                    &&& protected.payload@.take(8) == nonce.skip(4)
                    &&& old(self).seals(
                        is_single,
                        nonce,
                        aad,
                        plaintext,
                        protected.payload@.skip(8),
                    )
                }
            }),
            final(self).wf(),
            final(self).iv() == old(self).iv(),
            final(self).tag_size() == old(self).tag_size(),
            final(self).accepts_like(*old(self)),
            forall|len: int| #[trigger] final(self).can_take(len) == old(self).can_take(len),
            forall|single: bool, n: Seq<u8>, a: Seq<u8>, p: Seq<u8>, s: Seq<u8>| #[trigger]
                final(self).seals(single, n, a, p, s) == old(self).seals(single, n, a, p, s),
    {
        let len: usize = record.payload.len();
        let total_len: usize = self.encrypted_payload_len(len);
        let nonce = Nonce::new(&self.iv, seq);
        let aad = make_tls12_aad(seq, record.typ, record.version.encode(), len);
        let region = match record_region(out, total_len) {
            Ok(region) => region,
            Err(e) => return Err(e),
        };
        let ghost mut body: Seq<u8> = Seq::empty();
        let sealed = {
            let (explicit_nonce, sealed) = region.split_at_mut(GCM_EXPLICIT_NONCE_LEN);
            // For AES-GCM suites, prefix plaintext with explicit nonce
            // <https://www.rfc-editor.org/info/rfc5246/#section-6.2.3.3>
            copy_into(
                explicit_nonce,
                0,
                vstd::slice::slice_subrange(nonce.bytes.as_slice(), 4, NONCE_LEN),
            );
            // no extra plaintext for TLS 1.2
            let none: &[u8] = vstd::slice::slice_subrange(nonce.bytes.as_slice(), 0, 0);
            let aad: &[u8] = &aad;
            assert(record.payload@ + none@ =~= record.payload@);
            assert(explicit_nonce@ =~= nonce@.skip(4));
            let result = seal_into(
                &mut self.provider,
                &mut self.contiguous_provider,
                Nonce::new(&self.iv, seq),
                aad,
                &record.payload,
                none,
                sealed,
            );
            proof {
                body = sealed@;
            }
            result
        };
        assert(region@ =~= nonce@.skip(4) + body);
        assert(region@.take(8) =~= nonce@.skip(4));
        assert(region@.skip(8) =~= body);
        match sealed {
            Ok(()) => Ok(
                Record { typ: record.typ, version: record.version, payload: &*region },
            ),
            Err(e) => Err(e),
        }
    }

    /// The length of a protected payload.
    pub fn encrypted_payload_len(&self, payload_len: usize) -> (r: usize)
        requires
            self.can_take(payload_len as int),
        ensures
            r == payload_len + GCM_EXPLICIT_NONCE_LEN + self.tag_size(),
    {
        payload_len + GCM_EXPLICIT_NONCE_LEN + self.provider.tag_len()
    }

    pub fn protocol_version(&self) -> (r: ProtocolVersion)
        ensures
            r == ProtocolVersion::TLSv1_2,
    {
        ProtocolVersion::TLSv1_2
    }
}

/// Opens records of the AES-GCM suites for TLS 1.2.
///
/// This struct implements TLS 1.2 protocol-level details but relies on
/// implementations of [`RecordDecryptionProvider`] for crypto primitives.
pub struct Tls12GcmRecordDecrypter<P> {
    provider: P,
    dec_salt: [u8; 4],
}

/// What becomes of a plaintext that was opened, or not.
pub open spec fn plaintext_outcome(opened: Option<Seq<u8>>) -> Result<Seq<u8>, Error> {
    match opened {
        None => Err(Error::DecryptError),
        Some(plaintext) => if plaintext.len() > MAX_FRAGMENT_LEN {
            Err(Error::PeerSentOversizedRecord)
        } else {
            Ok(plaintext)
        },
    }
}

impl<P: RecordDecryptionProvider> Tls12GcmRecordDecrypter<P> {
    /// The part of the nonce that is not in the record.
    pub closed spec fn salt(&self) -> Seq<u8> {
        self.dec_salt@
    }

    /// What opening makes of a ciphertext and tag.
    pub closed spec fn opened(&self, nonce: Seq<u8>, aad: Seq<u8>, sealed: Seq<u8>) -> Option<
        Seq<u8>,
    > {
        self.provider.opened(nonce, aad, sealed)
    }

    /// Where the provider takes the ciphertext to begin.
    pub closed spec fn origin(&self, ciphertext_and_tag: int) -> int {
        self.provider.origin(ciphertext_and_tag)
    }

    /// What becomes of a record with the given payload.
    pub open spec fn outcome(
        &self,
        typ: ContentType,
        version: EncodableVersion,
        seq: u64,
        payload: Seq<u8>,
    ) -> Result<Seq<u8>, Error> {
        if payload.len() < GCM_OVERHEAD {
            Err(Error::DecryptError)
        } else {
            plaintext_outcome(
                self.opened(
                    self.salt() + payload.take(8),
                    tls12_aad(seq, typ, version.actual(), (payload.len() - GCM_OVERHEAD) as nat),
                    payload.skip(self.origin(GCM_EXPLICIT_NONCE_LEN as int)),
                ),
            )
        }
    }

    /// Create a new decrypter from the provider and the salt.
    pub fn new(provider: P, dec_iv: &[u8]) -> (r: Self)
        requires
            dec_iv@.len() == 4,
        ensures
            r.salt() == dec_iv@,
            forall|n: Seq<u8>, a: Seq<u8>, s: Seq<u8>| #[trigger]
                r.opened(n, a, s) == provider.opened(n, a, s),
            forall|start: int| #[trigger] r.origin(start) == provider.origin(start),
    {
        let dec_salt: [u8; 4] = [dec_iv[0], dec_iv[1], dec_iv[2], dec_iv[3]];
        assert(dec_salt@ =~= dec_iv@);
        Tls12GcmRecordDecrypter { provider, dec_salt }
    }

    /// Opens a record in place.
    pub fn decrypt<'a>(&mut self, record: Record<InboundOpaque<'a>>, seq: u64) -> (r: Result<
        Record<&'a [u8]>,
        Error,
    >)
        ensures
            match (
                r,
                old(self).outcome(record.typ, record.version, seq, old(record.payload.1)@),
            ) {
                (Ok(opened), Ok(plaintext)) => {
                    &&& opened.typ == record.typ
                    &&& opened.version == record.version
                    &&& opened.payload@ == plaintext
                },
                (Err(e), Err(expected)) => e == expected,
                _ => false,
            },
            final(record.payload.0)@ == old(record.payload.0)@,
            final(record.payload.1)@.len() == old(record.payload.1)@.len(),
            final(self).salt() == old(self).salt(),
            forall|n: Seq<u8>, a: Seq<u8>, s: Seq<u8>| #[trigger]
                final(self).opened(n, a, s) == old(self).opened(n, a, s),
            forall|start: int| #[trigger] final(self).origin(start) == old(self).origin(start),
    {
        let Record { typ, version, payload } = record;
        let InboundOpaque(_header, payload) = payload;
        if payload.len() < GCM_OVERHEAD {
            return Err(Error::DecryptError);
        }
        let mut nonce: Vec<u8> = vstd::slice::slice_to_vec(self.dec_salt.as_slice());
        nonce.extend_from_slice(
            vstd::slice::slice_subrange(&*payload, 0, GCM_EXPLICIT_NONCE_LEN),
        );
        assert(nonce@ =~= self.dec_salt@ + payload@.take(8));
        let aad = make_tls12_aad(seq, typ, version.version(), payload.len() - GCM_OVERHEAD);
        let aad: &[u8] = &aad;
        let plain_len: usize = match self.provider.decrypt(
            Nonce { bytes: nonce },
            aad,
            payload,
            GCM_EXPLICIT_NONCE_LEN,
        ) {
            Ok(plain_len) => plain_len,
            Err(e) => return Err(e),
        };
        if plain_len > MAX_FRAGMENT_LEN {
            return Err(Error::PeerSentOversizedRecord);
        }
        Ok(
            Record {
                typ,
                version,
                payload: vstd::slice::slice_subrange(&*payload, 0, plain_len),
            },
        )
    }
}

/// Protects records with the ChaCha20-Poly1305 suites for TLS 1.2.
///
/// This struct implements TLS 1.2 protocol-level details but relies on
/// implementations of [`RecordEncryptionProvider`] and
/// [`ContiguousRecordEncryptionProvider`] for crypto primitives.
pub struct Tls12ChaCha20Poly1305RecordEncrypter<P, C> {
    provider: P,
    contiguous_provider: Option<C>,
    iv: Iv,
}

impl<
    P: RecordEncryptionProvider,
    C: ContiguousRecordEncryptionProvider,
> Tls12ChaCha20Poly1305RecordEncrypter<P, C> {
    /// The IV that nonces are made from.
    pub closed spec fn iv(&self) -> Seq<u8> {
        self.iv@
    }

    /// The length of the tag.
    pub closed spec fn tag_size(&self) -> nat {
        self.provider.tag_size()
    }

    /// Whether `sealed` is what becomes of `plaintext`, given in one piece or not.
    pub closed spec fn seals(
        &self,
        single: bool,
        nonce: Seq<u8>,
        aad: Seq<u8>,
        plaintext: Seq<u8>,
        sealed: Seq<u8>,
    ) -> bool {
        seals(self.provider, self.contiguous_provider, single, nonce, aad, plaintext, sealed)
    }

    /// Whether a plaintext, given in one piece or not, goes to the contiguous
    /// provider.
    pub closed spec fn is_fast(&self, single: bool) -> bool {
        is_fast(self.contiguous_provider, single)
    }

    /// Whether the providers have tags of the same length.
    pub closed spec fn tags_agree(&self) -> bool {
        tags_agree(self.provider, self.contiguous_provider)
    }

    /// Which nonces the provider has used that a plaintext goes to.
    pub closed spec fn nonces(&self, single: bool) -> NonceUse {
        used_nonces(self.provider, self.contiguous_provider, single)
    }

    /// Which nonces that provider has used after this one was tried.
    pub closed spec fn nonces_after(
        &self,
        single: bool,
        used: NonceUse,
        nonce: Seq<u8>,
    ) -> NonceUse {
        used_nonces_after::<P, C>(self.is_fast(single), used, nonce)
    }

    /// Whether that provider can seal a plaintext if it has used these nonces.
    pub closed spec fn can_seal(
        &self,
        single: bool,
        used: NonceUse,
        nonce: Seq<u8>,
        aad_len: nat,
        len: nat,
        extra_len: nat,
    ) -> bool {
        can_seal(
            self.provider,
            self.contiguous_provider,
            single,
            used,
            nonce,
            aad_len,
            len,
            extra_len,
        )
    }

    /// Two encrypters that differ at most in the nonces that were used.
    pub open spec fn accepts_like(&self, other: Self) -> bool {
        &&& self.tags_agree() == other.tags_agree()
        &&& forall|single: bool| #[trigger] self.is_fast(single) == other.is_fast(single)
        &&& forall|single: bool, used: NonceUse, n: Seq<u8>| #[trigger]
            self.nonces_after(single, used, n) == other.nonces_after(single, used, n)
        &&& forall|single: bool, used: NonceUse, n: Seq<u8>, a: nat, l: nat, e: nat| #[trigger]
            self.can_seal(single, used, n, a, l, e) == other.can_seal(single, used, n, a, l, e)
    }

    /// The tags are no longer than the machine can count with the plaintext.
    pub closed spec fn can_take(&self, len: int) -> bool {
        &&& len + self.provider.tag_size() <= usize::MAX
        &&& self.contiguous_provider matches Some(fast_path) ==> len
            + fast_path.contiguous_tag_size() <= usize::MAX
    }

    /// Create a new encrypter from the providers and IV.
    pub fn new(provider: P, contiguous_provider: Option<C>, write_iv: &[u8]) -> (r: Self)
        requires
            write_iv@.len() <= IV_MAX_LEN,
        ensures
            r.iv() == write_iv@,
            r.tag_size() == provider.tag_size(),
            forall|single: bool, n: Seq<u8>, a: Seq<u8>, p: Seq<u8>, s: Seq<u8>| #[trigger]
                r.seals(single, n, a, p, s) == seals(
                    provider,
                    contiguous_provider,
                    single,
                    n,
                    a,
                    p,
                    s,
                ),
            forall|len: int| #[trigger]
                r.can_take(len) == (len + provider.tag_size() <= usize::MAX && (
                contiguous_provider matches Some(fast_path) ==> len
                    + fast_path.contiguous_tag_size() <= usize::MAX)),
            r.tags_agree() == tags_agree(provider, contiguous_provider),
            forall|single: bool| #[trigger]
                r.is_fast(single) == is_fast(contiguous_provider, single),
            forall|single: bool| #[trigger]
                r.nonces(single) == used_nonces(provider, contiguous_provider, single),
            forall|single: bool, used: NonceUse, n: Seq<u8>| #[trigger]
                r.nonces_after(single, used, n) == used_nonces_after::<P, C>(
                    r.is_fast(single),
                    used,
                    n,
                ),
            forall|single: bool, used: NonceUse, n: Seq<u8>, a: nat, l: nat, e: nat| #[trigger]
                r.can_seal(single, used, n, a, l, e) == can_seal(
                    provider,
                    contiguous_provider,
                    single,
                    used,
                    n,
                    a,
                    l,
                    e,
                ),
    {
        Tls12ChaCha20Poly1305RecordEncrypter {
            provider,
            contiguous_provider,
            iv: Iv::new(write_iv).unwrap(),
        }
    }

    /// Protects a record. The payload goes to `out`.
    pub fn encrypt<'a>(
        &mut self,
        record: Record<OutboundPlain<'_>>,
        seq: u64,
        out: &'a mut [u8],
    ) -> (r: Result<Record<&'a [u8]>, Error>)
        requires
            record.payload.wf(),
            old(self).can_take(record.payload@.len() as int),
        ensures
            ({
                let plaintext = record.payload@;
                let nonce = nonce_bytes(old(self).iv(), seq);
                let aad = tls12_aad(seq, record.typ, record.version.shown(), plaintext.len());
                let total = (plaintext.len() + old(self).tag_size()) as int;
                let is_single = record.payload is Single;
                let called = old(out)@.len() >= total && nonce.len() == NONCE_LEN;
                &&& final(out)@.len() == old(out)@.len()
                &&& old(out)@.len() < total ==> r == Err::<Record<&'a [u8]>, Error>(
                    too_small(total, old(out)@.len() as int),
                ) && final(out)@ == old(out)@
                &&& old(out)@.len() >= total ==> final(out)@.skip(total) == old(out)@.skip(total)
                &&& old(out)@.len() >= total && nonce.len() != NONCE_LEN ==> r == Err::<
                    Record<&'a [u8]>,
                    Error,
                >(nonce_len_error(nonce.len()))
                &&& old(out)@.len() >= total && nonce.len() == NONCE_LEN && r is Err ==> r == Err::<
                    Record<&'a [u8]>,
                    Error,
                >(Error::EncryptError)
                &&& called ==> (r is Ok <==> old(self).can_seal(
                    is_single,
                    old(self).nonces(is_single),
                    nonce,
                    aad.len(),
                    plaintext.len(),
                    0,
                ))
                &&& forall|single: bool| #[trigger]
                    final(self).nonces(single) == if called && old(self).is_fast(single) == old(
                        self).is_fast(is_single) && (old(self).is_fast(single) ==> old(
                        self).tags_agree()) {
                        old(self).nonces_after(single, old(self).nonces(single), nonce)
                    } else {
                        old(self).nonces(single)
                    }
                &&& r matches Ok(protected) ==> {
                    &&& protected.typ == record.typ
                    &&& protected.version == record.version
                    &&& protected.payload@.len() == total
                    &&& protected.payload@ == final(out)@.take(total)
                    &&& old(self).seals(
                        is_single,
                        nonce,
                        aad,
                        plaintext,
                        protected.payload@,
                    )
                }
            }),
            final(self).iv() == old(self).iv(),
            final(self).tag_size() == old(self).tag_size(),
            final(self).accepts_like(*old(self)),
            forall|len: int| #[trigger] final(self).can_take(len) == old(self).can_take(len),
            forall|single: bool, n: Seq<u8>, a: Seq<u8>, p: Seq<u8>, s: Seq<u8>| #[trigger]
                final(self).seals(single, n, a, p, s) == old(self).seals(single, n, a, p, s),
    {
        let len: usize = record.payload.len();
        let total_len: usize = self.encrypted_payload_len(len);
        let nonce = Nonce::new(&self.iv, seq);
        let aad = make_tls12_aad(seq, record.typ, record.version.encode(), len);
        let region = match record_region(out, total_len) {
            Ok(region) => region,
            Err(e) => return Err(e),
        };
        match nonce.to_array() {
            Ok(_) => {},
            Err(e) => return Err(e),
        }
        // no extra plaintext for TLS 1.2
        let none: Vec<u8> = Vec::new();
        let aad: &[u8] = &aad;
        assert(record.payload@ + none@ =~= record.payload@);
        match seal_into(
            &mut self.provider,
            &mut self.contiguous_provider,
            nonce,
            aad,
            &record.payload,
            none.as_slice(),
            region,
        ) {
            Ok(()) => Ok(
                Record { typ: record.typ, version: record.version, payload: &*region },
            ),
            Err(e) => Err(e),
        }
    }

    /// The length of a protected payload.
    pub fn encrypted_payload_len(&self, payload_len: usize) -> (r: usize)
        requires
            self.can_take(payload_len as int),
        ensures
            r == payload_len + self.tag_size(),
    {
        payload_len + self.provider.tag_len()
    }

    pub fn protocol_version(&self) -> (r: ProtocolVersion)
        ensures
            r == ProtocolVersion::TLSv1_2,
    {
        ProtocolVersion::TLSv1_2
    }
}

/// Opens records of the ChaCha20-Poly1305 suites for TLS 1.2.
///
/// This struct implements TLS 1.2 protocol-level details but relies on
/// implementations of [`RecordDecryptionProvider`] for crypto primitives.
pub struct Tls12ChaCha20Poly1305RecordDecrypter<P> {
    provider: P,
    dec_offset: Iv,
}

impl<P: RecordDecryptionProvider> Tls12ChaCha20Poly1305RecordDecrypter<P> {
    /// The IV that nonces are made from.
    pub closed spec fn iv(&self) -> Seq<u8> {
        self.dec_offset@
    }

    /// What opening makes of a ciphertext and tag.
    pub closed spec fn opened(&self, nonce: Seq<u8>, aad: Seq<u8>, sealed: Seq<u8>) -> Option<
        Seq<u8>,
    > {
        self.provider.opened(nonce, aad, sealed)
    }

    /// What becomes of a record with the given payload.
    pub open spec fn outcome(
        &self,
        typ: ContentType,
        version: EncodableVersion,
        seq: u64,
        payload: Seq<u8>,
    ) -> Result<Seq<u8>, Error> {
        if payload.len() < CHACHAPOLY1305_OVERHEAD {
            Err(Error::DecryptError)
        } else if self.iv().len() != NONCE_LEN {
            Err(nonce_len_error(self.iv().len()))
        } else {
            plaintext_outcome(
                self.opened(
                    nonce_bytes(self.iv(), seq),
                    tls12_aad(
                        seq,
                        typ,
                        version.actual(),
                        (payload.len() - CHACHAPOLY1305_OVERHEAD) as nat,
                    ),
                    payload,
                ),
            )
        }
    }

    /// Create a new decrypter from the provider and IV.
    pub fn new(provider: P, iv: &[u8]) -> (r: Self)
        requires
            iv@.len() <= IV_MAX_LEN,
        ensures
            r.iv() == iv@,
            forall|n: Seq<u8>, a: Seq<u8>, s: Seq<u8>| #[trigger]
                r.opened(n, a, s) == provider.opened(n, a, s),
    {
        Tls12ChaCha20Poly1305RecordDecrypter { provider, dec_offset: Iv::new(iv).unwrap() }
    }

    /// Opens a record in place.
    pub fn decrypt<'a>(&mut self, record: Record<InboundOpaque<'a>>, seq: u64) -> (r: Result<
        Record<&'a [u8]>,
        Error,
    >)
        ensures
            match (
                r,
                old(self).outcome(record.typ, record.version, seq, old(record.payload.1)@),
            ) {
                (Ok(opened), Ok(plaintext)) => {
                    &&& opened.typ == record.typ
                    &&& opened.version == record.version
                    &&& opened.payload@ == plaintext
                },
                (Err(e), Err(expected)) => e == expected,
                _ => false,
            },
            final(record.payload.0)@ == old(record.payload.0)@,
            final(record.payload.1)@.len() == old(record.payload.1)@.len(),
            final(self).iv() == old(self).iv(),
            forall|n: Seq<u8>, a: Seq<u8>, s: Seq<u8>| #[trigger]
                final(self).opened(n, a, s) == old(self).opened(n, a, s),
    {
        let Record { typ, version, payload } = record;
        let InboundOpaque(_header, payload) = payload;
        if payload.len() < CHACHAPOLY1305_OVERHEAD {
            return Err(Error::DecryptError);
        }
        let nonce = Nonce::new(&self.dec_offset, seq);
        let aad = make_tls12_aad(
            seq,
            typ,
            version.version(),
            payload.len() - CHACHAPOLY1305_OVERHEAD,
        );
        let aad: &[u8] = &aad;
        assert(payload@.skip(0) =~= payload@);
        let decrypted = self.provider.decrypt(nonce, aad, payload, 0);
        assert(old(self).provider.origin(0) == 0);
        let plain_len: usize = match decrypted {
            Ok(plain_len) => plain_len,
            Err(e) => return Err(e),
        };
        if plain_len > MAX_FRAGMENT_LEN {
            return Err(Error::PeerSentOversizedRecord);
        }
        Ok(
            Record {
                typ,
                version,
                payload: vstd::slice::slice_subrange(&*payload, 0, plain_len),
            },
        )
    }
}

} // verus!
