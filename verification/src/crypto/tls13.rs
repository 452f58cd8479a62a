//! Protection of TLS 1.3 records.

use vstd::prelude::*;

use crate::crypto::cipher::{
    can_seal, is_fast, nonce_bytes, nonce_len_error, record_region, seal_into, seals, tags_agree,
    too_small, used_nonces, used_nonces_after, ContiguousRecordEncryptionProvider, Iv, Nonce,
    NonceUse, RecordDecryptionProvider, RecordEncryptionProvider, NONCE_LEN,
};
use crate::enums::{ContentType, ProtocolVersion};
use crate::error::Error;
use crate::msgs::codec::{be_bytes, be_value, lemma_be_bytes_len, put_be};
use crate::msgs::message::{record_header_bytes, OutboundPlain};
use crate::msgs::record::{
    tls13_inner_plaintext, EncodableVersion, InboundOpaque, Record,
};
use crate::msgs::wire_laws::{law_numbers_are_big_endian, law_record_header_fields, number_at};

verus! {

/// TLS 1.3 AAD length.
///
/// 1 byte for content type, two bytes for version, two bytes for payload length.
pub const TLS13_AAD_SIZE: usize = 1 + 2 + 2;

/// The additional data of a TLS 1.3 record.
///
/// See RFC 9846 s5.2 for the `additional_data` definition.
pub open spec fn tls13_aad(typ: ContentType, version: ProtocolVersion, payload_len: nat) -> Seq<
    u8,
> {
    seq![typ.code()] + be_bytes(version.code() as nat, 2) + be_bytes(payload_len, 2)
}

/// The additional data of a TLS 1.3 record is its header as it stands on the wire: the
/// content type in the first byte, then the version in two bytes and the length of the
/// protected payload in two.
pub proof fn law_tls13_aad_is_record_header(
    typ: ContentType,
    version: ProtocolVersion,
    payload_len: nat,
)
    ensures
        ({
            let aad = tls13_aad(typ, version, payload_len);
            &&& aad == record_header_bytes(typ, version, None, payload_len)
            &&& aad.len() == 5
            &&& aad[0] == typ.code()
            &&& number_at(aad, 1, 2) == version.code()
            &&& number_at(aad, 3, 2) == payload_len % 0x1_0000
            &&& be_value(aad.subrange(1, 3)) == version.code()
            &&& payload_len <= 0xffff ==> be_value(aad.subrange(3, 5)) == payload_len
        }),
{
    let aad = tls13_aad(typ, version, payload_len);
    assert(aad =~= record_header_bytes(typ, version, None, payload_len));
    law_record_header_fields(typ, version, None, payload_len);
    law_numbers_are_big_endian(aad, 1, 2);
    law_numbers_are_big_endian(aad, 3, 2);
}

/// Returns a TLS1.3 `additional_data` encoding.
///
/// For decryption, the parameters should be those that were received on the wire.
/// For encryption, the parameters should be those that will be put on the wire.
///
/// See RFC 9846 s5.2 for the `additional_data` definition.
pub fn make_tls13_aad(typ: ContentType, version: ProtocolVersion, payload_len: usize) -> (r: [u8;
    5])
    ensures
        r@ == tls13_aad(typ, version, payload_len as nat),
        r@ == record_header_bytes(typ, version, None, payload_len as nat),
        r[0] == typ.code(),
        number_at(r@, 1, 2) == version.code(),
        number_at(r@, 3, 2) == payload_len % 0x1_0000,
{
    broadcast use lemma_be_bytes_len;

    proof {
        law_tls13_aad_is_record_header(typ, version, payload_len as nat);
    }
    let mut out: [u8; 5] = [0u8; 5];
    {
        let bytes: &mut [u8] = &mut out;
        bytes[0] = typ.to_u8();
        put_be(version.to_u16() as u64, 2, bytes, 1);
        put_be(payload_len as u64, 2, bytes, 3);
    }
    assert(out@ =~= tls13_aad(typ, version, payload_len as nat));
    out
}

/// Protects records of TLS 1.3.
///
/// This struct implements TLS 1.3 protocol-level details but relies on
/// implementations of [`RecordEncryptionProvider`] and
/// [`ContiguousRecordEncryptionProvider`] for crypto primitives.
pub struct Tls13RecordEncrypter<P, C> {
    provider: P,
    contiguous_provider: Option<C>,
    iv: Iv,
}

impl<P: RecordEncryptionProvider, C: ContiguousRecordEncryptionProvider> Tls13RecordEncrypter<
    P,
    C,
> {
    /// The IV that nonces are made from.
    pub closed spec fn iv(&self) -> Seq<u8> {
        self.iv@
    }

    /// The length of the tag.
    pub closed spec fn tag_size(&self) -> nat {
        self.provider.tag_size()
    }

    /// Whether `sealed` is what becomes of `plaintext`, given in one piece or not.
    pub closed spec fn seals(
        &self,
        single: bool,
        nonce: Seq<u8>,
        aad: Seq<u8>,
        plaintext: Seq<u8>,
        sealed: Seq<u8>,
    ) -> bool {
        seals(self.provider, self.contiguous_provider, single, nonce, aad, plaintext, sealed)
    }

    /// Whether a plaintext, given in one piece or not, goes to the contiguous
    /// provider.
    pub closed spec fn is_fast(&self, single: bool) -> bool {
        is_fast(self.contiguous_provider, single)
    }

    /// Whether the providers have tags of the same length.
    pub closed spec fn tags_agree(&self) -> bool {
        tags_agree(self.provider, self.contiguous_provider)
    }

    /// Which nonces the provider has used that a plaintext goes to.
    pub closed spec fn nonces(&self, single: bool) -> NonceUse {
        used_nonces(self.provider, self.contiguous_provider, single)
    }

    /// Which nonces that provider has used after this one was tried.
    pub closed spec fn nonces_after(
        &self,
        single: bool,
        used: NonceUse,
        nonce: Seq<u8>,
    ) -> NonceUse {
        used_nonces_after::<P, C>(self.is_fast(single), used, nonce)
    }

    /// Whether that provider can seal a plaintext if it has used these nonces.
    pub closed spec fn can_seal(
        &self,
        single: bool,
        used: NonceUse,
        nonce: Seq<u8>,
        aad_len: nat,
        len: nat,
        extra_len: nat,
    ) -> bool {
        can_seal(
            self.provider,
            self.contiguous_provider,
            single,
            used,
            nonce,
            aad_len,
            len,
            extra_len,
        )
    }

    /// Two encrypters that differ at most in the nonces that were used.
    pub open spec fn accepts_like(&self, other: Self) -> bool {
        &&& self.tags_agree() == other.tags_agree()
        &&& forall|single: bool| #[trigger] self.is_fast(single) == other.is_fast(single)
        &&& forall|single: bool, used: NonceUse, n: Seq<u8>| #[trigger]
            self.nonces_after(single, used, n) == other.nonces_after(single, used, n)
        &&& forall|single: bool, used: NonceUse, n: Seq<u8>, a: nat, l: nat, e: nat| #[trigger]
            self.can_seal(single, used, n, a, l, e) == other.can_seal(single, used, n, a, l, e)
    }

    /// The tags are no longer than the machine can count with the plaintext.
    pub closed spec fn can_take(&self, len: int) -> bool {
        &&& len + 1 + self.provider.tag_size() <= usize::MAX
        &&& self.contiguous_provider matches Some(fast_path) ==> len + 1
            + fast_path.contiguous_tag_size() <= usize::MAX
    }

    /// Create a new encrypter from the providers and IV.
    pub fn new(provider: P, contiguous_provider: Option<C>, iv: Iv) -> (r: Self)
        ensures
            r.iv() == iv@,
            r.tag_size() == provider.tag_size(),
            forall|single: bool, n: Seq<u8>, a: Seq<u8>, p: Seq<u8>, s: Seq<u8>| #[trigger]
                r.seals(single, n, a, p, s) == seals(
                    provider,
                    contiguous_provider,
                    single,
                    n,
                    a,
                    p,
                    s,
                ),
            forall|len: int| #[trigger]
                r.can_take(len) == (len + 1 + provider.tag_size() <= usize::MAX && (
                contiguous_provider matches Some(fast_path) ==> len + 1
                    + fast_path.contiguous_tag_size() <= usize::MAX)),
            r.tags_agree() == tags_agree(provider, contiguous_provider),
            forall|single: bool| #[trigger]
                r.is_fast(single) == is_fast(contiguous_provider, single),
            forall|single: bool| #[trigger]
                r.nonces(single) == used_nonces(provider, contiguous_provider, single),
            forall|single: bool, used: NonceUse, n: Seq<u8>| #[trigger]
                r.nonces_after(single, used, n) == used_nonces_after::<P, C>(
                    r.is_fast(single),
                    used,
                    n,
                ),
            forall|single: bool, used: NonceUse, n: Seq<u8>, a: nat, l: nat, e: nat| #[trigger]
                r.can_seal(single, used, n, a, l, e) == can_seal(
                    provider,
                    contiguous_provider,
                    single,
                    used,
                    n,
                    a,
                    l,
                    e,
                ),
    {
        Tls13RecordEncrypter { provider, contiguous_provider, iv }
    }

    /// Protects a record. The payload goes to `out`. To the outside, the record is
    /// application data; the real content type is sealed behind the plaintext.
    pub fn encrypt<'a>(
        &mut self,
        record: Record<OutboundPlain<'_>>,
        seq: u64,
        out: &'a mut [u8],
    ) -> (r: Result<Record<&'a [u8]>, Error>)
        requires
            record.payload.wf(),
            old(self).can_take(record.payload@.len() as int),
        ensures
            ({
                let inner = record.payload@.push(record.typ.code());
                let nonce = nonce_bytes(old(self).iv(), seq);
                let total = (record.payload@.len() + 1 + old(self).tag_size()) as int;
                let aad = tls13_aad(
                    ContentType::ApplicationData,
                    record.version.shown(),
                    total as nat,
                );
                let is_single = record.payload is Single;
                let called = old(out)@.len() >= total && nonce.len() == NONCE_LEN;
                &&& final(out)@.len() == old(out)@.len()
                &&& old(out)@.len() < total ==> r == Err::<Record<&'a [u8]>, Error>(
                    too_small(total, old(out)@.len() as int),
                ) && final(out)@ == old(out)@
                &&& old(out)@.len() >= total ==> final(out)@.skip(total) == old(out)@.skip(total)
                &&& old(out)@.len() >= total && nonce.len() != NONCE_LEN ==> r == Err::<
                    Record<&'a [u8]>,
                    Error,
                >(nonce_len_error(nonce.len()))
                &&& old(out)@.len() >= total && nonce.len() == NONCE_LEN && r is Err ==> r == Err::<
                    Record<&'a [u8]>,
                    Error,
                >(Error::EncryptError)
                &&& called ==> (r is Ok <==> old(self).can_seal(
                    is_single,
                    old(self).nonces(is_single),
                    nonce,
                    aad.len(),
                    record.payload@.len(),
                    1,
                ))
                &&& forall|single: bool| #[trigger]
                    final(self).nonces(single) == if called && old(self).is_fast(single) == old(
                        self).is_fast(is_single) && (old(self).is_fast(single) ==> old(
                        self).tags_agree()) {
                        old(self).nonces_after(single, old(self).nonces(single), nonce)
                    } else {
                        old(self).nonces(single)
                    }
                &&& r matches Ok(protected) ==> {
                    &&& protected.typ == ContentType::ApplicationData
                    &&& protected.version == record.version
                    &&& protected.payload@.len() == total
                    &&& protected.payload@ == final(out)@.take(total)
                    &&& old(self).seals(
                        is_single,
                        nonce,
                        aad,
                        inner,
                        protected.payload@,
                    )
                }
            }),
            final(self).iv() == old(self).iv(),
            final(self).tag_size() == old(self).tag_size(),
            final(self).accepts_like(*old(self)),
            forall|len: int| #[trigger] final(self).can_take(len) == old(self).can_take(len),
            forall|single: bool, n: Seq<u8>, a: Seq<u8>, p: Seq<u8>, s: Seq<u8>| #[trigger]
                final(self).seals(single, n, a, p, s) == old(self).seals(single, n, a, p, s),
    {
        let total_len: usize = self.encrypted_payload_len(record.payload.len());
        let typ = ContentType::ApplicationData;
        let nonce = Nonce::new(&self.iv, seq);
        let aad = make_tls13_aad(typ, record.version.encode(), total_len);
        let region = match record_region(out, total_len) {
            Ok(region) => region,
            Err(e) => return Err(e),
        };
        match nonce.to_array() {
            Ok(_) => {},
            Err(e) => return Err(e),
        }
        let inner_typ = record.typ.to_array();
        let extra: &[u8] = &inner_typ;
        let aad: &[u8] = &aad;
        assert(record.payload@ + extra@ =~= record.payload@.push(record.typ.code()));
        match seal_into(
            &mut self.provider,
            &mut self.contiguous_provider,
            nonce,
            aad,
            &record.payload,
            extra,
            region,
        ) {
            Ok(()) => Ok(Record { typ, version: record.version, payload: &*region }),
            Err(e) => Err(e),
        }
    }

    /// The length of a protected payload.
    pub fn encrypted_payload_len(&self, payload_len: usize) -> (r: usize)
        requires
            self.can_take(payload_len as int),
        ensures
            r == payload_len + 1 + self.tag_size(),
    {
        payload_len + 1 + self.provider.tag_len()
    }
}

/// Opens records of TLS 1.3.
///
/// This struct implements TLS 1.3 protocol-level details but relies on
/// implementations of [`RecordDecryptionProvider`] for crypto primitives.
pub struct Tls13RecordDecrypter<P> {
    provider: P,
    iv: Iv,
}

impl<P: RecordDecryptionProvider> Tls13RecordDecrypter<P> {
    /// The IV that nonces are made from.
    pub closed spec fn iv(&self) -> Seq<u8> {
        self.iv@
    }

    /// The length of the tag.
    pub closed spec fn tag_size(&self) -> nat {
        self.provider.tag_size()
    }

    /// What opening makes of a ciphertext and tag.
    pub closed spec fn opened(&self, nonce: Seq<u8>, aad: Seq<u8>, sealed: Seq<u8>) -> Option<
        Seq<u8>,
    > {
        self.provider.opened(nonce, aad, sealed)
    }

    /// What becomes of a record with the given payload: the content type that was
    /// sealed with the plaintext, and the plaintext.
    pub open spec fn outcome(
        &self,
        typ: ContentType,
        version: EncodableVersion,
        seq: u64,
        payload: Seq<u8>,
    ) -> Result<(ContentType, Seq<u8>), Error> {
        if payload.len() < self.tag_size() {
            Err(Error::DecryptError)
        } else if self.iv().len() != NONCE_LEN {
            Err(nonce_len_error(self.iv().len()))
        } else {
            match self.opened(
                nonce_bytes(self.iv(), seq),
                tls13_aad(typ, version.actual(), payload.len()),
                payload,
            ) {
                None => Err(Error::DecryptError),
                Some(inner) => tls13_inner_plaintext(inner),
            }
        }
    }

    /// Create a new decrypter from the provider and IV.
    pub fn new(provider: P, iv: Iv) -> (r: Self)
        ensures
            r.iv() == iv@,
            r.tag_size() == provider.tag_size(),
            forall|n: Seq<u8>, a: Seq<u8>, s: Seq<u8>| #[trigger]
                r.opened(n, a, s) == provider.opened(n, a, s),
    {
        Tls13RecordDecrypter { provider, iv }
    }

    /// Opens a record in place.
    pub fn decrypt<'a>(&mut self, record: Record<InboundOpaque<'a>>, seq: u64) -> (r: Result<
        Record<&'a [u8]>,
        Error,
    >)
        ensures
            match (
                r,
                old(self).outcome(record.typ, record.version, seq, old(record.payload.1)@),
            ) {
                (Ok(opened), Ok((typ, plaintext))) => {
                    &&& opened.typ == typ
                    &&& opened.version == EncodableVersion::Legacy(ProtocolVersion::TLSv1_3)
                    &&& opened.payload@ == plaintext
                },
                (Err(e), Err(expected)) => e == expected,
                _ => false,
            },
            final(record.payload.0)@ == old(record.payload.0)@,
            final(record.payload.1)@.len() == old(record.payload.1)@.len(),
            final(self).iv() == old(self).iv(),
            final(self).tag_size() == old(self).tag_size(),
            forall|n: Seq<u8>, a: Seq<u8>, s: Seq<u8>| #[trigger]
                final(self).opened(n, a, s) == old(self).opened(n, a, s),
    {
        let Record { typ, version, payload } = record;
        let InboundOpaque(header, payload) = payload;
        if payload.len() < self.provider.tag_len() {
            return Err(Error::DecryptError);
        }
        let nonce = Nonce::new(&self.iv, seq);
        let aad = make_tls13_aad(typ, version.version(), payload.len());
        let aad: &[u8] = &aad;
        assert(payload@.skip(0) =~= payload@);
        let decrypted = self.provider.decrypt(nonce, aad, payload, 0);
        assert(old(self).provider.origin(0) == 0);
        let plain_len: usize = match decrypted {
            Ok(plain_len) => plain_len,
            Err(e) => return Err(e),
        };
        let opened = Record { typ, version, payload: InboundOpaque(header, payload) };
        opened.into_tls13_unpadded_record(plain_len)
    }
}

} // verus!
