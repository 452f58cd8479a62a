//! What record protection is made of: keys, nonces and the interfaces of ciphers.

use vstd::prelude::*;
use vstd::std_specs::convert::FromSpecImpl;

use crate::error::{ApiMisuse, Error};
use crate::msgs::codec::{be_bytes, be_value, encode_be, lemma_be_bytes_len};
use crate::msgs::message::OutboundPlain;

verus! {

/// The length of the nonces that all supported ciphers take.
pub const NONCE_LEN: usize = 12;

/// The longest initialization vector that is supported.
pub const IV_MAX_LEN: usize = 16;

/// The key of an AEAD cipher.
#[derive(Clone, Copy, Debug)]
pub enum AeadKey {
    Bits128([u8; 16]),
    Bits256([u8; 32]),
}

impl View for AeadKey {
    type V = Seq<u8>;

    open spec fn view(&self) -> Seq<u8> {
        match self {
            AeadKey::Bits128(bytes) => bytes@,
            AeadKey::Bits256(bytes) => bytes@,
        }
    }
}

impl AeadKey {
    pub fn as_ref(&self) -> (r: &[u8])
        ensures
            r@ == self@,
    {
        match self {
            AeadKey::Bits128(bytes) => bytes.as_slice(),
            AeadKey::Bits256(bytes) => bytes.as_slice(),
        }
    }
}

impl From<[u8; 16]> for AeadKey {
    fn from(bytes: [u8; 16]) -> (r: Self) {
        AeadKey::Bits128(bytes)
    }
}

impl FromSpecImpl<[u8; 16]> for AeadKey {
    open spec fn obeys_from_spec() -> bool {
        true
    }

    open spec fn from_spec(bytes: [u8; 16]) -> Self {
        AeadKey::Bits128(bytes)
    }
}

impl From<[u8; 32]> for AeadKey {
    fn from(bytes: [u8; 32]) -> (r: Self) {
        AeadKey::Bits256(bytes)
    }
}

impl FromSpecImpl<[u8; 32]> for AeadKey {
    open spec fn obeys_from_spec() -> bool {
        true
    }

    open spec fn from_spec(bytes: [u8; 32]) -> Self {
        AeadKey::Bits256(bytes)
    }
}

/// A write or read IV.
#[derive(Debug)]
pub struct Iv {
    bytes: Vec<u8>,
}

impl View for Iv {
    type V = Seq<u8>;

    closed spec fn view(&self) -> Seq<u8> {
        self.bytes@
    }
}

impl Iv {
    /// An IV with the given bytes, of which there may be no more than
    /// `IV_MAX_LEN`.
    pub fn new(value: &[u8]) -> (r: Result<Self, Error>)
        ensures
            value@.len() <= IV_MAX_LEN ==> (r matches Ok(iv) && iv@ == value@),
            value@.len() > IV_MAX_LEN ==> (r matches Err(e) && e == Error::ApiMisuse(
                ApiMisuse::IvLengthExceedsMaximum {
                    actual: value@.len() as usize,
                    maximum: IV_MAX_LEN,
                },
            )),
    {
        if value.len() > IV_MAX_LEN {
            return Err(
                Error::ApiMisuse(
                    ApiMisuse::IvLengthExceedsMaximum {
                        actual: value.len(),
                        maximum: IV_MAX_LEN,
                    },
                ),
            );
        }
        Ok(Iv { bytes: vstd::slice::slice_to_vec(value) })
    }
}

/// The nonce of the record with sequence number `seq`: the IV, combined by
/// exclusive or with the sequence number as a big-endian number of as many bytes.
pub open spec fn nonce_bytes(iv: Seq<u8>, seq: u64) -> Seq<u8> {
    Seq::new(iv.len(), |i: int| iv[i] ^ be_bytes(seq as nat, iv.len())[i])
}

/// A nonce. This is unique for all messages on a connection.
#[derive(Debug)]
pub struct Nonce {
    pub bytes: Vec<u8>,
}

impl View for Nonce {
    type V = Seq<u8>;

    open spec fn view(&self) -> Seq<u8> {
        self.bytes@
    }
}

/// What is wrong with a nonce of the given length.
pub open spec fn nonce_len_error(len: nat) -> Error {
    Error::ApiMisuse(
        ApiMisuse::NonceArraySizeMismatch { expected: NONCE_LEN, actual: len as usize },
    )
}

impl Nonce {
    /// Combine an `Iv` and sequence number to produce a unique nonce.
    pub fn new(iv: &Iv, seq: u64) -> (r: Self)
        ensures
            r@ == nonce_bytes(iv@, seq),
    {
        let n: usize = iv.bytes.len();
        let mut bytes: Vec<u8> = Vec::new();
        encode_be(seq, n, &mut bytes);
        let ghost number = be_bytes(seq as nat, n as nat);
        proof {
            lemma_be_bytes_len(seq as nat, n as nat);
            assert(bytes@ =~= number);
        }
        let mut i: usize = 0;
        while i < n
            invariant
                i <= n,
                n == iv.bytes@.len(),
                bytes@.len() == n,
                number == be_bytes(seq as nat, n as nat),
                forall|j: int| 0 <= j < i ==> #[trigger] bytes@[j] == iv.bytes@[j] ^ number[j],
                forall|j: int| i <= j < n ==> #[trigger] bytes@[j] == number[j],
            decreases n - i,
        {
            let byte: u8 = iv.bytes[i] ^ bytes[i];
            bytes.set(i, byte);
            i = i + 1;
        }
        assert(bytes@ =~= nonce_bytes(iv@, seq));
        Nonce { bytes }
    }

    /// The nonce as an array, if it has the length that ciphers take.
    pub fn to_array(&self) -> (r: Result<[u8; 12], Error>)
        ensures
            self@.len() == NONCE_LEN ==> (r matches Ok(bytes) && bytes@ == self@),
            self@.len() != NONCE_LEN ==> r == Err::<[u8; 12], Error>(nonce_len_error(self@.len())),
    {
        if self.bytes.len() != NONCE_LEN {
            return Err(
                Error::ApiMisuse(
                    ApiMisuse::NonceArraySizeMismatch {
                        expected: NONCE_LEN,
                        actual: self.bytes.len(),
                    },
                ),
            );
        }
        let mut bytes: [u8; 12] = [0u8; 12];
        let mut i: usize = 0;
        while i < 12
            invariant
                i <= 12,
                self.bytes@.len() == 12,
                forall|j: int| 0 <= j < i ==> #[trigger] bytes@[j] == self.bytes@[j],
            decreases 12 - i,
        {
            bytes[i] = self.bytes[i];
            i = i + 1;
        }
        assert(bytes@ =~= self@);
        Ok(bytes)
    }
}

/// Copies `source` into `target` from `at` on.
pub fn copy_into(target: &mut [u8], at: usize, source: &[u8])
    requires
        at + source@.len() <= old(target)@.len(),
    ensures
        final(target)@ == old(target)@.take(at as int) + source@ + old(target)@.skip(
            at + source@.len() as int,
        ),
{
    let ghost before = target@;
    let mut i: usize = 0;
    assert(target.len() == before.len());
    while i < source.len()
        invariant
            i <= source@.len(),
            at + source@.len() <= before.len(),
            before.len() <= usize::MAX,
            target@.len() == before.len(),
            forall|j: int|
                0 <= j < before.len() ==> #[trigger] target@[j] == if at <= j < at + i {
                    source@[j - at]
                } else {
                    before[j]
                },
        decreases source@.len() - i,
    {
        target[at + i] = source[i];
        i = i + 1;
    }
    assert(target@ =~= before.take(at as int) + source@ + before.skip(at + source@.len() as int));
}

/// Which nonces a key was used with. Ciphers that insist on nonces that count up
/// keep track of them.
pub struct NonceUse {
    /// The counter in the first nonce, if there was one.
    pub first: Option<u64>,
    /// The next nonce is at least this many steps away from the first one.
    pub least: u64,
}

/// No nonce was used yet.
pub open spec fn unused() -> NonceUse {
    NonceUse { first: None, least: 0 }
}

/// The counter in a nonce: all but the first four bytes.
pub open spec fn nonce_counter(nonce: Seq<u8>) -> u64 {
    be_value(nonce.skip(4)) as u64
}

/// How many steps a nonce is away from the first one. Nonces are made from
/// sequence numbers by exclusive or, and so are steps.
pub open spec fn nonce_step(used: NonceUse, nonce: Seq<u8>) -> u64 {
    match used.first {
        Some(first) => nonce_counter(nonce) ^ first,
        None => 0,
    }
}

/// Whether a nonce counts up from the ones before it.
pub open spec fn counts_up(used: NonceUse, nonce: Seq<u8>) -> bool {
    used.least <= nonce_step(used, nonce) < u64::MAX
}

/// Which nonces were used after this one was tried.
pub open spec fn after_nonce(used: NonceUse, nonce: Seq<u8>) -> NonceUse {
    NonceUse {
        first: match used.first {
            Some(first) => Some(first),
            None => Some(nonce_counter(nonce)),
        },
        least: if counts_up(used, nonce) {
            (nonce_step(used, nonce) + 1) as u64
        } else {
            used.least
        },
    }
}

/// What was sealed from fewer bytes than this can be opened.
pub const OPENABLE_LEN: u64 = 0x3f_ffff_ffc0;

/// A cipher that seals the payload of records in place.
pub trait RecordEncryptionProvider {
    /// What sealing makes of a plaintext: the ciphertext and then the tag.
    spec fn sealed(&self, nonce: Seq<u8>, aad: Seq<u8>, plaintext: Seq<u8>) -> Seq<u8>;

    /// What the matching opening key makes of a ciphertext and tag.
    spec fn opened(&self, nonce: Seq<u8>, aad: Seq<u8>, sealed: Seq<u8>) -> Option<Seq<u8>>;

    /// The length of the tag.
    spec fn tag_size(&self) -> nat;

    /// Which nonces were used.
    spec fn nonces(&self) -> NonceUse;

    /// Whether a plaintext of `len` bytes is sealed with `aad_len` bytes of
    /// additional data and this nonce if `used` are the nonces before it.
    spec fn accepts(used: NonceUse, nonce: Seq<u8>, aad_len: nat, len: nat) -> bool;

    /// Which nonces were used after this one was tried.
    spec fn nonces_after(used: NonceUse, nonce: Seq<u8>) -> NonceUse;

    /// Seals the plaintext that `payload` begins with. There is room for the tag
    /// behind it.
    fn encrypt(&mut self, nonce: Nonce, aad: &[u8], payload: &mut [u8]) -> (r: Result<(), Error>)
        requires
            old(payload)@.len() >= old(self).tag_size(),
        ensures
            final(payload)@.len() == old(payload)@.len(),
            ({
                let plaintext = old(payload)@.take(
                    old(payload)@.len() - old(self).tag_size(),
                );
                &&& r is Ok ==> {
                    &&& final(payload)@ == old(self).sealed(nonce@, aad@, plaintext)
                    &&& plaintext.len() < OPENABLE_LEN ==> old(self).opened(
                        nonce@,
                        aad@,
                        final(payload)@,
                    ) == Some(plaintext)
                }
                &&& nonce@.len() == NONCE_LEN ==> (r is Ok <==> Self::accepts(
                    old(self).nonces(),
                    nonce@,
                    aad@.len(),
                    plaintext.len(),
                ))
            }),
            final(self).nonces() == if nonce@.len() == NONCE_LEN {
                Self::nonces_after(old(self).nonces(), nonce@)
            } else {
                old(self).nonces()
            },
            nonce@.len() != NONCE_LEN ==> r == Err::<(), Error>(nonce_len_error(nonce@.len())),
            nonce@.len() == NONCE_LEN && r is Err ==> r == Err::<(), Error>(Error::EncryptError),
            final(self).tag_size() == old(self).tag_size(),
            forall|n: Seq<u8>, a: Seq<u8>, p: Seq<u8>| #[trigger]
                final(self).sealed(n, a, p) == old(self).sealed(n, a, p),
            forall|n: Seq<u8>, a: Seq<u8>, s: Seq<u8>| #[trigger]
                final(self).opened(n, a, s) == old(self).opened(n, a, s),
    ;

    fn tag_len(&self) -> (r: usize)
        ensures
            r == self.tag_size(),
            r <= 255,
    ;
}

/// A cipher that seals a contiguous plaintext into another buffer.
pub trait ContiguousRecordEncryptionProvider {
    /// What sealing makes of a plaintext: the ciphertext and then the tag.
    spec fn sealed_contiguous(&self, nonce: Seq<u8>, aad: Seq<u8>, plaintext: Seq<u8>) -> Seq<u8>;

    /// What the matching opening key makes of a ciphertext and tag.
    spec fn opened_contiguous(&self, nonce: Seq<u8>, aad: Seq<u8>, sealed: Seq<u8>) -> Option<
        Seq<u8>,
    >;

    /// The length of the tag.
    spec fn contiguous_tag_size(&self) -> nat;

    /// Which nonces were used.
    spec fn contiguous_nonces(&self) -> NonceUse;

    /// Whether plaintexts of `len` and `extra_len` bytes are sealed with `aad_len`
    /// bytes of additional data and this nonce if `used` are the nonces before it.
    spec fn accepts_contiguous(
        used: NonceUse,
        nonce: Seq<u8>,
        aad_len: nat,
        len: nat,
        extra_len: nat,
    ) -> bool;

    /// Which nonces were used after this one was tried.
    spec fn contiguous_nonces_after(used: NonceUse, nonce: Seq<u8>) -> NonceUse;

    /// Seals `plaintext` and `extra_plaintext` into the first `encrypted_len` bytes
    /// of `ciphertext`.
    fn encrypt_contiguous<'a>(
        &mut self,
        nonce: Nonce,
        aad: &[u8],
        plaintext: &[u8],
        extra_plaintext: &[u8],
        ciphertext: &'a mut [u8],
        encrypted_len: usize,
    ) -> (r: Result<&'a [u8], Error>)
        requires
            plaintext@.len() <= encrypted_len,
            plaintext@.len() + extra_plaintext@.len() + old(self).contiguous_tag_size()
                <= usize::MAX,
        ensures
            final(ciphertext)@.len() == old(ciphertext)@.len(),
            ({
                let plain = plaintext@ + extra_plaintext@;
                let fits = encrypted_len == plain.len() + old(self).contiguous_tag_size();
                &&& r matches Ok(sealed) ==> {
                    &&& sealed@ == old(self).sealed_contiguous(nonce@, aad@, plain)
                    &&& sealed@.len() == encrypted_len
                    &&& plain.len() < OPENABLE_LEN ==> old(self).opened_contiguous(
                        nonce@,
                        aad@,
                        sealed@,
                    ) == Some(plain)
                    &&& final(ciphertext)@ == sealed@ + old(ciphertext)@.skip(
                        encrypted_len as int,
                    )
                }
                &&& old(ciphertext)@.len() >= encrypted_len && nonce@.len() == NONCE_LEN ==> (
                r is Ok <==> fits && Self::accepts_contiguous(
                    old(self).contiguous_nonces(),
                    nonce@,
                    aad@.len(),
                    plaintext@.len(),
                    extra_plaintext@.len(),
                ))
                &&& final(self).contiguous_nonces() == if old(ciphertext)@.len() >= encrypted_len
                    && nonce@.len() == NONCE_LEN && fits {
                    Self::contiguous_nonces_after(old(self).contiguous_nonces(), nonce@)
                } else {
                    old(self).contiguous_nonces()
                }
            }),
            old(ciphertext)@.len() < encrypted_len ==> r == Err::<&'a [u8], Error>(
                too_small(encrypted_len as int, old(ciphertext)@.len() as int),
            ),
            old(ciphertext)@.len() >= encrypted_len && nonce@.len() != NONCE_LEN ==> r == Err::<
                &'a [u8],
                Error,
            >(nonce_len_error(nonce@.len())),
            old(ciphertext)@.len() >= encrypted_len && nonce@.len() == NONCE_LEN && r is Err ==> r
                == Err::<&'a [u8], Error>(Error::EncryptError),
            final(self).contiguous_tag_size() == old(self).contiguous_tag_size(),
            forall|n: Seq<u8>, a: Seq<u8>, p: Seq<u8>| #[trigger]
                final(self).sealed_contiguous(n, a, p) == old(self).sealed_contiguous(n, a, p),
            forall|n: Seq<u8>, a: Seq<u8>, s: Seq<u8>| #[trigger]
                final(self).opened_contiguous(n, a, s) == old(self).opened_contiguous(n, a, s),
    ;
}

/// A cipher that opens the payload of records in place.
pub trait RecordDecryptionProvider {
    /// What opening makes of a ciphertext and tag: the plaintext, or nothing if they
    /// are not authentic.
    spec fn opened(&self, nonce: Seq<u8>, aad: Seq<u8>, sealed: Seq<u8>) -> Option<Seq<u8>>;

    /// The length of the tag.
    spec fn tag_size(&self) -> nat;

    /// Where the ciphertext begins if the caller says that it begins at
    /// `ciphertext_and_tag`. Ciphers that are never used with anything in front of
    /// the ciphertext may take all of the payload.
    spec fn origin(&self, ciphertext_and_tag: int) -> int;

    /// Opens the ciphertext and tag in `payload` and moves the plaintext to the
    /// front of `payload`. Returns the length of the plaintext.
    fn decrypt(
        &mut self,
        nonce: Nonce,
        aad: &[u8],
        payload: &mut [u8],
        ciphertext_and_tag: usize,
    ) -> (r: Result<usize, Error>)
        ensures
            final(payload)@.len() == old(payload)@.len(),
            nonce@.len() != NONCE_LEN ==> r == Err::<usize, Error>(nonce_len_error(nonce@.len())),
            nonce@.len() == NONCE_LEN && old(self).origin(ciphertext_and_tag as int)
                > old(payload)@.len() ==> r == Err::<usize, Error>(Error::DecryptError),
            nonce@.len() == NONCE_LEN && old(self).origin(ciphertext_and_tag as int)
                <= old(payload)@.len() ==> match old(self).opened(
                nonce@,
                aad@,
                old(payload)@.skip(old(self).origin(ciphertext_and_tag as int)),
            ) {
                Some(plaintext) => {
                    &&& r matches Ok(n) && n == plaintext.len()
                    &&& old(self).origin(ciphertext_and_tag as int) + plaintext.len()
                        + old(self).tag_size() == old(payload)@.len()
                    &&& final(payload)@.take(plaintext.len() as int) == plaintext
                },
                None => r == Err::<usize, Error>(Error::DecryptError),
            },
            final(self).tag_size() == old(self).tag_size(),
            forall|start: int| #[trigger] final(self).origin(start) == old(self).origin(start),
            forall|start: int| 0 <= start ==> 0 <= #[trigger] old(self).origin(start) <= start,
            forall|n: Seq<u8>, a: Seq<u8>, s: Seq<u8>| #[trigger]
                final(self).opened(n, a, s) == old(self).opened(n, a, s),
    ;

    fn tag_len(&self) -> (r: usize)
        ensures
            r == self.tag_size(),
            r <= 255,
    ;
}

/// The output buffer is shorter than the record.
pub open spec fn too_small(required: int, provided: int) -> Error {
    Error::ApiMisuse(
        ApiMisuse::EncryptBufferTooSmall {
            required: required as usize,
            provided: provided as usize,
        },
    )
}

/// The region of `out` that a `len`-byte sealed record payload will occupy.
///
/// If `out` is shorter than `len` bytes, this returns
/// [`ApiMisuse::EncryptBufferTooSmall`].
pub fn record_region<'a>(out: &'a mut [u8], len: usize) -> (r: Result<&'a mut [u8], Error>)
    ensures
        old(out)@.len() < len ==> (r matches Err(e) && e == too_small(
            len as int,
            old(out)@.len() as int,
        ) && final(out)@ == old(out)@),
        old(out)@.len() >= len ==> (r matches Ok(region) && region@ == old(out)@.take(len as int)
            && final(out)@ == final(region)@ + old(out)@.skip(len as int)),
{
    let provided: usize = out.len();
    if provided < len {
        return Err(
            Error::ApiMisuse(ApiMisuse::EncryptBufferTooSmall { required: len, provided }),
        );
    }
    let (region, _behind) = out.split_at_mut(len);
    Ok(region)
}

/// Whether a plaintext, given in one piece or not, goes to the contiguous provider.
pub open spec fn is_fast<C>(contiguous_provider: Option<C>, single: bool) -> bool {
    single && contiguous_provider is Some
}

/// Which nonces the provider has used that a plaintext goes to.
pub open spec fn used_nonces<P: RecordEncryptionProvider, C: ContiguousRecordEncryptionProvider>(
    provider: P,
    contiguous_provider: Option<C>,
    single: bool,
) -> NonceUse {
    if is_fast(contiguous_provider, single) {
        contiguous_provider->Some_0.contiguous_nonces()
    } else {
        provider.nonces()
    }
}

/// Which nonces the provider that a plaintext goes to has used after this one.
pub open spec fn used_nonces_after<
    P: RecordEncryptionProvider,
    C: ContiguousRecordEncryptionProvider,
>(fast: bool, used: NonceUse, nonce: Seq<u8>) -> NonceUse {
    if fast {
        C::contiguous_nonces_after(used, nonce)
    } else {
        P::nonces_after(used, nonce)
    }
}

/// Whether two providers have tags of the same length, if there are two.
pub open spec fn tags_agree<P: RecordEncryptionProvider, C: ContiguousRecordEncryptionProvider>(
    provider: P,
    contiguous_provider: Option<C>,
) -> bool {
    contiguous_provider matches Some(fast_path) ==> fast_path.contiguous_tag_size()
        == provider.tag_size()
}

/// Whether the provider that a plaintext goes to can seal it if it has used these
/// nonces.
pub open spec fn can_seal<P: RecordEncryptionProvider, C: ContiguousRecordEncryptionProvider>(
    provider: P,
    contiguous_provider: Option<C>,
    single: bool,
    used: NonceUse,
    nonce: Seq<u8>,
    aad_len: nat,
    len: nat,
    extra_len: nat,
) -> bool {
    if is_fast(contiguous_provider, single) {
        &&& tags_agree(provider, contiguous_provider)
        &&& C::accepts_contiguous(used, nonce, aad_len, len, extra_len)
    } else {
        P::accepts(used, nonce, aad_len, len + extra_len)
    }
}

/// Whether `sealed` is what becomes of `plaintext`, given in one piece or not, and
/// can be opened to it again unless it is too long. A contiguous plaintext goes to
/// the contiguous provider if there is one.
pub open spec fn seals<P: RecordEncryptionProvider, C: ContiguousRecordEncryptionProvider>(
    provider: P,
    contiguous_provider: Option<C>,
    single: bool,
    nonce: Seq<u8>,
    aad: Seq<u8>,
    plaintext: Seq<u8>,
    sealed: Seq<u8>,
) -> bool {
    if is_fast(contiguous_provider, single) {
        let fast_path = contiguous_provider->Some_0;
        &&& sealed == fast_path.sealed_contiguous(nonce, aad, plaintext)
        &&& plaintext.len() < OPENABLE_LEN ==> fast_path.opened_contiguous(nonce, aad, sealed)
            == Some(plaintext)
    } else {
        &&& sealed == provider.sealed(nonce, aad, plaintext)
        &&& plaintext.len() < OPENABLE_LEN ==> provider.opened(nonce, aad, sealed) == Some(
            plaintext,
        )
    }
}

/// Two pairs of providers that seal alike.
pub open spec fn seal_alike<P: RecordEncryptionProvider, C: ContiguousRecordEncryptionProvider>(
    provider: P,
    contiguous_provider: Option<C>,
    other_provider: P,
    other_contiguous_provider: Option<C>,
) -> bool {
    &&& provider.tag_size() == other_provider.tag_size()
    &&& forall|
        single: bool,
        nonce: Seq<u8>,
        aad: Seq<u8>,
        plaintext: Seq<u8>,
        sealed: Seq<u8>,
    | #[trigger]
        seals(provider, contiguous_provider, single, nonce, aad, plaintext, sealed) == seals(
            other_provider,
            other_contiguous_provider,
            single,
            nonce,
            aad,
            plaintext,
            sealed,
        )
}

/// Seals `payload` and then `extra` into `region`, which is as long as the result.
///
/// If the plaintext is contiguous and there is a provider with a special case for
/// it, that one is used. Otherwise the plaintext is gathered into the region and
/// sealed in place.
pub fn seal_into<P: RecordEncryptionProvider, C: ContiguousRecordEncryptionProvider>(
    provider: &mut P,
    contiguous_provider: &mut Option<C>,
    nonce: Nonce,
    aad: &[u8],
    payload: &OutboundPlain<'_>,
    extra: &[u8],
    region: &mut [u8],
) -> (r: Result<(), Error>)
    requires
        nonce@.len() == NONCE_LEN,
        payload.wf(),
        old(region)@.len() == payload@.len() + extra@.len() + old(provider).tag_size(),
        *old(contiguous_provider) matches Some(fast_path) ==> payload@.len() + extra@.len()
            + fast_path.contiguous_tag_size() <= usize::MAX,
    ensures
        final(region)@.len() == old(region)@.len(),
        r is Ok ==> seals(
            *old(provider),
            *old(contiguous_provider),
            payload is Single,
            nonce@,
            aad@,
            payload@ + extra@,
            final(region)@,
        ),
        r is Err ==> r == Err::<(), Error>(Error::EncryptError),
        r is Ok <==> can_seal(
            *old(provider),
            *old(contiguous_provider),
            payload is Single,
            used_nonces(*old(provider), *old(contiguous_provider), payload is Single),
            nonce@,
            aad@.len(),
            payload@.len(),
            extra@.len(),
        ),
        ({
            let fast = is_fast(*old(contiguous_provider), payload is Single);
            forall|single: bool| #[trigger]
                used_nonces(*final(provider), *final(contiguous_provider), single) == {
                    let used = used_nonces(*old(provider), *old(contiguous_provider), single);
                    if is_fast(*old(contiguous_provider), single) == fast && (fast
                        ==> tags_agree(*old(provider), *old(contiguous_provider))) {
                        used_nonces_after::<P, C>(fast, used, nonce@)
                    } else {
                        used
                    }
                }
        }),
        seal_alike(
            *final(provider),
            *final(contiguous_provider),
            *old(provider),
            *old(contiguous_provider),
        ),
        *final(contiguous_provider) is Some <==> *old(contiguous_provider) is Some,
        *final(contiguous_provider) matches Some(fast_path) ==> fast_path.contiguous_tag_size()
            == old(contiguous_provider)->Some_0.contiguous_tag_size(),
{
    match (payload.single_chunk(), contiguous_provider.as_mut()) {
        // Fast path: plaintext is contiguous and the provider has a special case for it.
        (Some(contiguous_plain), Some(fast_path)) => {
            let len: usize = region.len();
            match fast_path.encrypt_contiguous(nonce, aad, contiguous_plain, extra, region, len) {
                Ok(_) => Ok(()),
                Err(e) => Err(e),
            }
        },
        // Slow path: either plaintext is not contiguous or the provider has no special support.
        // Gather plaintext into a buffer and seal it in-place.
        _ => {
            let plain: Vec<u8> = payload.to_vec();
            copy_into(region, 0, plain.as_slice());
            copy_into(region, plain.len(), extra);
            assert(region@.take((plain@.len() + extra@.len()) as int) =~= payload@ + extra@);
            provider.encrypt(nonce, aad, region)
        },
    }
}

} // verus!
