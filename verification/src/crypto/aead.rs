//! AEAD ciphers, computed by `aws_lc_rs::aead`.

use aws_lc_rs::aead;
use aws_lc_rs::aead::{LessSafeKey, TlsRecordOpeningKey, TlsRecordSealingKey};

use vstd::prelude::*;

use crate::crypto::cipher::{
    after_nonce, counts_up, record_region, unused, AeadKey, ContiguousRecordEncryptionProvider,
    Nonce, NonceUse, RecordDecryptionProvider, RecordEncryptionProvider, OPENABLE_LEN,
};
use crate::error::Error;

verus! {

/// The AEAD ciphers that cipher suites use.
#[derive(Clone, Copy, Debug, PartialEq, Eq, Structural)]
pub enum AeadCipher {
    Aes128Gcm,
    Aes256Gcm,
    ChaCha20Poly1305,
}

/// The length of the tag of all supported ciphers.
pub const TAG_LEN: usize = 16;

/// The longest plaintext that AES-GCM seals.
pub const GCM_MAX_LEN: u64 = 0xf_ffff_ffe0;

/// The most additional data that AES-GCM takes.
pub const GCM_MAX_AAD_LEN: u64 = 0x2000_0000_0000_0000;

/// ChaCha20-Poly1305 seals plaintexts that are shorter than this.
pub const CHACHA_LEN_LIMIT: u64 = OPENABLE_LEN;

/// Whether AES-GCM seals a plaintext of `len` bytes. Its keys insist on nonces that
/// count up.
pub open spec fn gcm_accepts(used: NonceUse, nonce: Seq<u8>, aad_len: nat, len: nat) -> bool {
    &&& counts_up(used, nonce)
    &&& len <= GCM_MAX_LEN
    &&& aad_len <= GCM_MAX_AAD_LEN
}

/// Whether ChaCha20-Poly1305 seals a plaintext of `len` bytes.
pub open spec fn chacha_accepts(len: nat) -> bool {
    len < CHACHA_LEN_LIMIT
}

impl AeadCipher {
    /// The length of a key.
    pub open spec fn key_size(self) -> nat {
        match self {
            AeadCipher::Aes128Gcm => 16,
            AeadCipher::Aes256Gcm => 32,
            AeadCipher::ChaCha20Poly1305 => 32,
        }
    }

    /// The length of a key.
    pub fn key_len(self) -> (r: usize)
        ensures
            r == self.key_size(),
    {
        match self {
            AeadCipher::Aes128Gcm => 16,
            AeadCipher::Aes256Gcm => 32,
            AeadCipher::ChaCha20Poly1305 => 32,
        }
    }

    /// Whether this is one of the AES-GCM ciphers.
    pub open spec fn is_gcm(self) -> bool {
        self is Aes128Gcm || self is Aes256Gcm
    }

    /// Whether a plaintext of `len` bytes is sealed, together with another
    /// `extra_len` bytes if they are kept apart.
    pub open spec fn accepts(
        self,
        used: NonceUse,
        nonce: Seq<u8>,
        aad_len: nat,
        len: nat,
        extra_len: nat,
    ) -> bool {
        if self.is_gcm() {
            gcm_accepts(used, nonce, aad_len, len + extra_len)
        } else {
            chacha_accepts(len)
        }
    }

    /// Whether a plaintext is sealed whose `len` bytes are in one piece or not, with
    /// another `extra_len` bytes behind it.
    pub open spec fn accepts_record(
        self,
        single: bool,
        used: NonceUse,
        nonce: Seq<u8>,
        aad_len: nat,
        len: nat,
        extra_len: nat,
    ) -> bool {
        if single {
            self.accepts(used, nonce, aad_len, len, extra_len)
        } else {
            self.accepts(used, nonce, aad_len, len + extra_len, 0)
        }
    }

    /// Which nonces a key was used with after this one was tried. Only AES-GCM keys
    /// keep track of them.
    pub open spec fn nonces_after(self, used: NonceUse, nonce: Seq<u8>) -> NonceUse {
        if self.is_gcm() {
            after_nonce(used, nonce)
        } else {
            used
        }
    }
}

/// A key that `aws_lc_rs` seals TLS records with.
#[verifier::external_type_specification]
#[verifier::external_body]
pub struct ExTlsRecordSealingKey(TlsRecordSealingKey);

/// A key that `aws_lc_rs` opens TLS records with.
#[verifier::external_type_specification]
#[verifier::external_body]
pub struct ExTlsRecordOpeningKey(TlsRecordOpeningKey);

/// A key that `aws_lc_rs` seals and opens with under any nonce.
#[verifier::external_type_specification]
#[verifier::external_body]
pub struct ExLessSafeKey(LessSafeKey);

/// The bytes that a sealing key was made from.
pub uninterp spec fn sealing_key_bytes(key: TlsRecordSealingKey) -> Seq<u8>;

/// The cipher that a sealing key is for.
pub uninterp spec fn sealing_key_cipher(key: TlsRecordSealingKey) -> AeadCipher;

/// The last eight bytes of the first nonce that a sealing key was used with.
pub uninterp spec fn sealing_key_first(key: TlsRecordSealingKey) -> Option<u64>;

/// The least exclusive or with the first nonce that a sealing key still takes.
pub uninterp spec fn sealing_key_least(key: TlsRecordSealingKey) -> u64;

/// Which nonces a sealing key was used with.
pub open spec fn sealing_key_nonces(key: TlsRecordSealingKey) -> NonceUse {
    NonceUse { first: sealing_key_first(key), least: sealing_key_least(key) }
}

/// The bytes that an opening key was made from.
pub uninterp spec fn opening_key_bytes(key: TlsRecordOpeningKey) -> Seq<u8>;

/// The cipher that an opening key is for.
pub uninterp spec fn opening_key_cipher(key: TlsRecordOpeningKey) -> AeadCipher;

/// The bytes that a key was made from.
pub uninterp spec fn less_safe_key_bytes(key: LessSafeKey) -> Seq<u8>;

/// The cipher that a key is for.
pub uninterp spec fn less_safe_key_cipher(key: LessSafeKey) -> AeadCipher;

/// What a cipher makes of a plaintext: the ciphertext and then the tag.
pub uninterp spec fn aead_sealed(
    cipher: AeadCipher,
    key: Seq<u8>,
    nonce: Seq<u8>,
    aad: Seq<u8>,
    plaintext: Seq<u8>,
) -> Seq<u8>;

/// What a cipher makes of a ciphertext and tag: the plaintext, or nothing if they
/// are not authentic.
pub uninterp spec fn aead_opened(
    cipher: AeadCipher,
    key: Seq<u8>,
    nonce: Seq<u8>,
    aad: Seq<u8>,
    sealed: Seq<u8>,
) -> Option<Seq<u8>>;

/// Calls `TlsRecordSealingKey::new` for TLS 1.3. It only knows AES-GCM, and fails
/// on keys of a wrong length. The key remembers what it was made from. No nonce
/// was used with it yet.
#[verifier::external_body]
fn sealing_key_new(cipher: AeadCipher, key: &[u8]) -> (r: TlsRecordSealingKey)
    requires
        cipher.is_gcm(),
        key@.len() == cipher.key_size(),
    ensures
        sealing_key_cipher(r) == cipher,
        sealing_key_bytes(r) == key@,
        sealing_key_first(r) == None::<u64>,
        sealing_key_least(r) == 0,
{
    let algorithm = match cipher {
        AeadCipher::Aes128Gcm => &aead::AES_128_GCM,
        AeadCipher::Aes256Gcm => &aead::AES_256_GCM,
        AeadCipher::ChaCha20Poly1305 => &aead::CHACHA20_POLY1305,
    };
    TlsRecordSealingKey::new(algorithm, aead::TlsProtocolId::TLS13, key).unwrap()
}

/// Calls `TlsRecordSealingKey::seal_in_place_separate_tag`. If it succeeds, the
/// ciphertext has taken the place of the plaintext, the tag is returned, and the
/// two are opened to the plaintext again under the same key, nonce and additional
/// data. A key for TLS 1.3 refuses nonces that do not count up from one call to the
/// next; the first nonce is always taken. Apart from that, sealing fails only where
/// the plaintext or the additional data is too long for AES-GCM, the one kind of
/// cipher that these keys know.
#[verifier::external_body]
fn sealing_key_seal(
    key: &mut TlsRecordSealingKey,
    nonce: [u8; 12],
    aad: &[u8],
    in_out: &mut [u8],
) -> (r: Option<[u8; 16]>)
    ensures
        sealing_key_cipher(*final(key)) == sealing_key_cipher(*old(key)),
        sealing_key_bytes(*final(key)) == sealing_key_bytes(*old(key)),
        final(in_out)@.len() == old(in_out)@.len(),
        r matches Some(tag) ==> final(in_out)@ + tag@ == aead_sealed(
            sealing_key_cipher(*old(key)),
            sealing_key_bytes(*old(key)),
            nonce@,
            aad@,
            old(in_out)@,
        ),
        r matches Some(tag) ==> aead_opened(
            sealing_key_cipher(*old(key)),
            sealing_key_bytes(*old(key)),
            nonce@,
            aad@,
            final(in_out)@ + tag@,
        ) == Some(old(in_out)@),
        r is Some == gcm_accepts(
            sealing_key_nonces(*old(key)),
            nonce@,
            aad@.len(),
            old(in_out)@.len(),
        ),
        sealing_key_nonces(*final(key)) == after_nonce(sealing_key_nonces(*old(key)), nonce@),
{
    let nonce = aead::Nonce::assume_unique_for_key(nonce);
    match key.seal_in_place_separate_tag(nonce, aead::Aad::from(aad), in_out) {
        Ok(tag) => tag.as_ref().try_into().ok(),
        Err(_) => None,
    }
}

/// Calls `TlsRecordSealingKey::seal_out_of_place_scatter`, which seals as
/// `seal_in_place_separate_tag` does, but writes the ciphertext of `plaintext` to
/// one buffer and that of `extra`, followed by the tag, to another. It fails where
/// these do not have the right lengths, and leaves them and the key alone then.
#[verifier::external_body]
fn sealing_key_scatter(
    key: &mut TlsRecordSealingKey,
    nonce: [u8; 12],
    aad: &[u8],
    plaintext: &[u8],
    ciphertext: &mut [u8],
    extra: &[u8],
    extra_and_tag: &mut [u8],
) -> (r: bool)
    requires
        plaintext@.len() + extra@.len() + TAG_LEN <= usize::MAX,
    ensures
        sealing_key_cipher(*final(key)) == sealing_key_cipher(*old(key)),
        sealing_key_bytes(*final(key)) == sealing_key_bytes(*old(key)),
        final(ciphertext)@.len() == old(ciphertext)@.len(),
        final(extra_and_tag)@.len() == old(extra_and_tag)@.len(),
        !(plaintext@.len() == old(ciphertext)@.len() && extra@.len() + TAG_LEN == old(
            extra_and_tag)@.len()) ==> !r && final(ciphertext)@ == old(ciphertext)@ && final(
            extra_and_tag)@ == old(extra_and_tag)@,
        r ==> final(ciphertext)@ + final(extra_and_tag)@ == aead_sealed(
            sealing_key_cipher(*old(key)),
            sealing_key_bytes(*old(key)),
            nonce@,
            aad@,
            plaintext@ + extra@,
        ),
        r ==> aead_opened(
            sealing_key_cipher(*old(key)),
            sealing_key_bytes(*old(key)),
            nonce@,
            aad@,
            final(ciphertext)@ + final(extra_and_tag)@,
        ) == Some(plaintext@ + extra@),
        plaintext@.len() == old(ciphertext)@.len() && extra@.len() + TAG_LEN == old(
            extra_and_tag)@.len() ==> r == gcm_accepts(
            sealing_key_nonces(*old(key)),
            nonce@,
            aad@.len(),
            plaintext@.len() + extra@.len(),
        ),
        sealing_key_nonces(*final(key)) == if plaintext@.len() == old(ciphertext)@.len()
            && extra@.len() + TAG_LEN == old(extra_and_tag)@.len() {
            after_nonce(sealing_key_nonces(*old(key)), nonce@)
        } else {
            sealing_key_nonces(*old(key))
        },
{
    let nonce = aead::Nonce::assume_unique_for_key(nonce);
    let aad = aead::Aad::from(aad);
    key.seal_out_of_place_scatter(nonce, aad, plaintext, ciphertext, extra, extra_and_tag).is_ok()
}

/// Calls `TlsRecordOpeningKey::new` for TLS 1.2 or 1.3. It only knows AES-GCM, and
/// fails on keys of a wrong length. The key remembers what it was made from.
#[verifier::external_body]
fn opening_key_new(cipher: AeadCipher, tls13: bool, key: &[u8]) -> (r: TlsRecordOpeningKey)
    requires
        cipher.is_gcm(),
        key@.len() == cipher.key_size(),
    ensures
        opening_key_cipher(r) == cipher,
        opening_key_bytes(r) == key@,
{
    let algorithm = match cipher {
        AeadCipher::Aes128Gcm => &aead::AES_128_GCM,
        AeadCipher::Aes256Gcm => &aead::AES_256_GCM,
        AeadCipher::ChaCha20Poly1305 => &aead::CHACHA20_POLY1305,
    };
    let protocol = match tls13 {
        true => aead::TlsProtocolId::TLS13,
        false => aead::TlsProtocolId::TLS12,
    };
    TlsRecordOpeningKey::new(algorithm, protocol, key).unwrap()
}

/// Calls `TlsRecordOpeningKey::open_within`. It opens the ciphertext and tag that
/// begin at `start`, moves the plaintext to the front of the buffer and gives its
/// length, or fails if they are not authentic or not all there. Opening keeps no
/// state and does not depend on the protocol that the key is for.
#[verifier::external_body]
fn opening_key_open_within(
    key: &TlsRecordOpeningKey,
    nonce: [u8; 12],
    aad: &[u8],
    in_out: &mut [u8],
    start: usize,
) -> (r: Option<usize>)
    ensures
        final(in_out)@.len() == old(in_out)@.len(),
        start > old(in_out)@.len() ==> r is None,
        start <= old(in_out)@.len() ==> match aead_opened(
            opening_key_cipher(*key),
            opening_key_bytes(*key),
            nonce@,
            aad@,
            old(in_out)@.skip(start as int),
        ) {
            Some(plaintext) => {
                &&& r == Some(plaintext.len() as usize)
                &&& start + plaintext.len() + TAG_LEN == old(in_out)@.len()
                &&& final(in_out)@.take(plaintext.len() as int) == plaintext
            },
            None => r is None,
        },
{
    let nonce = aead::Nonce::assume_unique_for_key(nonce);
    match key.open_within(nonce, aead::Aad::from(aad), in_out, start..) {
        Ok(plaintext) => Some(plaintext.len()),
        Err(_) => None,
    }
}

/// Calls `TlsRecordOpeningKey::open_in_place`, which is `open_within` from the
/// front of the buffer on.
#[verifier::external_body]
fn opening_key_open_in_place(
    key: &TlsRecordOpeningKey,
    nonce: [u8; 12],
    aad: &[u8],
    in_out: &mut [u8],
) -> (r: Option<usize>)
    ensures
        final(in_out)@.len() == old(in_out)@.len(),
        match aead_opened(
            opening_key_cipher(*key),
            opening_key_bytes(*key),
            nonce@,
            aad@,
            old(in_out)@,
        ) {
            Some(plaintext) => {
                &&& r == Some(plaintext.len() as usize)
                &&& plaintext.len() + TAG_LEN == old(in_out)@.len()
                &&& final(in_out)@.take(plaintext.len() as int) == plaintext
            },
            None => r is None,
        },
{
    let nonce = aead::Nonce::assume_unique_for_key(nonce);
    match key.open_in_place(nonce, aead::Aad::from(aad), in_out) {
        Ok(plaintext) => Some(plaintext.len()),
        Err(_) => None,
    }
}

/// Calls `UnboundKey::new` for ChaCha20-Poly1305, which fails on keys of a wrong
/// length, and `LessSafeKey::new`. The key remembers what it was made from.
#[verifier::external_body]
fn less_safe_key_new(key: &[u8]) -> (r: LessSafeKey)
    requires
        key@.len() == AeadCipher::ChaCha20Poly1305.key_size(),
    ensures
        less_safe_key_cipher(r) == AeadCipher::ChaCha20Poly1305,
        less_safe_key_bytes(r) == key@,
{
    LessSafeKey::new(aead::UnboundKey::new(&aead::CHACHA20_POLY1305, key).unwrap())
}

/// Calls `LessSafeKey::seal_in_place_separate_tag`. If it succeeds, the ciphertext
/// has taken the place of the plaintext, the tag is returned, and the two are
/// opened to the plaintext again under the same key, nonce and additional data.
/// With ChaCha20-Poly1305 it succeeds unless the plaintext is too long.
#[verifier::external_body]
fn less_safe_key_seal(key: &LessSafeKey, nonce: [u8; 12], aad: &[u8], in_out: &mut [u8]) -> (r:
    Option<[u8; 16]>)
    ensures
        final(in_out)@.len() == old(in_out)@.len(),
        r matches Some(tag) ==> final(in_out)@ + tag@ == aead_sealed(
            less_safe_key_cipher(*key),
            less_safe_key_bytes(*key),
            nonce@,
            aad@,
            old(in_out)@,
        ),
        r matches Some(tag) ==> aead_opened(
            less_safe_key_cipher(*key),
            less_safe_key_bytes(*key),
            nonce@,
            aad@,
            final(in_out)@ + tag@,
        ) == Some(old(in_out)@),
        less_safe_key_cipher(*key) is ChaCha20Poly1305 ==> r is Some == chacha_accepts(
            old(in_out)@.len(),
        ),
{
    let nonce = aead::Nonce::assume_unique_for_key(nonce);
    match key.seal_in_place_separate_tag(nonce, aead::Aad::from(aad), in_out) {
        Ok(tag) => tag.as_ref().try_into().ok(),
        Err(_) => None,
    }
}

/// Calls `LessSafeKey::seal_out_of_place_scatter`, which seals as
/// `seal_in_place_separate_tag` does, but writes the ciphertext of `plaintext` to
/// one buffer and that of `extra`, followed by the tag, to another. It fails where
/// these do not have the right lengths, and leaves them alone then. Otherwise, with
/// ChaCha20-Poly1305, it succeeds unless `plaintext` alone is too long. What was
/// sealed is opened again unless the two plaintexts together are too long.
#[verifier::external_body]
fn less_safe_key_scatter(
    key: &LessSafeKey,
    nonce: [u8; 12],
    aad: &[u8],
    plaintext: &[u8],
    ciphertext: &mut [u8],
    extra: &[u8],
    extra_and_tag: &mut [u8],
) -> (r: bool)
    requires
        plaintext@.len() + extra@.len() + TAG_LEN <= usize::MAX,
    ensures
        final(ciphertext)@.len() == old(ciphertext)@.len(),
        final(extra_and_tag)@.len() == old(extra_and_tag)@.len(),
        !(plaintext@.len() == old(ciphertext)@.len() && extra@.len() + TAG_LEN == old(
            extra_and_tag)@.len()) ==> !r && final(ciphertext)@ == old(ciphertext)@ && final(
            extra_and_tag)@ == old(extra_and_tag)@,
        r ==> final(ciphertext)@ + final(extra_and_tag)@ == aead_sealed(
            less_safe_key_cipher(*key),
            less_safe_key_bytes(*key),
            nonce@,
            aad@,
            plaintext@ + extra@,
        ),
        r && chacha_accepts(plaintext@.len() + extra@.len()) ==> aead_opened(
            less_safe_key_cipher(*key),
            less_safe_key_bytes(*key),
            nonce@,
            aad@,
            final(ciphertext)@ + final(extra_and_tag)@,
        ) == Some(plaintext@ + extra@),
        less_safe_key_cipher(*key) is ChaCha20Poly1305 && plaintext@.len() == old(
            ciphertext)@.len() && extra@.len() + TAG_LEN == old(extra_and_tag)@.len() ==> r
            == chacha_accepts(plaintext@.len()),
{
    let nonce = aead::Nonce::assume_unique_for_key(nonce);
    let aad = aead::Aad::from(aad);
    key.seal_out_of_place_scatter(nonce, aad, plaintext, ciphertext, extra, extra_and_tag).is_ok()
}

/// Calls `LessSafeKey::open_in_place`. It opens the ciphertext and tag, leaves the
/// plaintext at the front of the buffer and gives its length, or fails if they are
/// not authentic or not all there.
#[verifier::external_body]
fn less_safe_key_open(key: &LessSafeKey, nonce: [u8; 12], aad: &[u8], in_out: &mut [u8]) -> (r:
    Option<usize>)
    ensures
        final(in_out)@.len() == old(in_out)@.len(),
        match aead_opened(
            less_safe_key_cipher(*key),
            less_safe_key_bytes(*key),
            nonce@,
            aad@,
            old(in_out)@,
        ) {
            Some(plaintext) => {
                &&& r == Some(plaintext.len() as usize)
                &&& plaintext.len() + TAG_LEN == old(in_out)@.len()
                &&& final(in_out)@.take(plaintext.len() as int) == plaintext
            },
            None => r is None,
        },
{
    let nonce = aead::Nonce::assume_unique_for_key(nonce);
    match key.open_in_place(nonce, aead::Aad::from(aad), in_out) {
        Ok(plaintext) => Some(plaintext.len()),
        Err(_) => None,
    }
}

/// Completes a payload that was sealed in place: puts the tag behind the
/// ciphertext, or reports that sealing has failed.
pub fn append_tag(tag: Option<[u8; 16]>, payload: &mut [u8]) -> (r: Result<(), Error>)
    requires
        old(payload)@.len() >= TAG_LEN,
    ensures
        match tag {
            Some(tag) => r is Ok && final(payload)@ == old(payload)@.take(
                old(payload)@.len() - TAG_LEN,
            ) + tag@,
            None => r == Err::<(), Error>(Error::EncryptError) && final(payload)@ == old(payload)@,
        },
{
    match tag {
        Some(tag) => {
            let at: usize = payload.len() - TAG_LEN;
            crate::crypto::cipher::copy_into(payload, at, tag.as_slice());
            assert(payload@ =~= old(payload)@.take(at as int) + tag@);
            Ok(())
        },
        None => Err(Error::EncryptError),
    }
}

/// A record cipher for AES-GCM.
pub struct GcmRecordEncrypter {
    enc_key: TlsRecordSealingKey,
}

impl GcmRecordEncrypter {
    /// The cipher of the key.
    pub closed spec fn cipher(&self) -> AeadCipher {
        sealing_key_cipher(self.enc_key)
    }

    /// The bytes of the key.
    pub closed spec fn key(&self) -> Seq<u8> {
        sealing_key_bytes(self.enc_key)
    }

    /// Which nonces the key was used with.
    pub closed spec fn used(&self) -> NonceUse {
        sealing_key_nonces(self.enc_key)
    }

    /// A cipher with the given key.
    ///
    /// The keys are those of TLS 1.3, and deliberately so: we reuse the nonce
    /// construction from RFC 7905 and TLS 1.3 for TLS 1.2: a random starting point,
    /// XOR'd with the sequence number.
    pub fn new(cipher: AeadCipher, key: &AeadKey) -> (r: Self)
        requires
            cipher.is_gcm(),
            key@.len() == cipher.key_size(),
        ensures
            r.cipher() == cipher,
            r.key() == key@,
            r.used() == unused(),
    {
        GcmRecordEncrypter { enc_key: sealing_key_new(cipher, key.as_ref()) }
    }
}

impl RecordEncryptionProvider for GcmRecordEncrypter {
    open spec fn sealed(&self, nonce: Seq<u8>, aad: Seq<u8>, plaintext: Seq<u8>) -> Seq<u8> {
        aead_sealed(self.cipher(), self.key(), nonce, aad, plaintext)
    }

    open spec fn opened(&self, nonce: Seq<u8>, aad: Seq<u8>, sealed: Seq<u8>) -> Option<Seq<u8>> {
        aead_opened(self.cipher(), self.key(), nonce, aad, sealed)
    }

    open spec fn tag_size(&self) -> nat {
        TAG_LEN as nat
    }

    open spec fn nonces(&self) -> NonceUse {
        self.used()
    }

    open spec fn accepts(used: NonceUse, nonce: Seq<u8>, aad_len: nat, len: nat) -> bool {
        AeadCipher::Aes128Gcm.accepts(used, nonce, aad_len, len, 0)
    }

    open spec fn nonces_after(used: NonceUse, nonce: Seq<u8>) -> NonceUse {
        after_nonce(used, nonce)
    }

    fn encrypt(&mut self, nonce: Nonce, aad: &[u8], payload: &mut [u8]) -> (r: Result<(), Error>) {
        let nonce: [u8; 12] = match nonce.to_array() {
            Ok(nonce) => nonce,
            Err(e) => return Err(e),
        };
        let at: usize = payload.len() - TAG_LEN;
        let tag = {
            let (plaintext, _room) = payload.split_at_mut(at);
            sealing_key_seal(&mut self.enc_key, nonce, aad, plaintext)
        };
        append_tag(tag, payload)
    }

    fn tag_len(&self) -> (r: usize) {
        TAG_LEN
    }
}

/// Reports that sealing into a record region has failed, or gives the region.
pub fn sealed_region<'a>(succeeded: bool, region: &'a [u8]) -> (r: Result<&'a [u8], Error>)
    ensures
        succeeded ==> (r matches Ok(sealed) && sealed@ == region@),
        !succeeded ==> r == Err::<&'a [u8], Error>(Error::EncryptError),
{
    if succeeded {
        Ok(region)
    } else {
        Err(Error::EncryptError)
    }
}

impl ContiguousRecordEncryptionProvider for GcmRecordEncrypter {
    open spec fn sealed_contiguous(
        &self,
        nonce: Seq<u8>,
        aad: Seq<u8>,
        plaintext: Seq<u8>,
    ) -> Seq<u8> {
        aead_sealed(self.cipher(), self.key(), nonce, aad, plaintext)
    }

    open spec fn opened_contiguous(
        &self,
        nonce: Seq<u8>,
        aad: Seq<u8>,
        sealed: Seq<u8>,
    ) -> Option<Seq<u8>> {
        aead_opened(self.cipher(), self.key(), nonce, aad, sealed)
    }

    open spec fn contiguous_tag_size(&self) -> nat {
        TAG_LEN as nat
    }

    open spec fn contiguous_nonces(&self) -> NonceUse {
        self.used()
    }

    open spec fn accepts_contiguous(
        used: NonceUse,
        nonce: Seq<u8>,
        aad_len: nat,
        len: nat,
        extra_len: nat,
    ) -> bool {
        AeadCipher::Aes128Gcm.accepts(used, nonce, aad_len, len, extra_len)
    }

    open spec fn contiguous_nonces_after(used: NonceUse, nonce: Seq<u8>) -> NonceUse {
        after_nonce(used, nonce)
    }

    fn encrypt_contiguous<'a>(
        &mut self,
        nonce: Nonce,
        aad: &[u8],
        plaintext: &[u8],
        extra_plaintext: &[u8],
        ciphertext: &'a mut [u8],
        encrypted_len: usize,
    ) -> (r: Result<&'a [u8], Error>) {
        let record = match record_region(ciphertext, encrypted_len) {
            Ok(record) => record,
            Err(e) => return Err(e),
        };
        let nonce: [u8; 12] = match nonce.to_array() {
            Ok(nonce) => nonce,
            Err(e) => return Err(e),
        };
        let succeeded: bool = {
            let (sealed, extra_and_tag) = record.split_at_mut(plaintext.len());
            sealing_key_scatter(
                &mut self.enc_key,
                nonce,
                aad,
                plaintext,
                sealed,
                extra_plaintext,
                extra_and_tag,
            )
        };
        sealed_region(succeeded, &*record)
    }
}

/// A record cipher for ChaCha20-Poly1305.
pub struct ChaCha20Poly1305RecordEncrypter {
    enc_key: LessSafeKey,
}

impl ChaCha20Poly1305RecordEncrypter {
    /// The key is one for ChaCha20-Poly1305.
    #[verifier::type_invariant]
    spec fn inv(self) -> bool {
        less_safe_key_cipher(self.enc_key) is ChaCha20Poly1305
    }

    /// The cipher of the key.
    pub closed spec fn cipher(&self) -> AeadCipher {
        less_safe_key_cipher(self.enc_key)
    }

    /// The bytes of the key.
    pub closed spec fn key(&self) -> Seq<u8> {
        less_safe_key_bytes(self.enc_key)
    }

    /// A cipher with the given key.
    pub fn new(key: &AeadKey) -> (r: Self)
        requires
            key@.len() == AeadCipher::ChaCha20Poly1305.key_size(),
        ensures
            r.cipher() == AeadCipher::ChaCha20Poly1305,
            r.key() == key@,
    {
        ChaCha20Poly1305RecordEncrypter { enc_key: less_safe_key_new(key.as_ref()) }
    }
}

impl RecordEncryptionProvider for ChaCha20Poly1305RecordEncrypter {
    open spec fn sealed(&self, nonce: Seq<u8>, aad: Seq<u8>, plaintext: Seq<u8>) -> Seq<u8> {
        aead_sealed(self.cipher(), self.key(), nonce, aad, plaintext)
    }

    open spec fn opened(&self, nonce: Seq<u8>, aad: Seq<u8>, sealed: Seq<u8>) -> Option<Seq<u8>> {
        aead_opened(self.cipher(), self.key(), nonce, aad, sealed)
    }

    open spec fn tag_size(&self) -> nat {
        TAG_LEN as nat
    }

    open spec fn nonces(&self) -> NonceUse {
        unused()
    }

    open spec fn accepts(used: NonceUse, nonce: Seq<u8>, aad_len: nat, len: nat) -> bool {
        AeadCipher::ChaCha20Poly1305.accepts(used, nonce, aad_len, len, 0)
    }

    open spec fn nonces_after(used: NonceUse, nonce: Seq<u8>) -> NonceUse {
        used
    }

    fn encrypt(&mut self, nonce: Nonce, aad: &[u8], payload: &mut [u8]) -> (r: Result<(), Error>) {
        proof {
            use_type_invariant(&*self);
        }
        let nonce: [u8; 12] = match nonce.to_array() {
            Ok(nonce) => nonce,
            Err(e) => return Err(e),
        };
        let at: usize = payload.len() - TAG_LEN;
        let tag = {
            let (plaintext, _room) = payload.split_at_mut(at);
            less_safe_key_seal(&self.enc_key, nonce, aad, plaintext)
        };
        append_tag(tag, payload)
    }

    fn tag_len(&self) -> (r: usize) {
        TAG_LEN
    }
}

impl ContiguousRecordEncryptionProvider for ChaCha20Poly1305RecordEncrypter {
    open spec fn sealed_contiguous(
        &self,
        nonce: Seq<u8>,
        aad: Seq<u8>,
        plaintext: Seq<u8>,
    ) -> Seq<u8> {
        aead_sealed(self.cipher(), self.key(), nonce, aad, plaintext)
    }

    open spec fn opened_contiguous(
        &self,
        nonce: Seq<u8>,
        aad: Seq<u8>,
        sealed: Seq<u8>,
    ) -> Option<Seq<u8>> {
        aead_opened(self.cipher(), self.key(), nonce, aad, sealed)
    }

    open spec fn contiguous_tag_size(&self) -> nat {
        TAG_LEN as nat
    }

    open spec fn contiguous_nonces(&self) -> NonceUse {
        unused()
    }

    open spec fn accepts_contiguous(
        used: NonceUse,
        nonce: Seq<u8>,
        aad_len: nat,
        len: nat,
        extra_len: nat,
    ) -> bool {
        AeadCipher::ChaCha20Poly1305.accepts(used, nonce, aad_len, len, extra_len)
    }

    open spec fn contiguous_nonces_after(used: NonceUse, nonce: Seq<u8>) -> NonceUse {
        used
    }

    fn encrypt_contiguous<'a>(
        &mut self,
        nonce: Nonce,
        aad: &[u8],
        plaintext: &[u8],
        extra_plaintext: &[u8],
        ciphertext: &'a mut [u8],
        encrypted_len: usize,
    ) -> (r: Result<&'a [u8], Error>) {
        proof {
            use_type_invariant(&*self);
        }
        let record = match record_region(ciphertext, encrypted_len) {
            Ok(record) => record,
            Err(e) => return Err(e),
        };
        let nonce: [u8; 12] = match nonce.to_array() {
            Ok(nonce) => nonce,
            Err(e) => return Err(e),
        };
        let succeeded: bool = {
            let (sealed, extra_and_tag) = record.split_at_mut(plaintext.len());
            less_safe_key_scatter(
                &self.enc_key,
                nonce,
                aad,
                plaintext,
                sealed,
                extra_plaintext,
                extra_and_tag,
            )
        };
        sealed_region(succeeded, &*record)
    }
}

/// The length of an opened plaintext, or the error that stands for a ciphertext
/// that is not authentic.
pub fn plaintext_len(opened: Option<usize>) -> (r: Result<usize, Error>)
    ensures
        r == (match opened {
            Some(len) => Ok::<usize, Error>(len),
            None => Err(Error::DecryptError),
        }),
{
    match opened {
        Some(len) => Ok(len),
        None => Err(Error::DecryptError),
    }
}

/// A record cipher for AES-GCM whose ciphertext lies behind an explicit nonce.
pub struct GcmRecordDecrypter {
    dec_key: TlsRecordOpeningKey,
}

impl GcmRecordDecrypter {
    /// The cipher of the key.
    pub closed spec fn cipher(&self) -> AeadCipher {
        opening_key_cipher(self.dec_key)
    }

    /// The bytes of the key.
    pub closed spec fn key(&self) -> Seq<u8> {
        opening_key_bytes(self.dec_key)
    }

    /// A cipher with the given key.
    pub fn new(cipher: AeadCipher, key: &AeadKey) -> (r: Self)
        requires
            cipher.is_gcm(),
            key@.len() == cipher.key_size(),
        ensures
            r.cipher() == cipher,
            r.key() == key@,
    {
        GcmRecordDecrypter { dec_key: opening_key_new(cipher, false, key.as_ref()) }
    }
}

impl RecordDecryptionProvider for GcmRecordDecrypter {
    open spec fn opened(&self, nonce: Seq<u8>, aad: Seq<u8>, sealed: Seq<u8>) -> Option<Seq<u8>> {
        aead_opened(self.cipher(), self.key(), nonce, aad, sealed)
    }

    open spec fn tag_size(&self) -> nat {
        TAG_LEN as nat
    }

    open spec fn origin(&self, ciphertext_and_tag: int) -> int {
        ciphertext_and_tag
    }

    fn decrypt(
        &mut self,
        nonce: Nonce,
        aad: &[u8],
        payload: &mut [u8],
        ciphertext_and_tag: usize,
    ) -> (r: Result<usize, Error>) {
        let nonce: [u8; 12] = match nonce.to_array() {
            Ok(nonce) => nonce,
            Err(e) => return Err(e),
        };
        assert(payload.len() == payload@.len());
        plaintext_len(
            opening_key_open_within(&self.dec_key, nonce, aad, payload, ciphertext_and_tag),
        )
    }

    fn tag_len(&self) -> (r: usize) {
        TAG_LEN
    }
}

/// A record cipher for AES-GCM whose ciphertext takes up all of the payload.
pub struct Gcm13RecordDecrypter {
    dec_key: TlsRecordOpeningKey,
}

impl Gcm13RecordDecrypter {
    /// The cipher of the key.
    pub closed spec fn cipher(&self) -> AeadCipher {
        opening_key_cipher(self.dec_key)
    }

    /// The bytes of the key.
    pub closed spec fn key(&self) -> Seq<u8> {
        opening_key_bytes(self.dec_key)
    }

    /// A cipher with the given key.
    pub fn new(cipher: AeadCipher, key: &AeadKey) -> (r: Self)
        requires
            cipher.is_gcm(),
            key@.len() == cipher.key_size(),
        ensures
            r.cipher() == cipher,
            r.key() == key@,
    {
        Gcm13RecordDecrypter { dec_key: opening_key_new(cipher, true, key.as_ref()) }
    }
}

impl RecordDecryptionProvider for Gcm13RecordDecrypter {
    open spec fn opened(&self, nonce: Seq<u8>, aad: Seq<u8>, sealed: Seq<u8>) -> Option<Seq<u8>> {
        aead_opened(self.cipher(), self.key(), nonce, aad, sealed)
    }

    open spec fn tag_size(&self) -> nat {
        TAG_LEN as nat
    }

    open spec fn origin(&self, ciphertext_and_tag: int) -> int {
        0
    }

    fn decrypt(
        &mut self,
        nonce: Nonce,
        aad: &[u8],
        payload: &mut [u8],
        ciphertext_and_tag: usize,
    ) -> (r: Result<usize, Error>) {
        let _ = ciphertext_and_tag;
        let nonce: [u8; 12] = match nonce.to_array() {
            Ok(nonce) => nonce,
            Err(e) => return Err(e),
        };
        assert(payload.len() == payload@.len());
        assert(payload@.skip(0) =~= payload@);
        plaintext_len(opening_key_open_in_place(&self.dec_key, nonce, aad, payload))
    }

    fn tag_len(&self) -> (r: usize) {
        TAG_LEN
    }
}

/// A record cipher for ChaCha20-Poly1305, whose ciphertext takes up all of the
/// payload.
pub struct ChaCha20Poly1305RecordDecrypter {
    dec_key: LessSafeKey,
}

impl ChaCha20Poly1305RecordDecrypter {
    /// The cipher of the key.
    pub closed spec fn cipher(&self) -> AeadCipher {
        less_safe_key_cipher(self.dec_key)
    }

    /// The bytes of the key.
    pub closed spec fn key(&self) -> Seq<u8> {
        less_safe_key_bytes(self.dec_key)
    }

    /// A cipher with the given key.
    pub fn new(key: &AeadKey) -> (r: Self)
        requires
            key@.len() == AeadCipher::ChaCha20Poly1305.key_size(),
        ensures
            r.cipher() == AeadCipher::ChaCha20Poly1305,
            r.key() == key@,
    {
        ChaCha20Poly1305RecordDecrypter { dec_key: less_safe_key_new(key.as_ref()) }
    }
}

impl RecordDecryptionProvider for ChaCha20Poly1305RecordDecrypter {
    open spec fn opened(&self, nonce: Seq<u8>, aad: Seq<u8>, sealed: Seq<u8>) -> Option<Seq<u8>> {
        aead_opened(self.cipher(), self.key(), nonce, aad, sealed)
    }

    open spec fn tag_size(&self) -> nat {
        TAG_LEN as nat
    }

    open spec fn origin(&self, ciphertext_and_tag: int) -> int {
        0
    }

    fn decrypt(
        &mut self,
        nonce: Nonce,
        aad: &[u8],
        payload: &mut [u8],
        ciphertext_and_tag: usize,
    ) -> (r: Result<usize, Error>) {
        let _ = ciphertext_and_tag;
        let nonce: [u8; 12] = match nonce.to_array() {
            Ok(nonce) => nonce,
            Err(e) => return Err(e),
        };
        assert(payload.len() == payload@.len());
        assert(payload@.skip(0) =~= payload@);
        plaintext_len(less_safe_key_open(&self.dec_key, nonce, aad, payload))
    }

    fn tag_len(&self) -> (r: usize) {
        TAG_LEN
    }
}

} // verus!
