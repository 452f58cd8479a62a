//! What record protection promises: sealed records open, and it does not matter
//! whether a plaintext is in one piece.

use vstd::prelude::*;

use crate::crypto::aead::{
    aead_opened, aead_sealed, AeadCipher, GCM_MAX_AAD_LEN, GCM_MAX_LEN,
};
use crate::crypto::cipher::{
    after_nonce, counts_up, nonce_bytes, nonce_counter, unused,
    ContiguousRecordEncryptionProvider, NonceUse, RecordDecryptionProvider,
    RecordEncryptionProvider, NONCE_LEN, OPENABLE_LEN,
};
use crate::crypto::tls12::{
    tls12_aad, Tls12ChaCha20Poly1305RecordDecrypter, Tls12ChaCha20Poly1305RecordEncrypter,
    Tls12GcmRecordDecrypter, Tls12GcmRecordEncrypter, CHACHAPOLY1305_OVERHEAD,
    GCM_EXPLICIT_NONCE_LEN,
};
use crate::crypto::tls13::{tls13_aad, Tls13RecordDecrypter, Tls13RecordEncrypter};
use crate::enums::ContentType;
use crate::error::Error;
use crate::msgs::codec::{
    be_bytes, be_value, lemma_be_bytes_len, lemma_be_value_bound, lemma_be_value_of_bytes,
    lemma_pow256_values, pow256,
};
use crate::msgs::record::{lemma_unpadded, EncodableVersion, MAX_FRAGMENT_LEN};
use crate::msgs::wire_laws::{law_numbers_are_big_endian, number_at};

verus! {

/// Numbers that fit into fewer bytes have zeros in front.
proof fn lemma_leading_zeros(value: nat, n: nat, m: nat)
    requires
        value < pow256(m),
        m <= n,
    ensures
        forall|i: int| 0 <= i < n - m ==> #[trigger] be_bytes(value, n)[i] == 0,
    decreases n,
{
    if n > m {
        lemma_be_bytes_len(value / 256, (n - 1) as nat);
        if m > 0 {
            lemma_leading_zeros(value / 256, (n - 1) as nat, (m - 1) as nat);
        } else {
            assert(value == 0);
            lemma_leading_zeros(0, (n - 1) as nat, 0);
        }
        assert forall|i: int| 0 <= i < n - m implies #[trigger] be_bytes(value, n)[i] == 0 by {
            if i < n - 1 {
                assert(be_bytes(value, n)[i] == be_bytes(value / 256, (n - 1) as nat)[i]);
            } else {
                assert(be_bytes(value, n)[i] == (value % 256) as u8);
            }
        }
    }
}

/// The sequence number does not reach the salt at the front of a GCM nonce.
pub proof fn lemma_nonce_keeps_salt(iv: Seq<u8>, seq: u64)
    requires
        iv.len() == NONCE_LEN,
    ensures
        nonce_bytes(iv, seq).len() == NONCE_LEN,
        nonce_bytes(iv, seq).take(4) == iv.take(4),
{
    lemma_pow256_values();
    lemma_leading_zeros(seq as nat, 12, 8);
    assert forall|i: int| 0 <= i < 4 implies nonce_bytes(iv, seq)[i] == iv[i] by {
        assert(be_bytes(seq as nat, 12)[i] == 0);
        let x = iv[i];
        assert(x ^ 0u8 == x) by (bit_vector);
    }
    assert(nonce_bytes(iv, seq).take(4) =~= iv.take(4));
}

/// The last bytes of a number are those of the number with fewer bytes.
proof fn lemma_trailing_bytes(value: nat, n: nat, m: nat)
    requires
        m <= n,
    ensures
        be_bytes(value, n).skip(n - m) == be_bytes(value, m),
    decreases n,
{
    lemma_be_bytes_len(value, n);
    lemma_be_bytes_len(value, m);
    if m > 0 {
        lemma_trailing_bytes(value / 256, (n - 1) as nat, (m - 1) as nat);
        lemma_be_bytes_len(value / 256, (n - 1) as nat);
        let front = be_bytes(value / 256, (n - 1) as nat);
        assert(be_bytes(value, n).skip(n - m) =~= front.skip(n - m).push((value % 256) as u8));
    } else {
        assert(be_bytes(value, n).skip(n as int) =~= be_bytes(value, 0));
    }
}

/// Exclusive or works byte by byte.
proof fn lemma_xor_of_bytes(a: Seq<u8>, b: Seq<u8>, c: Seq<u8>)
    requires
        a.len() <= 8,
        a.len() == b.len() == c.len(),
        forall|i: int| 0 <= i < a.len() ==> #[trigger] c[i] == a[i] ^ b[i],
    ensures
        be_value(a) <= u64::MAX,
        be_value(b) <= u64::MAX,
        be_value(c) == (be_value(a) as u64) ^ (be_value(b) as u64),
    decreases a.len(),
{
    reveal_with_fuel(pow256, 9);
    lemma_pow256_values();
    lemma_be_value_bound(a);
    lemma_be_value_bound(b);
    if a.len() > 0 {
        lemma_be_value_bound(a.drop_last());
        lemma_be_value_bound(b.drop_last());
        lemma_xor_of_bytes(a.drop_last(), b.drop_last(), c.drop_last());
        let x = be_value(a.drop_last()) as u64;
        let y = be_value(b.drop_last()) as u64;
        let p = a.last();
        let q = b.last();
        assert(x < 0x100_0000_0000_0000 && y < 0x100_0000_0000_0000);
        assert(((x * 256 + p) as u64) ^ ((y * 256 + q) as u64) == (x ^ y) * 256 + (p ^ q))
            by (bit_vector)
            requires
                x < 0x100_0000_0000_0000,
                y < 0x100_0000_0000_0000,
        ;
    } else {
        assert(0u64 ^ 0u64 == 0) by (bit_vector);
    }
}

/// The counter in a nonce is that in the IV, combined with the sequence number.
proof fn lemma_nonce_counter(iv: Seq<u8>, seq: u64)
    requires
        iv.len() == NONCE_LEN,
    ensures
        nonce_counter(nonce_bytes(iv, seq)) == nonce_counter(iv) ^ seq,
{
    let number = be_bytes(seq as nat, 12);
    lemma_be_bytes_len(seq as nat, 12);
    lemma_trailing_bytes(seq as nat, 12, 8);
    lemma_pow256_values();
    lemma_be_value_of_bytes(seq as nat, 8);
    lemma_xor_of_bytes(iv.skip(4), number.skip(4), nonce_bytes(iv, seq).skip(4));
}

/// A nonce is the IV, of which the sequence number changes the last eight bytes alone: as
/// numbers, they are combined by exclusive or.
pub proof fn law_nonce_is_iv_and_sequence_number(iv: Seq<u8>, seq: u64)
    requires
        iv.len() == 12,
    ensures
        nonce_bytes(iv, seq).len() == 12,
        nonce_bytes(iv, seq).take(4) == iv.take(4),
        be_value(iv.skip(4)) <= u64::MAX,
        be_value(nonce_bytes(iv, seq).skip(4)) == (be_value(iv.skip(4)) as u64) ^ seq,
        number_at(nonce_bytes(iv, seq), 4, 8) == (number_at(iv, 4, 8) as u64) ^ seq,
        nonce_bytes(iv, 0) == iv,
{
    let nonce = nonce_bytes(iv, seq);
    lemma_nonce_keeps_salt(iv, seq);
    lemma_nonce_counter(iv, seq);
    lemma_pow256_values();
    lemma_be_value_bound(iv.skip(4));
    lemma_be_value_bound(nonce.skip(4));
    law_numbers_are_big_endian(iv, 4, 8);
    law_numbers_are_big_endian(nonce, 4, 8);
    assert(iv.subrange(4, 12) =~= iv.skip(4));
    assert(nonce.subrange(4, 12) =~= nonce.skip(4));
    lemma_leading_zeros(0, 12, 0);
    assert forall|i: int| 0 <= i < 12 implies nonce_bytes(iv, 0)[i] == iv[i] by {
        assert(be_bytes(0, 12)[i] == 0);
        let x = iv[i];
        assert(x ^ 0u8 == x) by (bit_vector);
    }
    assert(nonce_bytes(iv, 0) =~= iv);
}

/// Records with different sequence numbers have different nonces.
pub proof fn law_nonces_differ(iv: Seq<u8>, a: u64, b: u64)
    requires
        iv.len() == 12,
        nonce_bytes(iv, a) == nonce_bytes(iv, b),
    ensures
        a == b,
{
    law_nonce_is_iv_and_sequence_number(iv, a);
    law_nonce_is_iv_and_sequence_number(iv, b);
    let x = be_value(iv.skip(4)) as u64;
    assert(x ^ a == x ^ b ==> a == b) by (bit_vector);
}

/// Nonces count up by the numbers in their last eight bytes: a key that began with one nonce
/// takes another one if and only if it lies further from the first than all before it.
pub proof fn law_nonces_count_up(used: NonceUse, nonce: Seq<u8>)
    requires
        nonce.len() == 12,
    ensures
        ({
            let counter = number_at(nonce, 4, 8) as u64;
            let after = after_nonce(used, nonce);
            &&& nonce_counter(nonce) == number_at(nonce, 4, 8)
            &&& used.first is None ==> {
                &&& counts_up(used, nonce) <==> used.least == 0
                &&& after.first == Some(counter)
                &&& used.least == 0 ==> after.least == 1
                &&& used.least > 0 ==> after.least == used.least
            }
            &&& used.first matches Some(first) ==> {
                &&& counts_up(used, nonce) <==> used.least <= (counter ^ first) && (counter ^ first)
                    != u64::MAX
                &&& after.first == used.first
                &&& counts_up(used, nonce) ==> after.least == (counter ^ first) + 1
                &&& !counts_up(used, nonce) ==> after.least == used.least
            }
        }),
        unused().first is None,
        unused().least == 0,
{
    lemma_pow256_values();
    law_numbers_are_big_endian(nonce, 4, 8);
    assert(nonce.subrange(4, 12) =~= nonce.skip(4));
}

/// A cipher takes records in the order of their sequence numbers, whether or not
/// some are left out: once a connection has begun with sequence number 0, every
/// number after the last one is taken.
///
/// The very last number is none of them. A GCM key that began with another number
/// than 0 counts the steps from there.
pub proof fn law_records_in_order_are_sealed(
    cipher: AeadCipher,
    single: bool,
    iv: Seq<u8>,
    used: NonceUse,
    seq: u64,
    later: u64,
    aad_len: nat,
    len: nat,
    extra_len: nat,
)
    requires
        iv.len() == NONCE_LEN,
        used == unused() && seq == 0 || used.first == Some(nonce_counter(nonce_bytes(iv, 0)))
            && counts_up(used, nonce_bytes(iv, seq)),
        seq < later < u64::MAX,
        aad_len <= GCM_MAX_AAD_LEN,
        len + extra_len <= GCM_MAX_LEN,
    ensures
        ({
            let after = cipher.nonces_after(used, nonce_bytes(iv, seq));
            &&& cipher.is_gcm() ==> after.first == Some(nonce_counter(nonce_bytes(iv, 0)))
            &&& cipher.is_gcm() ==> after.least == seq + 1
            &&& cipher.accepts_record(
                single,
                after,
                nonce_bytes(iv, later),
                aad_len,
                len,
                extra_len,
            )
        }),
{
    lemma_nonce_counter(iv, 0);
    lemma_nonce_counter(iv, seq);
    lemma_nonce_counter(iv, later);
    let x = nonce_counter(iv);
    assert((x ^ seq) ^ (x ^ 0) == seq) by (bit_vector);
    assert((x ^ later) ^ (x ^ 0) == later) by (bit_vector);
}

/// A nonce is unique for all records: a GCM key that has sealed with a nonce does
/// not seal with it again.
pub proof fn law_nonces_are_not_repeated(used: NonceUse, nonce: Seq<u8>)
    requires
        counts_up(used, nonce),
    ensures
        !counts_up(after_nonce(used, nonce), nonce),
{
    let x = nonce_counter(nonce);
    assert(x ^ x == 0) by (bit_vector);
}

/// What is sealed by `encrypter` is opened by `decrypter`.
pub open spec fn gcm_match<
    P: RecordEncryptionProvider,
    C: ContiguousRecordEncryptionProvider,
    D: RecordDecryptionProvider,
>(
    encrypter: Tls12GcmRecordEncrypter<P, C>,
    decrypter: Tls12GcmRecordDecrypter<D>,
) -> bool {
    &&& encrypter.iv().len() == NONCE_LEN
    &&& encrypter.iv().take(4) == decrypter.salt()
    &&& encrypter.tag_size() == 16
    &&& decrypter.origin(GCM_EXPLICIT_NONCE_LEN as int) == GCM_EXPLICIT_NONCE_LEN
    &&& forall|single: bool, n: Seq<u8>, a: Seq<u8>, p: Seq<u8>, s: Seq<u8>| #[trigger]
        encrypter.seals(single, n, a, p, s) && p.len() < OPENABLE_LEN ==> decrypter.opened(n, a, s)
            == Some(p)
}

/// Sealed records open through the corresponding decrypter: the payload that a
/// TLS 1.2 GCM encrypter makes of a plaintext is opened to that plaintext.
pub proof fn law_tls12_gcm_records_open<
    P: RecordEncryptionProvider,
    C: ContiguousRecordEncryptionProvider,
    D: RecordDecryptionProvider,
>(
    encrypter: Tls12GcmRecordEncrypter<P, C>,
    decrypter: Tls12GcmRecordDecrypter<D>,
    typ: ContentType,
    version: EncodableVersion,
    received_version: EncodableVersion,
    seq: u64,
    single: bool,
    plaintext: Seq<u8>,
    payload: Seq<u8>,
)
    requires
        gcm_match(encrypter, decrypter),
        received_version.actual() == version.shown(),
        plaintext.len() <= MAX_FRAGMENT_LEN,
        payload.len() == plaintext.len() + GCM_EXPLICIT_NONCE_LEN + encrypter.tag_size(),
        payload.take(8) == nonce_bytes(encrypter.iv(), seq).skip(4),
        encrypter.seals(
            single,
            nonce_bytes(encrypter.iv(), seq),
            tls12_aad(seq, typ, version.shown(), plaintext.len()),
            plaintext,
            payload.skip(8),
        ),
    ensures
        decrypter.outcome(typ, received_version, seq, payload) == Ok::<Seq<u8>, Error>(plaintext),
{
    let nonce = nonce_bytes(encrypter.iv(), seq);
    lemma_nonce_keeps_salt(encrypter.iv(), seq);
    assert(nonce =~= nonce.take(4) + nonce.skip(4));
    assert(decrypter.salt() + payload.take(8) == nonce);
}

/// What is sealed by `encrypter` is opened by `decrypter`.
pub open spec fn chacha_match<
    P: RecordEncryptionProvider,
    C: ContiguousRecordEncryptionProvider,
    D: RecordDecryptionProvider,
>(
    encrypter: Tls12ChaCha20Poly1305RecordEncrypter<P, C>,
    decrypter: Tls12ChaCha20Poly1305RecordDecrypter<D>,
) -> bool {
    &&& encrypter.iv().len() == NONCE_LEN
    &&& encrypter.iv() == decrypter.iv()
    &&& encrypter.tag_size() == CHACHAPOLY1305_OVERHEAD
    &&& forall|single: bool, n: Seq<u8>, a: Seq<u8>, p: Seq<u8>, s: Seq<u8>| #[trigger]
        encrypter.seals(single, n, a, p, s) && p.len() < OPENABLE_LEN ==> decrypter.opened(n, a, s)
            == Some(p)
}

/// Sealed records open through the corresponding decrypter: the payload that a
/// TLS 1.2 ChaCha20-Poly1305 encrypter makes of a plaintext is opened to that
/// plaintext.
pub proof fn law_tls12_chacha_records_open<
    P: RecordEncryptionProvider,
    C: ContiguousRecordEncryptionProvider,
    D: RecordDecryptionProvider,
>(
    encrypter: Tls12ChaCha20Poly1305RecordEncrypter<P, C>,
    decrypter: Tls12ChaCha20Poly1305RecordDecrypter<D>,
    typ: ContentType,
    version: EncodableVersion,
    received_version: EncodableVersion,
    seq: u64,
    single: bool,
    plaintext: Seq<u8>,
    payload: Seq<u8>,
)
    requires
        chacha_match(encrypter, decrypter),
        received_version.actual() == version.shown(),
        plaintext.len() <= MAX_FRAGMENT_LEN,
        payload.len() == plaintext.len() + encrypter.tag_size(),
        encrypter.seals(
            single,
            nonce_bytes(encrypter.iv(), seq),
            tls12_aad(seq, typ, version.shown(), plaintext.len()),
            plaintext,
            payload,
        ),
    ensures
        decrypter.outcome(typ, received_version, seq, payload) == Ok::<Seq<u8>, Error>(plaintext),
{
}

/// What is sealed by `encrypter` is opened by `decrypter`.
pub open spec fn tls13_match<
    P: RecordEncryptionProvider,
    C: ContiguousRecordEncryptionProvider,
    D: RecordDecryptionProvider,
>(encrypter: Tls13RecordEncrypter<P, C>, decrypter: Tls13RecordDecrypter<D>) -> bool {
    &&& encrypter.iv().len() == NONCE_LEN
    &&& encrypter.iv() == decrypter.iv()
    &&& encrypter.tag_size() == decrypter.tag_size()
    &&& forall|single: bool, n: Seq<u8>, a: Seq<u8>, p: Seq<u8>, s: Seq<u8>| #[trigger]
        encrypter.seals(single, n, a, p, s) && p.len() < OPENABLE_LEN ==> decrypter.opened(n, a, s)
            == Some(p)
}

/// Sealed records open through the corresponding decrypter: the payload that a
/// TLS 1.3 encrypter makes of a record is opened to its content type and
/// plaintext, as long as the content type is not the one that stands for padding.
pub proof fn law_tls13_records_open<
    P: RecordEncryptionProvider,
    C: ContiguousRecordEncryptionProvider,
    D: RecordDecryptionProvider,
>(
    encrypter: Tls13RecordEncrypter<P, C>,
    decrypter: Tls13RecordDecrypter<D>,
    typ: ContentType,
    version: EncodableVersion,
    received_version: EncodableVersion,
    seq: u64,
    single: bool,
    plaintext: Seq<u8>,
    payload: Seq<u8>,
)
    requires
        tls13_match(encrypter, decrypter),
        received_version.actual() == version.shown(),
        typ.code() != 0,
        typ.is_canonical(),
        plaintext.len() <= MAX_FRAGMENT_LEN,
        payload.len() == plaintext.len() + 1 + encrypter.tag_size(),
        encrypter.seals(
            single,
            nonce_bytes(encrypter.iv(), seq),
            tls13_aad(ContentType::ApplicationData, version.shown(), payload.len()),
            plaintext.push(typ.code()),
            payload,
        ),
    ensures
        decrypter.outcome(ContentType::ApplicationData, received_version, seq, payload) == Ok::<
            (ContentType, Seq<u8>),
            Error,
        >((typ, plaintext)),
{
    let inner = plaintext.push(typ.code());
    lemma_unpadded(plaintext, typ.code());
    assert(inner.take(plaintext.len() as int) =~= plaintext);
}

/// Whatever is sealed is what the cipher makes of the plaintext under the key.
pub open spec fn gcm_uses_key<
    P: RecordEncryptionProvider,
    C: ContiguousRecordEncryptionProvider,
>(encrypter: Tls12GcmRecordEncrypter<P, C>, cipher: AeadCipher, key: Seq<u8>) -> bool {
    forall|single: bool, n: Seq<u8>, a: Seq<u8>, p: Seq<u8>, s: Seq<u8>| #[trigger]
        encrypter.seals(single, n, a, p, s) ==> s == aead_sealed(cipher, key, n, a, p)
            && (p.len() < OPENABLE_LEN ==> aead_opened(cipher, key, n, a, s) == Some(p))
}

/// Whatever is sealed is what the cipher makes of the plaintext under the key.
pub open spec fn chacha_uses_key<
    P: RecordEncryptionProvider,
    C: ContiguousRecordEncryptionProvider,
>(encrypter: Tls12ChaCha20Poly1305RecordEncrypter<P, C>, cipher: AeadCipher, key: Seq<u8>) -> bool {
    forall|single: bool, n: Seq<u8>, a: Seq<u8>, p: Seq<u8>, s: Seq<u8>| #[trigger]
        encrypter.seals(single, n, a, p, s) ==> s == aead_sealed(cipher, key, n, a, p)
            && (p.len() < OPENABLE_LEN ==> aead_opened(cipher, key, n, a, s) == Some(p))
}

/// Whatever is sealed is what the cipher makes of the plaintext under the key.
pub open spec fn tls13_uses_key<
    P: RecordEncryptionProvider,
    C: ContiguousRecordEncryptionProvider,
>(encrypter: Tls13RecordEncrypter<P, C>, cipher: AeadCipher, key: Seq<u8>) -> bool {
    forall|single: bool, n: Seq<u8>, a: Seq<u8>, p: Seq<u8>, s: Seq<u8>| #[trigger]
        encrypter.seals(single, n, a, p, s) ==> s == aead_sealed(cipher, key, n, a, p)
            && (p.len() < OPENABLE_LEN ==> aead_opened(cipher, key, n, a, s) == Some(p))
}

/// Whatever the cipher seals is sealed, contiguous plaintexts and others with nonces
/// of their own.
pub open spec fn gcm_accepts_as<
    P: RecordEncryptionProvider,
    C: ContiguousRecordEncryptionProvider,
>(encrypter: Tls12GcmRecordEncrypter<P, C>, cipher: AeadCipher) -> bool {
    &&& encrypter.tags_agree()
    &&& forall|single: bool| #[trigger] encrypter.is_fast(single) == single
    &&& forall|single: bool, used: NonceUse, n: Seq<u8>| #[trigger]
        encrypter.nonces_after(single, used, n) == cipher.nonces_after(used, n)
    &&& forall|single: bool, used: NonceUse, n: Seq<u8>, a: nat, l: nat, e: nat| #[trigger]
        encrypter.can_seal(single, used, n, a, l, e) == cipher.accepts_record(
            single,
            used,
            n,
            a,
            l,
            e,
        )
}

/// Whatever the cipher seals is sealed, contiguous plaintexts and others with nonces
/// of their own.
pub open spec fn chacha_accepts_as<
    P: RecordEncryptionProvider,
    C: ContiguousRecordEncryptionProvider,
>(encrypter: Tls12ChaCha20Poly1305RecordEncrypter<P, C>, cipher: AeadCipher) -> bool {
    &&& encrypter.tags_agree()
    &&& forall|single: bool| #[trigger] encrypter.is_fast(single) == single
    &&& forall|single: bool, used: NonceUse, n: Seq<u8>| #[trigger]
        encrypter.nonces_after(single, used, n) == cipher.nonces_after(used, n)
    &&& forall|single: bool, used: NonceUse, n: Seq<u8>, a: nat, l: nat, e: nat| #[trigger]
        encrypter.can_seal(single, used, n, a, l, e) == cipher.accepts_record(
            single,
            used,
            n,
            a,
            l,
            e,
        )
}

/// Whatever the cipher seals is sealed, contiguous plaintexts and others with nonces
/// of their own.
pub open spec fn tls13_accepts_as<
    P: RecordEncryptionProvider,
    C: ContiguousRecordEncryptionProvider,
>(encrypter: Tls13RecordEncrypter<P, C>, cipher: AeadCipher) -> bool {
    &&& encrypter.tags_agree()
    &&& forall|single: bool| #[trigger] encrypter.is_fast(single) == single
    &&& forall|single: bool, used: NonceUse, n: Seq<u8>| #[trigger]
        encrypter.nonces_after(single, used, n) == cipher.nonces_after(used, n)
    &&& forall|single: bool, used: NonceUse, n: Seq<u8>, a: nat, l: nat, e: nat| #[trigger]
        encrypter.can_seal(single, used, n, a, l, e) == cipher.accepts_record(
            single,
            used,
            n,
            a,
            l,
            e,
        )
}

/// Contiguous plaintext and fragmented plaintext are handled identically by a
/// TLS 1.2 GCM encrypter both of whose providers have the same key: if the same
/// nonces were used, one is sealed if and only if the other is, and to the same.
pub proof fn law_tls12_gcm_chunks_do_not_matter<
    P: RecordEncryptionProvider,
    C: ContiguousRecordEncryptionProvider,
>(
    encrypter: Tls12GcmRecordEncrypter<P, C>,
    cipher: AeadCipher,
    key: Seq<u8>,
    nonce: Seq<u8>,
    aad: Seq<u8>,
    plaintext: Seq<u8>,
    contiguous: Seq<u8>,
    fragmented: Seq<u8>,
)
    requires
        gcm_uses_key(encrypter, cipher, key),
        gcm_accepts_as(encrypter, cipher),
        contiguous.len() >= 8,
        fragmented.len() >= 8,
        contiguous.take(8) == nonce.skip(4),
        fragmented.take(8) == nonce.skip(4),
        encrypter.seals(true, nonce, aad, plaintext, contiguous.skip(8)),
        encrypter.seals(false, nonce, aad, plaintext, fragmented.skip(8)),
    ensures
        contiguous == fragmented,
        forall|used: NonceUse| #[trigger]
            encrypter.can_seal(true, used, nonce, aad.len(), plaintext.len(), 0)
                == encrypter.can_seal(false, used, nonce, aad.len(), plaintext.len(), 0),
{
    assert(contiguous =~= contiguous.take(8) + contiguous.skip(8));
    assert(fragmented =~= fragmented.take(8) + fragmented.skip(8));
}

/// Contiguous plaintext and fragmented plaintext are handled identically by a
/// TLS 1.2 ChaCha20-Poly1305 encrypter both of whose providers have the same key:
/// one is sealed if and only if the other is, and to the same.
pub proof fn law_tls12_chacha_chunks_do_not_matter<
    P: RecordEncryptionProvider,
    C: ContiguousRecordEncryptionProvider,
>(
    encrypter: Tls12ChaCha20Poly1305RecordEncrypter<P, C>,
    cipher: AeadCipher,
    key: Seq<u8>,
    nonce: Seq<u8>,
    aad: Seq<u8>,
    plaintext: Seq<u8>,
    contiguous: Seq<u8>,
    fragmented: Seq<u8>,
)
    requires
        chacha_uses_key(encrypter, cipher, key),
        chacha_accepts_as(encrypter, cipher),
        encrypter.seals(true, nonce, aad, plaintext, contiguous),
        encrypter.seals(false, nonce, aad, plaintext, fragmented),
    ensures
        contiguous == fragmented,
        forall|used: NonceUse| #[trigger]
            encrypter.can_seal(true, used, nonce, aad.len(), plaintext.len(), 0)
                == encrypter.can_seal(false, used, nonce, aad.len(), plaintext.len(), 0),
{
}

/// Contiguous plaintext and fragmented plaintext are handled identically by a
/// TLS 1.3 encrypter both of whose providers have the same key: if the same nonces
/// were used, one is sealed if and only if the other is, and to the same.
pub proof fn law_tls13_chunks_do_not_matter<
    P: RecordEncryptionProvider,
    C: ContiguousRecordEncryptionProvider,
>(
    encrypter: Tls13RecordEncrypter<P, C>,
    cipher: AeadCipher,
    key: Seq<u8>,
    nonce: Seq<u8>,
    aad: Seq<u8>,
    plaintext: Seq<u8>,
    contiguous: Seq<u8>,
    fragmented: Seq<u8>,
)
    requires
        tls13_uses_key(encrypter, cipher, key),
        tls13_accepts_as(encrypter, cipher),
        1 <= plaintext.len() <= MAX_FRAGMENT_LEN + 1,
        encrypter.seals(true, nonce, aad, plaintext, contiguous),
        encrypter.seals(false, nonce, aad, plaintext, fragmented),
    ensures
        contiguous == fragmented,
        forall|used: NonceUse| #[trigger]
            encrypter.can_seal(true, used, nonce, aad.len(), (plaintext.len() - 1) as nat, 1)
                == encrypter.can_seal(false, used, nonce, aad.len(), (plaintext.len() - 1) as nat, 1),
{
}

} // verus!
