//! What goes into the protection of a record, byte by byte.

use vstd::prelude::*;

use crate::crypto::aead::{aead_opened, aead_sealed, AeadCipher};
use crate::crypto::cipher::{
    after_nonce, counts_up, nonce_bytes, nonce_len_error, too_small, NonceUse, RecordDecryptionProvider,
};
use crate::crypto::hash::HashAlgorithm;
use crate::crypto::hkdf::{salt_or_zeroes, zeroes, AwsLcHkdf};
use crate::crypto::laws::law_nonce_is_iv_and_sequence_number;
use crate::crypto::prf::Tls12Prf;
use crate::crypto::suites::{CipherSuite, SignatureScheme};
use crate::crypto::suites12::{
    are_tls12_suites, tls12_outcome, tls12_overhead, tls12_protected, tls12_receiver_iv,
    GcmAlgorithm, Tls12AeadAlgorithm, Tls12CipherSuite, Tls12RecordEncrypter,
};
use crate::crypto::suites13::{
    tls13_outcome, tls13_protected, tls13_suite, Tls13AeadAlgorithm, Tls13SuiteEncrypter,
};
use crate::crypto::tls12::{
    law_tls12_aad_fields, plaintext_outcome, tls12_aad, Tls12ChaCha20Poly1305RecordDecrypter,
    Tls12GcmRecordDecrypter,
};
use crate::crypto::tls13::{law_tls13_aad_is_record_header, tls13_aad, Tls13RecordDecrypter};
use crate::enums::{ContentType, ProtocolVersion};
use crate::error::{ApiMisuse, Error, PeerMisbehaved};
use crate::msgs::record::{
    law_padding_alone_is_refused, law_padding_is_removed, EncodableVersion,
};
use crate::msgs::wire_laws::{lemma_same_number, number_at};

verus! {

/// Whether `nonce` is the IV with the sequence number in its last eight bytes, combined by
/// exclusive or.
pub open spec fn is_nonce(nonce: Seq<u8>, iv: Seq<u8>, seq: u64) -> bool {
    &&& nonce.len() == 12
    &&& nonce.take(4) == iv.take(4)
    &&& number_at(nonce, 4, 8) == (number_at(iv, 4, 8) as u64) ^ seq
}

/// Whether `aad` is made of the sequence number, the content type, the version and the
/// length of the plaintext.
pub open spec fn is_tls12_aad(
    aad: Seq<u8>,
    seq: u64,
    typ: ContentType,
    version: ProtocolVersion,
    len: nat,
) -> bool {
    &&& aad.len() == 13
    &&& number_at(aad, 0, 8) == seq
    &&& aad[8] == typ.code()
    &&& number_at(aad, 9, 2) == version.code()
    &&& number_at(aad, 11, 2) == len % 0x1_0000
}

/// Whether `aad` is made of a content type, the version and the length of the protected
/// payload.
pub open spec fn is_tls13_aad(aad: Seq<u8>, typ: u8, version: ProtocolVersion, len: nat) -> bool {
    &&& aad.len() == 5
    &&& aad[0] == typ
    &&& number_at(aad, 1, 2) == version.code()
    &&& number_at(aad, 3, 2) == len % 0x1_0000
}

/// There is just one such nonce.
proof fn lemma_nonce(nonce: Seq<u8>, iv: Seq<u8>, seq: u64)
    requires
        iv.len() == 12,
        is_nonce(nonce, iv, seq),
    ensures
        nonce_bytes(iv, seq) == nonce,
{
    let made = nonce_bytes(iv, seq);
    law_nonce_is_iv_and_sequence_number(iv, seq);
    lemma_same_number(made, nonce, 4, 4, 8);
    assert forall|i: int| 0 <= i < 12 implies made[i] == nonce[i] by {
        if i < 4 {
            assert(made[i] == made.take(4)[i]);
            assert(nonce[i] == nonce.take(4)[i]);
        } else {
            assert(made[4 + (i - 4)] == nonce[4 + (i - 4)]);
        }
    }
    assert(made =~= nonce);
}

/// There is just one such byte string.
proof fn lemma_tls12_aad(
    aad: Seq<u8>,
    seq: u64,
    typ: ContentType,
    version: ProtocolVersion,
    len: nat,
)
    requires
        is_tls12_aad(aad, seq, typ, version, len),
    ensures
        tls12_aad(seq, typ, version, len) == aad,
{
    let made = tls12_aad(seq, typ, version, len);
    law_tls12_aad_fields(seq, typ, version, len);
    lemma_same_number(made, aad, 0, 0, 8);
    lemma_same_number(made, aad, 9, 9, 2);
    lemma_same_number(made, aad, 11, 11, 2);
    assert forall|i: int| 0 <= i < 13 implies made[i] == aad[i] by {
        if i < 8 {
            assert(made[0 + i] == aad[0 + i]);
        } else if 9 <= i < 11 {
            assert(made[9 + (i - 9)] == aad[9 + (i - 9)]);
        } else if 11 <= i {
            assert(made[11 + (i - 11)] == aad[11 + (i - 11)]);
        }
    }
    assert(made =~= aad);
}

/// There is just one such byte string.
proof fn lemma_tls13_aad(aad: Seq<u8>, typ: ContentType, version: ProtocolVersion, len: nat)
    requires
        is_tls13_aad(aad, typ.code(), version, len),
    ensures
        tls13_aad(typ, version, len) == aad,
{
    let made = tls13_aad(typ, version, len);
    law_tls13_aad_is_record_header(typ, version, len);
    lemma_same_number(made, aad, 1, 1, 2);
    lemma_same_number(made, aad, 3, 3, 2);
    assert forall|i: int| 0 <= i < 5 implies made[i] == aad[i] by {
        if 1 <= i < 3 {
            assert(made[1 + (i - 1)] == aad[1 + (i - 1)]);
        } else if 3 <= i {
            assert(made[3 + (i - 3)] == aad[3 + (i - 3)]);
        }
    }
    assert(made =~= aad);
}

/// A protected record of TLS 1.2 is the sealed plaintext. With AES-GCM the part of the nonce
/// that the receiver does not know stands in front.
pub proof fn law_tls12_record_is_protected(
    cipher: AeadCipher,
    key: Seq<u8>,
    iv: Seq<u8>,
    typ: ContentType,
    version: ProtocolVersion,
    seq: u64,
    plaintext: Seq<u8>,
    nonce: Seq<u8>,
    aad: Seq<u8>,
)
    requires
        iv.len() == 12,
        is_nonce(nonce, iv, seq),
        is_tls12_aad(aad, seq, typ, version, plaintext.len()),
    ensures
        ({
            let payload = tls12_protected(cipher, key, iv, typ, version, seq, plaintext);
            let sealed = aead_sealed(cipher, key, nonce, aad, plaintext);
            if cipher is ChaCha20Poly1305 {
                payload == sealed
            } else {
                &&& payload.take(8) == nonce.skip(4)
                &&& payload.skip(8) == sealed
            }
        }),
        tls12_overhead(cipher) == if cipher is ChaCha20Poly1305 {
            16nat
        } else {
            8 + 16
        },
{
    lemma_nonce(nonce, iv, seq);
    lemma_tls12_aad(aad, seq, typ, version, plaintext.len());
    let payload = tls12_protected(cipher, key, iv, typ, version, seq, plaintext);
    let sealed = aead_sealed(cipher, key, nonce, aad, plaintext);
    if !(cipher is ChaCha20Poly1305) {
        assert(payload.take(8) =~= nonce.skip(4));
        assert(payload.skip(8) =~= sealed);
    }
}

/// What is opened becomes the plaintext of a TLS 1.2 record, unless it is longer than
/// records may be. What cannot be opened is refused.
pub proof fn law_opened_plaintext(opened: Option<Seq<u8>>)
    ensures
        opened is None ==> plaintext_outcome(opened) == Err::<Seq<u8>, Error>(Error::DecryptError),
        opened matches Some(plaintext) ==> plaintext_outcome(opened) == if plaintext.len() <= 16384 {
            Ok::<Seq<u8>, Error>(plaintext)
        } else {
            Err(Error::PeerSentOversizedRecord)
        },
{
}

/// A protected record of TLS 1.2 is opened with the nonce and the additional data that it was
/// sealed with. With AES-GCM the nonce is the salt and the first eight bytes, and the rest
/// is opened. Payloads that are too short for a tag are refused.
pub proof fn law_tls12_record_is_opened(
    cipher: AeadCipher,
    key: Seq<u8>,
    iv: Seq<u8>,
    typ: ContentType,
    version: ProtocolVersion,
    seq: u64,
    payload: Seq<u8>,
    nonce: Seq<u8>,
    aad: Seq<u8>,
)
    requires
        is_tls12_aad(
            aad,
            seq,
            typ,
            version,
            (payload.len() - if cipher is ChaCha20Poly1305 {
                16int
            } else {
                24
            }) as nat,
        ),
        cipher is ChaCha20Poly1305 ==> iv.len() == 12 && is_nonce(nonce, iv, seq),
        cipher !is ChaCha20Poly1305 ==> iv.len() == 4 && nonce.len() == 12 && nonce.take(4) == iv
            && nonce.skip(4) == payload.take(8),
    ensures
        ({
            let outcome = tls12_outcome(cipher, key, iv, typ, version, seq, payload);
            if cipher is ChaCha20Poly1305 {
                if payload.len() < 16 {
                    outcome == Err::<Seq<u8>, Error>(Error::DecryptError)
                } else {
                    outcome == plaintext_outcome(aead_opened(cipher, key, nonce, aad, payload))
                }
            } else {
                if payload.len() < 24 {
                    outcome == Err::<Seq<u8>, Error>(Error::DecryptError)
                } else {
                    outcome == plaintext_outcome(
                        aead_opened(cipher, key, nonce, aad, payload.skip(8)),
                    )
                }
            }
        }),
{
    if cipher is ChaCha20Poly1305 {
        lemma_nonce(nonce, iv, seq);
        if payload.len() >= 16 {
            lemma_tls12_aad(aad, seq, typ, version, (payload.len() - 16) as nat);
        }
    } else if payload.len() >= 24 {
        lemma_tls12_aad(aad, seq, typ, version, (payload.len() - 24) as nat);
        assert(nonce =~= nonce.take(4) + nonce.skip(4));
    }
}

/// What the receiver needs to know of an IV: with AES-GCM the salt, else all of it.
pub proof fn law_receiver_iv(cipher: AeadCipher, iv: Seq<u8>)
    requires
        iv.len() == 12,
    ensures
        cipher is ChaCha20Poly1305 ==> tls12_receiver_iv(cipher, iv) == iv,
        cipher !is ChaCha20Poly1305 ==> tls12_receiver_iv(cipher, iv).len() == 4
            && tls12_receiver_iv(cipher, iv) + iv.skip(4) == iv,
{
    assert(iv.take(4) + iv.skip(4) =~= iv);
}

/// The decrypter for AES-GCM in TLS 1.2 opens what follows the first eight bytes, which are
/// the part of the nonce behind the salt.
pub proof fn law_gcm_decrypter<P: RecordDecryptionProvider>(
    decrypter: Tls12GcmRecordDecrypter<P>,
    typ: ContentType,
    version: EncodableVersion,
    seq: u64,
    payload: Seq<u8>,
    aad: Seq<u8>,
)
    requires
        payload.len() >= 24 ==> is_tls12_aad(
            aad,
            seq,
            typ,
            version.actual(),
            (payload.len() - 24) as nat,
        ),
    ensures
        decrypter.outcome(typ, version, seq, payload) == if payload.len() < 24 {
            Err::<Seq<u8>, Error>(Error::DecryptError)
        } else {
            plaintext_outcome(
                decrypter.opened(
                    decrypter.salt() + payload.subrange(0, 8),
                    aad,
                    payload.skip(decrypter.origin(8)),
                ),
            )
        },
{
    if payload.len() >= 24 {
        lemma_tls12_aad(aad, seq, typ, version.actual(), (payload.len() - 24) as nat);
        assert(payload.take(8) =~= payload.subrange(0, 8));
    }
}

/// The decrypter for ChaCha20-Poly1305 in TLS 1.2 opens the whole payload.
pub proof fn law_chacha_decrypter<P: RecordDecryptionProvider>(
    decrypter: Tls12ChaCha20Poly1305RecordDecrypter<P>,
    typ: ContentType,
    version: EncodableVersion,
    seq: u64,
    payload: Seq<u8>,
    nonce: Seq<u8>,
    aad: Seq<u8>,
)
    requires
        decrypter.iv().len() == 12,
        is_nonce(nonce, decrypter.iv(), seq),
        payload.len() >= 16 ==> is_tls12_aad(
            aad,
            seq,
            typ,
            version.actual(),
            (payload.len() - 16) as nat,
        ),
    ensures
        decrypter.outcome(typ, version, seq, payload) == if payload.len() < 16 {
            Err::<Seq<u8>, Error>(Error::DecryptError)
        } else {
            plaintext_outcome(decrypter.opened(nonce, aad, payload))
        },
{
    lemma_nonce(nonce, decrypter.iv(), seq);
    if payload.len() >= 16 {
        lemma_tls12_aad(aad, seq, typ, version.actual(), (payload.len() - 16) as nat);
    }
}

/// A protected record of TLS 1.3 is the plaintext, sealed with its content type behind it.
/// The additional data shows application data, and the length with content type and tag.
pub proof fn law_tls13_record_is_protected(
    cipher: AeadCipher,
    key: Seq<u8>,
    iv: Seq<u8>,
    typ: ContentType,
    version: ProtocolVersion,
    seq: u64,
    plaintext: Seq<u8>,
    nonce: Seq<u8>,
    aad: Seq<u8>,
)
    requires
        iv.len() == 12,
        is_nonce(nonce, iv, seq),
        is_tls13_aad(aad, 23, version, plaintext.len() + 1 + 16),
    ensures
        tls13_protected(cipher, key, iv, typ, version, seq, plaintext) == aead_sealed(
            cipher,
            key,
            nonce,
            aad,
            plaintext + seq![typ.code()],
        ),
{
    lemma_nonce(nonce, iv, seq);
    lemma_tls13_aad(aad, ContentType::ApplicationData, version, plaintext.len() + 1 + 16);
    assert(plaintext.push(typ.code()) =~= plaintext + seq![typ.code()]);
}

/// A protected record of TLS 1.3 is opened with the nonce and the header that it was sealed
/// with. What is opened ends with a content type and padding. What cannot be opened is
/// refused, and so are payloads that are too short for a tag.
pub proof fn law_tls13_record_is_opened(
    cipher: AeadCipher,
    key: Seq<u8>,
    iv: Seq<u8>,
    typ: ContentType,
    version: ProtocolVersion,
    seq: u64,
    payload: Seq<u8>,
    nonce: Seq<u8>,
    aad: Seq<u8>,
    plain: Seq<u8>,
    inner_typ: u8,
    padding: Seq<u8>,
)
    requires
        iv.len() == 12,
        is_nonce(nonce, iv, seq),
        is_tls13_aad(aad, typ.code(), version, payload.len()),
        inner_typ != 0,
        forall|i: int| 0 <= i < padding.len() ==> #[trigger] padding[i] == 0,
    ensures
        ({
            let outcome = tls13_outcome(cipher, key, iv, typ, version, seq, payload);
            let opened = aead_opened(cipher, key, nonce, aad, payload);
            &&& payload.len() < 16 || opened is None ==> outcome == Err::<
                (ContentType, Seq<u8>),
                Error,
            >(Error::DecryptError)
            &&& payload.len() >= 16 && opened == Some(plain.push(inner_typ) + padding)
                ==> if plain.len() + 1 + padding.len() <= 16385 {
                outcome == Ok::<(ContentType, Seq<u8>), Error>((ContentType::of(inner_typ), plain))
            } else {
                outcome == Err::<(ContentType, Seq<u8>), Error>(Error::PeerSentOversizedRecord)
            }
            &&& payload.len() >= 16 && opened == Some(padding) ==> outcome == Err::<
                (ContentType, Seq<u8>),
                Error,
            >(
                if padding.len() <= 16385 {
                    Error::PeerMisbehaved(PeerMisbehaved::IllegalTlsInnerPlaintext)
                } else {
                    Error::PeerSentOversizedRecord
                },
            )
        }),
{
    lemma_nonce(nonce, iv, seq);
    lemma_tls13_aad(aad, typ, version, payload.len());
    law_padding_is_removed(plain, inner_typ, padding);
    law_padding_alone_is_refused(padding);
}

/// The decrypter for TLS 1.3 opens the whole payload, and takes the content type and the
/// padding off what is opened.
pub proof fn law_tls13_decrypter<P: RecordDecryptionProvider>(
    decrypter: Tls13RecordDecrypter<P>,
    typ: ContentType,
    version: EncodableVersion,
    seq: u64,
    payload: Seq<u8>,
    nonce: Seq<u8>,
    aad: Seq<u8>,
    plain: Seq<u8>,
    inner_typ: u8,
    padding: Seq<u8>,
)
    requires
        decrypter.iv().len() == 12,
        is_nonce(nonce, decrypter.iv(), seq),
        is_tls13_aad(aad, typ.code(), version.actual(), payload.len()),
        inner_typ != 0,
        forall|i: int| 0 <= i < padding.len() ==> #[trigger] padding[i] == 0,
    ensures
        ({
            let outcome = decrypter.outcome(typ, version, seq, payload);
            let opened = decrypter.opened(nonce, aad, payload);
            &&& payload.len() < decrypter.tag_size() || opened is None ==> outcome == Err::<
                (ContentType, Seq<u8>),
                Error,
            >(Error::DecryptError)
            &&& payload.len() >= decrypter.tag_size() && opened == Some(
                plain.push(inner_typ) + padding,
            ) ==> if plain.len() + 1 + padding.len() <= 16385 {
                outcome == Ok::<(ContentType, Seq<u8>), Error>((ContentType::of(inner_typ), plain))
            } else {
                outcome == Err::<(ContentType, Seq<u8>), Error>(Error::PeerSentOversizedRecord)
            }
        }),
{
    lemma_nonce(nonce, decrypter.iv(), seq);
    lemma_tls13_aad(aad, typ, version.actual(), payload.len());
    law_padding_is_removed(plain, inner_typ, padding);
}

/// What goes wrong with lengths is reported with both of them.
pub proof fn law_length_errors(actual: usize, required: usize, provided: usize)
    ensures
        nonce_len_error(actual as nat) == Error::ApiMisuse(
            ApiMisuse::NonceArraySizeMismatch { expected: 12, actual },
        ),
        too_small(required as int, provided as int) == Error::ApiMisuse(
            ApiMisuse::EncryptBufferTooSmall { required, provided },
        ),
{
}

/// What a cipher seals: AES-GCM plaintexts of nearly 64 GiB under nonces that count up,
/// ChaCha20-Poly1305 plaintexts of less than 256 GiB under any nonce. Of a plaintext in one
/// piece, ChaCha20-Poly1305 does not count what comes behind it.
pub proof fn law_what_ciphers_seal(
    cipher: AeadCipher,
    single: bool,
    used: NonceUse,
    nonce: Seq<u8>,
    aad_len: nat,
    len: nat,
    extra_len: nat,
)
    ensures
        cipher.accepts_record(single, used, nonce, aad_len, len, extra_len) <==> if cipher
            is ChaCha20Poly1305 {
            len + (if single {
                0
            } else {
                extra_len
            }) < 0x3f_ffff_ffc0
        } else {
            counts_up(used, nonce) && len + extra_len <= 0xf_ffff_ffe0 && aad_len
                <= 0x2000_0000_0000_0000
        },
        cipher is ChaCha20Poly1305 ==> cipher.nonces_after(used, nonce) == used,
        cipher !is ChaCha20Poly1305 ==> cipher.nonces_after(used, nonce) == after_nonce(
            used,
            nonce,
        ),
        cipher.key_size() == if cipher is Aes128Gcm {
            128nat / 8
        } else {
            256nat / 8
        },
        cipher.is_gcm() <==> cipher !is ChaCha20Poly1305,
{
}

/// The salt is the one that is given, or else as many zeros as a hash value is long.
pub proof fn law_salt(algorithm: HashAlgorithm, salt: &[u8], n: nat)
    ensures
        algorithm.output_size() == if algorithm is SHA256 {
            256nat / 8
        } else {
            384nat / 8
        },
        salt_or_zeroes(algorithm, Some(salt)) == salt@,
        salt_or_zeroes(algorithm, None).len() == algorithm.output_size(),
        forall|i: int|
            0 <= i < algorithm.output_size() ==> #[trigger] salt_or_zeroes(algorithm, None)[i] == 0,
        zeroes(n).len() == n,
        forall|i: int| 0 <= i < n ==> #[trigger] zeroes(n)[i] == 0,
{
}

/// The parts of the TLS 1.3 suites. Suites with AES-GCM protect 2^24 records at most, or 2^23
/// QUIC packets, and take 2^52 forged packets. With ChaCha20-Poly1305 there is no limit to
/// what is protected, and 2^36 forged packets are taken.
pub proof fn law_tls13_suite_parts(name: CipherSuite)
    requires
        name is TLS13_AES_128_GCM_SHA256 || name is TLS13_AES_256_GCM_SHA384
            || name is TLS13_CHACHA20_POLY1305_SHA256,
    ensures
        ({
            let suite = tls13_suite(name);
            let chacha = name is TLS13_CHACHA20_POLY1305_SHA256;
            &&& suite.common.suite == name
            &&& suite.common.hash_provider is SHA384 <==> name is TLS13_AES_256_GCM_SHA384
            &&& suite.hkdf_provider == AwsLcHkdf(suite.common.hash_provider)
            &&& suite.protocol_version is TLSv1_3
            &&& suite.aead_alg is Aes128GcmAead <==> name is TLS13_AES_128_GCM_SHA256
            &&& suite.aead_alg is Aes256GcmAead <==> name is TLS13_AES_256_GCM_SHA384
            &&& suite.common.confidentiality_limit == if chacha {
                u64::MAX
            } else {
                0x100_0000
            }
            &&& suite.quic matches Some(quic)
            &&& quic.packet_alg is Aes128Gcm <==> name is TLS13_AES_128_GCM_SHA256
            &&& quic.packet_alg is Aes256Gcm <==> name is TLS13_AES_256_GCM_SHA384
            &&& quic.header_alg is AES_128 <==> name is TLS13_AES_128_GCM_SHA256
            &&& quic.header_alg is AES_256 <==> name is TLS13_AES_256_GCM_SHA384
            &&& quic.confidentiality_limit == if chacha {
                u64::MAX
            } else {
                0x80_0000
            }
            &&& quic.integrity_limit == if chacha {
                0x10_0000_0000u64
            } else {
                0x10_0000_0000_0000
            }
        }),
{
    assert(1u64 << 24u64 == 0x100_0000) by (bit_vector);
    assert(1u64 << 23u64 == 0x80_0000) by (bit_vector);
    assert(1u64 << 36u64 == 0x10_0000_0000) by (bit_vector);
    assert(1u64 << 52u64 == 0x10_0000_0000_0000) by (bit_vector);
}

/// The parts of the TLS 1.2 suites. Suites with AES-GCM protect 2^24 records at most, and
/// with ChaCha20-Poly1305 there is no limit. The signature schemes are those of the
/// certificate, the stronger ones first.
pub proof fn law_tls12_suite_parts(suite: Tls12CipherSuite, name: CipherSuite)
    requires
        suite.is_suite(name),
    ensures
        ({
            let aes128 = name is TLS_ECDHE_ECDSA_WITH_AES_128_GCM_SHA256
                || name is TLS_ECDHE_RSA_WITH_AES_128_GCM_SHA256;
            let aes256 = name is TLS_ECDHE_ECDSA_WITH_AES_256_GCM_SHA384
                || name is TLS_ECDHE_RSA_WITH_AES_256_GCM_SHA384;
            let chacha = name is TLS_ECDHE_ECDSA_WITH_CHACHA20_POLY1305_SHA256
                || name is TLS_ECDHE_RSA_WITH_CHACHA20_POLY1305_SHA256;
            let ecdsa = name is TLS_ECDHE_ECDSA_WITH_AES_128_GCM_SHA256
                || name is TLS_ECDHE_ECDSA_WITH_AES_256_GCM_SHA384
                || name is TLS_ECDHE_ECDSA_WITH_CHACHA20_POLY1305_SHA256;
            &&& suite.common.suite == name
            &&& suite.common.hash_provider is SHA384 <==> aes256
            &&& suite.prf_provider == Tls12Prf(suite.common.hash_provider)
            &&& suite.protocol_version is TLSv1_2
            &&& suite.kx is ECDHE
            &&& aes128 || aes256 || chacha
            &&& suite.aead_alg.cipher() is Aes128Gcm <==> aes128
            &&& suite.aead_alg.cipher() is Aes256Gcm <==> aes256
            &&& suite.aead_alg is ChaCha20Poly1305 <==> chacha
            &&& suite.common.confidentiality_limit == if chacha {
                u64::MAX
            } else {
                0x100_0000
            }
            &&& if ecdsa {
                suite.sign@ == seq![
                    SignatureScheme::ED25519,
                    SignatureScheme::ECDSA_NISTP521_SHA512,
                    SignatureScheme::ECDSA_NISTP384_SHA384,
                    SignatureScheme::ECDSA_NISTP256_SHA256,
                ]
            } else {
                suite.sign@ == seq![
                    SignatureScheme::RSA_PSS_SHA512,
                    SignatureScheme::RSA_PSS_SHA384,
                    SignatureScheme::RSA_PSS_SHA256,
                    SignatureScheme::RSA_PKCS1_SHA512,
                    SignatureScheme::RSA_PKCS1_SHA384,
                    SignatureScheme::RSA_PKCS1_SHA256,
                ]
            }
        }),
{
    assert(1u64 << 24u64 == 0x100_0000) by (bit_vector);
}

/// Every algorithm stands for the cipher of its name. The IV of TLS 1.2 is a salt of four
/// bytes and eight more for AES-GCM, and twelve bytes for ChaCha20-Poly1305.
pub proof fn law_algorithms_and_ciphers(
    tls12: Tls12AeadAlgorithm,
    tls13: Tls13AeadAlgorithm,
    key: Seq<u8>,
    iv: Seq<u8>,
    extra: Seq<u8>,
)
    ensures
        tls12.cipher() is Aes128Gcm <==> tls12 == Tls12AeadAlgorithm::Gcm(GcmAlgorithm::AES128_GCM),
        tls12.cipher() is Aes256Gcm <==> tls12 == Tls12AeadAlgorithm::Gcm(GcmAlgorithm::AES256_GCM),
        tls12.cipher() is ChaCha20Poly1305 <==> tls12 is ChaCha20Poly1305,
        tls13.cipher() is Aes128Gcm <==> tls13 is Aes128GcmAead,
        tls13.cipher() is Aes256Gcm <==> tls13 is Aes256GcmAead,
        tls13.cipher() is ChaCha20Poly1305 <==> tls13 is Chacha20Poly1305Aead,
        tls12.fits(key, iv, extra) <==> {
            &&& key.len() == if tls12.cipher() is Aes128Gcm {
                16int
            } else {
                32
            }
            &&& tls12 is ChaCha20Poly1305 && iv.len() == 12 || tls12 !is ChaCha20Poly1305
                && iv.len() == 4 && extra.len() == 8
        },
{
}

/// What the encrypters of TLS 1.2 and 1.3 accept. AES-GCM takes a record if its nonce counts
/// up from those before it, and ChaCha20-Poly1305 takes any. Lengths are limited by the
/// ciphers alone. With TLS 1.3 the content type counts too, but for ChaCha20-Poly1305 not
/// behind a plaintext in one piece.
pub proof fn law_what_encrypters_accept(
    tls12: Tls12RecordEncrypter,
    tls13: Tls13SuiteEncrypter,
    single: bool,
    seq: u64,
    len: nat,
    nonce12: Seq<u8>,
    nonce13: Seq<u8>,
)
    requires
        tls12.iv().len() == 12,
        is_nonce(nonce12, tls12.iv(), seq),
        tls13.iv().len() == 12,
        is_nonce(nonce13, tls13.iv(), seq),
    ensures
        tls12.accepts(single, seq, len) <==> if tls12.cipher() is ChaCha20Poly1305 {
            len < 0x3f_ffff_ffc0
        } else {
            counts_up(tls12.nonces(single), nonce12) && len <= 0xf_ffff_ffe0
        },
        tls13.accepts(single, seq, len) <==> if tls13.cipher() is ChaCha20Poly1305 {
            len + (if single {
                0int
            } else {
                1
            }) < 0x3f_ffff_ffc0
        } else {
            counts_up(tls13.nonces(single), nonce13) && len + 1 <= 0xf_ffff_ffe0
        },
{
    lemma_nonce(nonce12, tls12.iv(), seq);
    lemma_nonce(nonce13, tls13.iv(), seq);
}

/// Nothing is opened with an IV that does not have the length of a nonce.
pub proof fn law_wrong_iv_is_refused<P: RecordDecryptionProvider, Q: RecordDecryptionProvider>(
    cipher: AeadCipher,
    key: Seq<u8>,
    iv: Seq<u8>,
    typ: ContentType,
    version: EncodableVersion,
    seq: u64,
    payload: Seq<u8>,
    tls12: Tls12ChaCha20Poly1305RecordDecrypter<P>,
    tls13: Tls13RecordDecrypter<Q>,
)
    requires
        payload.len() >= 16,
        iv.len() != 12,
        iv.len() <= usize::MAX,
    ensures
        cipher is ChaCha20Poly1305 ==> tls12_outcome(
            cipher,
            key,
            iv,
            typ,
            version.actual(),
            seq,
            payload,
        ) == Err::<Seq<u8>, Error>(
            Error::ApiMisuse(
                ApiMisuse::NonceArraySizeMismatch { expected: 12, actual: iv.len() as usize },
            ),
        ),
        tls13_outcome(cipher, key, iv, typ, version.actual(), seq, payload) == Err::<
            (ContentType, Seq<u8>),
            Error,
        >(
            Error::ApiMisuse(
                ApiMisuse::NonceArraySizeMismatch { expected: 12, actual: iv.len() as usize },
            ),
        ),
        tls12.iv().len() != 12 ==> tls12.outcome(typ, version, seq, payload) == Err::<
            Seq<u8>,
            Error,
        >(nonce_len_error(tls12.iv().len())),
        tls13.iv().len() != 12 && payload.len() >= tls13.tag_size() ==> tls13.outcome(
            typ,
            version,
            seq,
            payload,
        ) == Err::<(ContentType, Seq<u8>), Error>(nonce_len_error(tls13.iv().len())),
{
}

/// A list of suites has the suites of the given names, one for each and in order.
pub proof fn law_suites_have_their_names(
    suites: Seq<Tls12CipherSuite>,
    names: Seq<CipherSuite>,
    i: int,
)
    requires
        are_tls12_suites(suites, names),
        0 <= i < names.len(),
    ensures
        suites.len() == names.len(),
        suites[i].is_suite(names[i]),
        suites[i].common.suite == names[i],
{
    assert(suites[i].is_suite(names[i]));
}

} // verus!
