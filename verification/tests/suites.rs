use dtls_records::crypto::aead::AeadCipher;
use dtls_records::crypto::cipher::{AeadKey, Iv, NONCE_LEN};
use dtls_records::crypto::fips::FipsStatus;
use dtls_records::crypto::hash::HashAlgorithm;
use dtls_records::crypto::suites::{CipherSuite, ConnectionTrafficSecrets, SignatureScheme};
use dtls_records::crypto::suites12::{
    all_tls12_cipher_suites, default_tls12_cipher_suites, Tls12CipherSuite,
};
use dtls_records::crypto::suites13::{
    all_tls13_cipher_suites, default_tls13_cipher_suites, Tls13CipherSuite,
};
use dtls_records::enums::{ContentType, ProtocolVersion};
use dtls_records::error::{ApiMisuse, Error, PeerMisbehaved};
use dtls_records::msgs::message::OutboundPlain;
use dtls_records::msgs::record::{EncodableVersion, InboundOpaque, Record};

const GCM_EXPLICIT_NONCE_LEN: usize = 8;
const TEST_IV: [u8; NONCE_LEN] = [0x55; NONCE_LEN];
const TEST_EXPLICIT: [u8; GCM_EXPLICIT_NONCE_LEN] = [0x66; GCM_EXPLICIT_NONCE_LEN];
const TEST_SEQ: u64 = 7;

fn test_key(len: usize) -> AeadKey {
    match len {
        16 => AeadKey::from([0x22; 16]),
        _ => AeadKey::from([0x22; 32]),
    }
}

fn tls12_seal(suite: &Tls12CipherSuite, payload: OutboundPlain<'_>, fill: u8) -> Vec<u8> {
    let shape = suite.aead_alg.key_block_shape();
    let mut encrypter = suite.aead_alg.record_encrypter(
        test_key(shape.enc_key_len),
        &TEST_IV[..shape.fixed_iv_len],
        &TEST_EXPLICIT[..shape.explicit_nonce_len],
    );
    let record = Record::new(
        ContentType::ApplicationData,
        EncodableVersion::Legacy(ProtocolVersion::TLSv1_2),
        payload,
    );
    let mut out = vec![fill; encrypter.encrypted_payload_len(record.payload.len())];
    encrypter
        .encrypt(record, TEST_SEQ, &mut out)
        .unwrap()
        .payload
        .to_vec()
}

/// Test that contiguous plaintext and fragmented plaintext are handled identically.
#[test]
fn tls12_out_of_place_sealing_matches_in_place() {
    let plain = b"the quick brown fox jumps over the lazy dog";
    let chunks = [&plain[..3], &plain[3..27], &plain[27..]];

    for suite in &all_tls12_cipher_suites() {
        // Different `fill` values prove both paths write every output byte.
        let contiguous = tls12_seal(suite, OutboundPlain::Single(plain), 0x00);
        let fragmented = tls12_seal(suite, OutboundPlain::new(&chunks), 0xff);
        assert_eq!(contiguous, fragmented, "{:?}", suite.common.suite);
    }
}

/// Sealed records must open through the corresponding decrypter.
#[test]
fn tls12_sealed_records_open() {
    for suite in &all_tls12_cipher_suites() {
        for plain in [&b""[..], b"hello"] {
            let mut sealed = tls12_seal(suite, OutboundPlain::Single(plain), 0x00);
            let record = Record::new(
                ContentType::ApplicationData,
                EncodableVersion::Legacy(ProtocolVersion::TLSv1_2),
                InboundOpaque(&mut [], &mut sealed),
            );
            let shape = suite.aead_alg.key_block_shape();
            let mut decrypter = suite
                .aead_alg
                .record_decrypter(test_key(shape.enc_key_len), &TEST_IV[..shape.fixed_iv_len]);
            let opened = decrypter.decrypt(record, TEST_SEQ).unwrap();
            assert_eq!(opened.payload, plain, "{:?}", suite.common.suite);
        }
    }
}

fn tls13_seal(suite: &Tls13CipherSuite, payload: OutboundPlain<'_>, fill: u8) -> Vec<u8> {
    let mut encrypter = suite.aead_alg.record_encrypter(
        test_key(suite.aead_alg.key_len()),
        Iv::new(&TEST_IV).unwrap(),
    );
    let record = Record::new(
        ContentType::ApplicationData,
        EncodableVersion::Legacy(ProtocolVersion::TLSv1_3),
        payload,
    );
    let mut out = vec![fill; encrypter.encrypted_payload_len(record.payload.len())];
    encrypter
        .encrypt(record, TEST_SEQ, &mut out)
        .unwrap()
        .payload
        .to_vec()
}

/// Test that contiguous plaintext and fragmented plaintext are handled identically.
#[test]
fn tls13_out_of_place_sealing_matches_in_place() {
    let plain = b"the quick brown fox jumps over the lazy dog";
    let chunks = [&plain[..3], &plain[3..27], &plain[27..]];

    for suite in &all_tls13_cipher_suites() {
        // Different `fill` values prove both paths write every output byte.
        let contiguous = tls13_seal(suite, OutboundPlain::Single(plain), 0x00);
        let fragmented = tls13_seal(suite, OutboundPlain::new(&chunks), 0xff);
        assert_eq!(contiguous, fragmented, "{:?}", suite.common.suite);
    }
}

/// Sealed records must open through the corresponding decrypter.
#[test]
fn tls13_sealed_records_open() {
    for suite in &all_tls13_cipher_suites() {
        for plain in [&b""[..], b"hello"] {
            let mut sealed = tls13_seal(suite, OutboundPlain::Single(plain), 0x00);
            let record = Record::new(
                ContentType::ApplicationData,
                EncodableVersion::Legacy(ProtocolVersion::TLSv1_2),
                InboundOpaque(&mut [], &mut sealed),
            );
            let mut decrypter = suite.aead_alg.record_decrypter(
                test_key(suite.aead_alg.key_len()),
                Iv::new(&TEST_IV).unwrap(),
            );
            let opened = decrypter.decrypt(record, TEST_SEQ).unwrap();
            assert_eq!(opened.typ, ContentType::ApplicationData);
            assert_eq!(opened.payload, plain, "{:?}", suite.common.suite);
        }
    }
}

#[test]
fn sealing_hides_the_plaintext() {
    let plain = b"the quick brown fox jumps over the lazy dog";
    for suite in &all_tls12_cipher_suites() {
        let sealed = tls12_seal(suite, OutboundPlain::Single(plain), 0);
        assert!(!sealed.windows(4).any(|window| window == &plain[..4]));
    }
    for suite in &all_tls13_cipher_suites() {
        let sealed = tls13_seal(suite, OutboundPlain::Single(plain), 0);
        assert!(!sealed.windows(4).any(|window| window == &plain[..4]));
    }
}

#[test]
fn explicit_nonce_is_in_front_of_gcm_records() {
    let suite = &all_tls12_cipher_suites()[0];
    let sealed = tls12_seal(suite, OutboundPlain::Single(b"hello"), 0);
    // the sequence number is combined with the last byte
    assert_eq!(sealed[..8], [0x66, 0x66, 0x66, 0x66, 0x66, 0x66, 0x66, 0x66 ^ 7]);
    assert_eq!(sealed.len(), 8 + 5 + 16);
}

#[test]
fn small_buffers_are_refused() {
    for suite in &all_tls12_cipher_suites() {
        let shape = suite.aead_alg.key_block_shape();
        let chunks = [&b"he"[..], b"llo"];
        for payload in [OutboundPlain::Single(b"hello"), OutboundPlain::new(&chunks)] {
            let mut encrypter = suite.aead_alg.record_encrypter(
                test_key(shape.enc_key_len),
                &TEST_IV[..shape.fixed_iv_len],
                &TEST_EXPLICIT[..shape.explicit_nonce_len],
            );
            let required = encrypter.encrypted_payload_len(5);
            let mut out = vec![0x33; required - 1];
            let record = Record::new(
                ContentType::ApplicationData,
                EncodableVersion::Legacy(ProtocolVersion::TLSv1_2),
                payload,
            );
            assert_eq!(
                encrypter.encrypt(record, TEST_SEQ, &mut out).unwrap_err(),
                Error::ApiMisuse(ApiMisuse::EncryptBufferTooSmall {
                    required,
                    provided: required - 1
                })
            );
            assert!(out.iter().all(|byte| *byte == 0x33));
        }
    }
}

#[test]
fn larger_buffers_are_left_alone_behind_the_record() {
    for suite in &all_tls13_cipher_suites() {
        let mut encrypter = suite.aead_alg.record_encrypter(
            test_key(suite.aead_alg.key_len()),
            Iv::new(&TEST_IV).unwrap(),
        );
        let mut out = vec![0x33; 5 + 1 + 16 + 10];
        let record = Record::new(
            ContentType::Handshake,
            EncodableVersion::Legacy(ProtocolVersion::TLSv1_3),
            OutboundPlain::Single(b"hello"),
        );
        let sealed = encrypter.encrypt(record, TEST_SEQ, &mut out).unwrap();
        assert_eq!(sealed.typ, ContentType::ApplicationData);
        assert_eq!(sealed.payload.len(), 5 + 1 + 16);
        assert_eq!(out[22..], [0x33; 10]);
    }
}

#[test]
fn inner_content_type_is_found() {
    let suite = &all_tls13_cipher_suites()[2];
    let mut encrypter = suite
        .aead_alg
        .record_encrypter(test_key(32), Iv::new(&TEST_IV).unwrap());
    let record = Record::new(
        ContentType::Alert,
        EncodableVersion::Legacy(ProtocolVersion::TLSv1_3),
        OutboundPlain::Single(b"\x01\x00"),
    );
    let mut out = vec![0; encrypter.encrypted_payload_len(2)];
    encrypter.encrypt(record, TEST_SEQ, &mut out).unwrap();
    let mut decrypter = suite
        .aead_alg
        .record_decrypter(test_key(32), Iv::new(&TEST_IV).unwrap());
    let opened = decrypter
        .decrypt(
            Record::new(
                ContentType::ApplicationData,
                EncodableVersion::Legacy(ProtocolVersion::TLSv1_2),
                InboundOpaque(&mut [], &mut out),
            ),
            TEST_SEQ,
        )
        .unwrap();
    assert_eq!(opened.typ, ContentType::Alert);
    assert_eq!(opened.version, EncodableVersion::Legacy(ProtocolVersion::TLSv1_3));
    assert_eq!(opened.payload, b"\x01\x00");
}

#[test]
fn padding_without_content_is_refused() {
    let suite = &all_tls13_cipher_suites()[2];
    let mut encrypter = suite
        .aead_alg
        .record_encrypter(test_key(32), Iv::new(&TEST_IV).unwrap());
    let record = Record::new(
        ContentType::Unknown(0),
        EncodableVersion::Legacy(ProtocolVersion::TLSv1_3),
        OutboundPlain::Single(&[0; 3]),
    );
    let mut out = vec![0; encrypter.encrypted_payload_len(3)];
    encrypter.encrypt(record, TEST_SEQ, &mut out).unwrap();
    let mut decrypter = suite
        .aead_alg
        .record_decrypter(test_key(32), Iv::new(&TEST_IV).unwrap());
    assert_eq!(
        decrypter
            .decrypt(
                Record::new(
                    ContentType::ApplicationData,
                    EncodableVersion::Legacy(ProtocolVersion::TLSv1_2),
                    InboundOpaque(&mut [], &mut out),
                ),
                TEST_SEQ,
            )
            .unwrap_err(),
        Error::PeerMisbehaved(PeerMisbehaved::IllegalTlsInnerPlaintext)
    );
}

#[test]
fn forged_and_short_records_do_not_open() {
    for suite in &all_tls12_cipher_suites() {
        let shape = suite.aead_alg.key_block_shape();
        let sealed = tls12_seal(suite, OutboundPlain::Single(b"hello"), 0);
        let mut forged = sealed.clone();
        *forged.last_mut().unwrap() ^= 1;
        for (mut payload, seq) in [
            (forged, TEST_SEQ),
            (sealed.clone(), TEST_SEQ + 1),
            (sealed[..15].to_vec(), TEST_SEQ),
            (Vec::new(), TEST_SEQ),
        ] {
            let mut decrypter = suite
                .aead_alg
                .record_decrypter(test_key(shape.enc_key_len), &TEST_IV[..shape.fixed_iv_len]);
            let record = Record::new(
                ContentType::ApplicationData,
                EncodableVersion::Legacy(ProtocolVersion::TLSv1_2),
                InboundOpaque(&mut [], &mut payload),
            );
            assert_eq!(decrypter.decrypt(record, seq).unwrap_err(), Error::DecryptError);
        }
    }
    for suite in &all_tls13_cipher_suites() {
        let mut forged = tls13_seal(suite, OutboundPlain::Single(b"hello"), 0);
        forged[0] ^= 1;
        for mut payload in [forged, vec![0; 15]] {
            let mut decrypter = suite.aead_alg.record_decrypter(
                test_key(suite.aead_alg.key_len()),
                Iv::new(&TEST_IV).unwrap(),
            );
            let record = Record::new(
                ContentType::ApplicationData,
                EncodableVersion::Legacy(ProtocolVersion::TLSv1_2),
                InboundOpaque(&mut [], &mut payload),
            );
            assert_eq!(decrypter.decrypt(record, TEST_SEQ).unwrap_err(), Error::DecryptError);
        }
    }
}

#[test]
fn oversized_records_are_refused() {
    for suite in &all_tls12_cipher_suites() {
        let shape = suite.aead_alg.key_block_shape();
        let mut sealed = tls12_seal(suite, OutboundPlain::Single(&[1; 16385]), 0);
        let mut decrypter = suite
            .aead_alg
            .record_decrypter(test_key(shape.enc_key_len), &TEST_IV[..shape.fixed_iv_len]);
        let record = Record::new(
            ContentType::ApplicationData,
            EncodableVersion::Legacy(ProtocolVersion::TLSv1_2),
            InboundOpaque(&mut [], &mut sealed),
        );
        assert_eq!(
            decrypter.decrypt(record, TEST_SEQ).unwrap_err(),
            Error::PeerSentOversizedRecord
        );
    }
    for suite in &all_tls13_cipher_suites() {
        let mut sealed = tls13_seal(suite, OutboundPlain::Single(&[1; 16385]), 0);
        let mut decrypter = suite.aead_alg.record_decrypter(
            test_key(suite.aead_alg.key_len()),
            Iv::new(&TEST_IV).unwrap(),
        );
        let record = Record::new(
            ContentType::ApplicationData,
            EncodableVersion::Legacy(ProtocolVersion::TLSv1_2),
            InboundOpaque(&mut [], &mut sealed),
        );
        assert_eq!(
            decrypter.decrypt(record, TEST_SEQ).unwrap_err(),
            Error::PeerSentOversizedRecord
        );
    }
}

#[test]
fn unusable_ivs_are_refused() {
    assert_eq!(
        Iv::new(&[0; 17]).unwrap_err(),
        Error::ApiMisuse(ApiMisuse::IvLengthExceedsMaximum {
            actual: 17,
            maximum: 16
        })
    );
    let suite = &all_tls13_cipher_suites()[0];
    let mut encrypter = suite
        .aead_alg
        .record_encrypter(test_key(16), Iv::new(&[0; 16]).unwrap());
    let record = Record::new(
        ContentType::ApplicationData,
        EncodableVersion::Legacy(ProtocolVersion::TLSv1_3),
        OutboundPlain::Single(b"hello"),
    );
    let mut out = vec![0; 5 + 17];
    assert_eq!(
        encrypter.encrypt(record, TEST_SEQ, &mut out).unwrap_err(),
        Error::ApiMisuse(ApiMisuse::NonceArraySizeMismatch {
            expected: 12,
            actual: 16
        })
    );
}

#[test]
fn suites_are_listed_and_described() {
    let names: Vec<CipherSuite> = all_tls12_cipher_suites()
        .iter()
        .map(|suite| suite.common.suite)
        .collect();
    assert_eq!(
        names,
        [
            CipherSuite::TLS_ECDHE_ECDSA_WITH_AES_128_GCM_SHA256,
            CipherSuite::TLS_ECDHE_ECDSA_WITH_AES_256_GCM_SHA384,
            CipherSuite::TLS_ECDHE_ECDSA_WITH_CHACHA20_POLY1305_SHA256,
            CipherSuite::TLS_ECDHE_RSA_WITH_AES_128_GCM_SHA256,
            CipherSuite::TLS_ECDHE_RSA_WITH_AES_256_GCM_SHA384,
            CipherSuite::TLS_ECDHE_RSA_WITH_CHACHA20_POLY1305_SHA256,
        ]
    );
    assert_eq!(default_tls12_cipher_suites(false).len(), 6);
    assert_eq!(default_tls12_cipher_suites(true).len(), 4);
    assert_eq!(default_tls13_cipher_suites(false).len(), 3);
    assert_eq!(default_tls13_cipher_suites(true).len(), 2);

    let suite = &all_tls12_cipher_suites()[4];
    assert_eq!(suite.common.hash_provider, HashAlgorithm::SHA384);
    assert_eq!(suite.common.confidentiality_limit, 1 << 24);
    assert_eq!(suite.sign[0], SignatureScheme::RSA_PSS_SHA512);
    let shape = suite.aead_alg.key_block_shape();
    assert_eq!(
        (shape.enc_key_len, shape.fixed_iv_len, shape.explicit_nonce_len),
        (32, 4, 8)
    );

    let suite = &all_tls13_cipher_suites()[2];
    assert_eq!(suite.common.confidentiality_limit, u64::MAX);
    let quic = suite.quic.unwrap();
    assert_eq!(quic.packet_alg, AeadCipher::ChaCha20Poly1305);
    assert_eq!(quic.integrity_limit, 1 << 36);
}

#[test]
fn chacha_is_not_approved() {
    let provider = FipsStatus::Certified { certificate: "some" };
    for suite in &all_tls12_cipher_suites() {
        let approved = suite.aead_alg.key_block_shape().explicit_nonce_len == 8;
        assert_eq!(suite.aead_alg.fips(provider) == provider, approved);
        assert_eq!(suite.prf_provider.fips(provider), provider);
    }
    let suites = all_tls13_cipher_suites();
    assert_eq!(suites[0].aead_alg.fips(provider), provider);
    assert_eq!(suites[2].aead_alg.fips(provider), FipsStatus::Unvalidated);
    assert_eq!(suites[2].hkdf_provider.fips(FipsStatus::Pending), FipsStatus::Pending);
}

#[test]
fn keys_are_extracted() {
    let suite = &all_tls12_cipher_suites()[0];
    match suite.aead_alg.extract_keys(test_key(16), &[1; 4], &[2; 8]) {
        Ok(ConnectionTrafficSecrets::Aes128Gcm { key, .. }) => assert_eq!(key.as_ref(), [0x22; 16]),
        _ => panic!("wrong secrets"),
    }
    let suite = &all_tls13_cipher_suites()[2];
    match suite.aead_alg.extract_keys(test_key(32), Iv::new(&TEST_IV).unwrap()) {
        Ok(ConnectionTrafficSecrets::Chacha20Poly1305 { key, .. }) => {
            assert_eq!(key.as_ref(), [0x22; 32])
        }
        _ => panic!("wrong secrets"),
    }
}

#[test]
fn records_are_sealed_in_order() {
    let chunks = [&b"hel"[..], b"lo"];
    for suite in &all_tls13_cipher_suites() {
        let is_gcm = suite.aead_alg.aead() != AeadCipher::ChaCha20Poly1305;
        let mut encrypter = suite.aead_alg.record_encrypter(
            test_key(suite.aead_alg.key_len()),
            Iv::new(&TEST_IV).unwrap(),
        );
        let mut seal = |seq: u64, single: bool| {
            let payload = match single {
                true => OutboundPlain::Single(b"hello"),
                false => OutboundPlain::new(&chunks),
            };
            let record = Record::new(
                ContentType::ApplicationData,
                EncodableVersion::Legacy(ProtocolVersion::TLSv1_3),
                payload,
            );
            let mut out = [0; 22];
            encrypter
                .encrypt(record, seq, &mut out)
                .map(|sealed| sealed.payload.to_vec())
        };
        for seq in [0, 1, 2, 5, 6, 1 << 40] {
            let contiguous = seal(seq, true);
            assert!(contiguous.is_ok(), "{seq}");
            assert_eq!(contiguous, seal(seq, false), "{seq}");
        }
        // a nonce that was used already
        for single in [true, false] {
            for seq in [1 << 40, 6, 0] {
                let again = seal(seq, single);
                if is_gcm {
                    assert_eq!(again, Err(Error::EncryptError));
                } else {
                    assert!(again.is_ok());
                }
            }
        }
        assert!(seal((1 << 40) + 1, true).is_ok());
        assert_eq!(seal(u64::MAX, true).is_ok(), !is_gcm);
    }
}

#[test]
fn first_record_may_have_any_number() {
    for suite in &all_tls12_cipher_suites() {
        let shape = suite.aead_alg.key_block_shape();
        let is_gcm = shape.explicit_nonce_len > 0;
        for first in [0, 1, 7, u64::MAX] {
            let mut encrypter = suite.aead_alg.record_encrypter(
                test_key(shape.enc_key_len),
                &TEST_IV[..shape.fixed_iv_len],
                &TEST_EXPLICIT[..shape.explicit_nonce_len],
            );
            let mut seal = |seq: u64| {
                let record = Record::new(
                    ContentType::ApplicationData,
                    EncodableVersion::Legacy(ProtocolVersion::TLSv1_2),
                    OutboundPlain::Single(b"hello"),
                );
                let mut out = [0; 29];
                encrypter.encrypt(record, seq, &mut out).is_ok()
            };
            assert!(seal(first));
            assert_eq!(seal(first), !is_gcm);
            if first == 1 {
                // numbers are compared by their distance from the first one
                assert!(seal(2));
                assert_eq!(seal(3), !is_gcm);
                assert!(seal(4));
            }
        }
    }
}
