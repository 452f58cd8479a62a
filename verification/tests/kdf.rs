use dtls_records::crypto::hash::HashAlgorithm;
use dtls_records::crypto::hkdf::{AwsLcHkdf, OkmBlock, OutputLengthError};
use dtls_records::crypto::prf::{Secret, SharedSecret, Tls12Prf};
use dtls_records::error::Error;

#[test]
fn prf_of_master_secret() {
    let mut secret = Tls12Prf(HashAlgorithm::SHA256).new_secret(&[0x11; 48]);
    let mut output = [0; 16];
    secret.prf(&mut output, b"master secret", b"seed");
    assert_eq!(
        output,
        [
            0x7b, 0x02, 0x35, 0x38, 0x29, 0xb2, 0x79, 0xcd, 0x1b, 0x29, 0xa5, 0x02, 0xda, 0xce,
            0xb2, 0xa6
        ]
    );

    secret.secret.zeroize();
    match secret.secret {
        Secret::Master(bytes) => assert_eq!(bytes, [0; 48]),
        Secret::KeyExchange(_) => panic!("wrong kind of secret"),
    }
}

#[test]
fn prf_of_key_exchange() {
    let mut output = [0; 48];
    let shared = SharedSecret::new(b"shared secret").unwrap();
    Tls12Prf(HashAlgorithm::SHA384)
        .for_key_exchange(&mut output, Ok(shared), b"extended master secret", b"hash")
        .unwrap();
    assert_eq!(
        output,
        [
            0x2c, 0x3a, 0xe6, 0x12, 0x13, 0xb1, 0x8e, 0xce, 0xf5, 0xb9, 0x0b, 0x19, 0x1a, 0xc9,
            0xe1, 0x81, 0x1b, 0x3f, 0xe7, 0xd3, 0xe7, 0xb9, 0x4c, 0x8a, 0xba, 0x98, 0x7f, 0x65,
            0x34, 0x4e, 0x44, 0x89, 0x59, 0x70, 0xa1, 0xe4, 0xc2, 0x7a, 0xf6, 0x49, 0x38, 0x40,
            0xf4, 0xd8, 0x17, 0xfc, 0xa3, 0x07
        ]
    );
}

#[test]
fn failed_key_exchange_is_passed_on() {
    let mut output = [9; 48];
    let result = Tls12Prf(HashAlgorithm::SHA256).for_key_exchange(
        &mut output,
        Err(Error::DecryptError),
        b"label",
        b"seed",
    );
    assert_eq!(result, Err(Error::DecryptError));
    assert_eq!(output, [9; 48]);
    assert!(SharedSecret::new(b"").is_none());
}

#[test]
fn hkdf_test_vector() {
    // RFC 5869, A.1
    let salt: Vec<u8> = (0..13).collect();
    let info: Vec<u8> = (0xf0..0xfa).collect();
    let expander = AwsLcHkdf(HashAlgorithm::SHA256).extract_from_secret(Some(&salt), &[0x0b; 22]);
    let mut okm = [0; 42];
    // how the info is divided does not matter
    expander
        .expand_slice(&[&info[..3], &info[3..]], &mut okm)
        .unwrap();
    assert_eq!(
        okm,
        [
            0x3c, 0xb2, 0x5f, 0x25, 0xfa, 0xac, 0xd5, 0x7a, 0x90, 0x43, 0x4f, 0x64, 0xd0, 0x36,
            0x2f, 0x2a, 0x2d, 0x2d, 0x0a, 0x90, 0xcf, 0x1a, 0x5a, 0x4c, 0x5d, 0xb0, 0x2d, 0x56,
            0xec, 0xc4, 0xc5, 0xbf, 0x34, 0x00, 0x72, 0x08, 0xd5, 0xb8, 0x87, 0x18, 0x58, 0x65
        ]
    );
    assert_eq!(expander.hash_len(), 32);
}

#[test]
fn missing_salt_and_secret_are_zeros() {
    let hkdf = AwsLcHkdf(HashAlgorithm::SHA256);
    let block = hkdf.extract_from_zero_ikm(None).expand_block(&[b"info"]);
    assert_eq!(block.as_ref().len(), 32);
    assert_eq!(
        block.as_ref()[..8],
        [0x10, 0x60, 0xe4, 0xe7, 0x20, 0x54, 0x65, 0x3b]
    );
    let block = hkdf
        .extract_from_zero_ikm(Some(b"salt"))
        .expand_block(&[b"info"]);
    assert_eq!(
        block.as_ref()[..8],
        [0x6f, 0xe9, 0x31, 0xb1, 0xf3, 0x7b, 0x88, 0xc0]
    );
    let block = AwsLcHkdf(HashAlgorithm::SHA384)
        .extract_from_secret(None, b"secret")
        .expand_block(&[b"info"]);
    assert_eq!(block.as_ref().len(), 48);
    assert_eq!(
        block.as_ref()[..8],
        [0x6d, 0xe7, 0x41, 0x99, 0xb8, 0x6b, 0x27, 0xb1]
    );
}

#[test]
fn okm_is_used_as_key() {
    let hkdf = AwsLcHkdf(HashAlgorithm::SHA256);
    let okm = OkmBlock::new(&[7; 32]);
    let block = hkdf.expander_for_okm(&okm).expand_block(&[b"info"]);
    assert_eq!(
        block.as_ref()[..8],
        [0x24, 0xf2, 0x0f, 0xe2, 0x14, 0x8d, 0xfb, 0x70]
    );
    let tag = hkdf.hmac_sign(&okm, b"message");
    assert_eq!(tag.as_ref().len(), 32);
    assert_eq!(
        tag.as_ref()[..8],
        [0xbc, 0xa4, 0x0e, 0x08, 0x4c, 0xc9, 0x29, 0xa2]
    );
}

#[test]
fn expansion_is_limited() {
    let expander = AwsLcHkdf(HashAlgorithm::SHA256).extract_from_secret(None, b"secret");
    let mut output = vec![1; 255 * 32];
    assert_eq!(expander.expand_slice(&[b"info"], &mut output), Ok(()));
    let mut output = vec![1; 255 * 32 + 1];
    assert_eq!(
        expander.expand_slice(&[b"info"], &mut output),
        Err(OutputLengthError)
    );
    assert!(output.iter().all(|byte| *byte == 1));
}
