use dtls_records::crypto::hash::HashAlgorithm;
use dtls_records::enums::ProtocolVersion;
use dtls_records::hash_hs::HandshakeHashBuffer;

const SHA256: HashAlgorithm = HashAlgorithm::SHA256;

#[test]
fn hashes_correctly() {
    let mut hhb = HandshakeHashBuffer::new();
    hhb.add(b"hello");
    assert_eq!(hhb.buffer.len(), 5);
    let mut hh = hhb.start_hash(SHA256, ProtocolVersion::TLSv1_2);
    assert!(hh.client_auth.is_none());
    hh.add_raw(b"world");
    let h = hh.current_hash();
    let h = h.as_ref();
    assert_eq!(h[0], 0x93);
    assert_eq!(h[1], 0x6a);
    assert_eq!(h[2], 0x18);
    assert_eq!(h[3], 0x5c);
}

#[test]
fn buffers_correctly() {
    let mut hhb = HandshakeHashBuffer::new();
    hhb.set_client_auth_enabled();
    hhb.add(b"hello");
    assert_eq!(hhb.buffer.len(), 5);

    let mut hh = hhb.start_hash(SHA256, ProtocolVersion::TLSv1_2);
    assert_eq!(hh.client_auth.as_ref().map(|buf| buf.len()), Some(5));

    hh.add_raw(b"world");
    assert_eq!(hh.client_auth.as_ref().map(|buf| buf.len()), Some(10));

    let h = hh.current_hash();
    let h = h.as_ref();
    assert_eq!(h[0], 0x93);
    assert_eq!(h[1], 0x6a);
    assert_eq!(h[2], 0x18);
    assert_eq!(h[3], 0x5c);
    let buf = hh.take_handshake_buf();
    assert_eq!(Some(b"helloworld".to_vec()), buf);
}

#[test]
fn abandon() {
    let mut hhb = HandshakeHashBuffer::new();
    hhb.set_client_auth_enabled();
    hhb.add(b"hello");
    assert_eq!(hhb.buffer.len(), 5);

    let mut hh = hhb.start_hash(SHA256, ProtocolVersion::TLSv1_2);
    assert_eq!(hh.client_auth.as_ref().map(|buf| buf.len()), Some(5));

    hh.abandon_client_auth();
    assert_eq!(hh.client_auth, None);
    hh.add_raw(b"world");
    assert_eq!(hh.client_auth, None);

    let h = hh.current_hash();
    let h = h.as_ref();
    assert_eq!(h[0], 0x93);
    assert_eq!(h[1], 0x6a);
    assert_eq!(h[2], 0x18);
    assert_eq!(h[3], 0x5c);
}

#[test]
fn clones_correctly() {
    let mut hhb = HandshakeHashBuffer::new();
    hhb.set_client_auth_enabled();
    hhb.add(b"hello");
    assert_eq!(hhb.buffer.len(), 5);

    // Cloning the HHB should result in the same buffer and client auth state.
    let mut hhb_prime = hhb.clone();
    assert_eq!(hhb_prime.buffer, hhb.buffer);
    assert!(hhb_prime.client_auth_enabled);

    // Updating the HHB clone shouldn't affect the original.
    hhb_prime.add(b"world");
    assert_eq!(hhb_prime.buffer.len(), 10);
    assert_ne!(hhb.buffer, hhb_prime.buffer);

    let hh = hhb.start_hash(SHA256, ProtocolVersion::TLSv1_2);
    let hh_hash = hh.current_hash();
    let hh_hash = hh_hash.as_ref();

    // Cloning the HH should result in the same current hash.
    let mut hh_prime = hh.clone();
    let hh_prime_hash = hh_prime.current_hash();
    let hh_prime_hash = hh_prime_hash.as_ref();
    assert_eq!(hh_hash, hh_prime_hash);

    // Updating the HH clone shouldn't affect the original.
    hh_prime.add_raw(b"goodbye");
    assert_eq!(hh.current_hash().as_ref(), hh_hash);
    assert_ne!(hh_prime.current_hash().as_ref(), hh_hash);
}

#[test]
fn dtls_versions() {
    let first_message = [1u8; 20];
    let second_message = [2u8; 20];

    let mut hhb = HandshakeHashBuffer::new();
    hhb.add(&first_message);

    let mut hh_tls_12 = hhb.clone().start_hash(SHA256, ProtocolVersion::TLSv1_2);
    let mut hh_tls_13 = hhb.clone().start_hash(SHA256, ProtocolVersion::TLSv1_3);
    let mut hh_dtls_12 = hhb.clone().start_hash(SHA256, ProtocolVersion::DTLSv1_2);
    let mut hh_dtls_13 = hhb.clone().start_hash(SHA256, ProtocolVersion::DTLSv1_3);

    for (hh, version) in [
        (&mut hh_tls_12, ProtocolVersion::TLSv1_2),
        (&mut hh_tls_13, ProtocolVersion::TLSv1_3),
        (&mut hh_dtls_12, ProtocolVersion::DTLSv1_2),
        (&mut hh_dtls_13, ProtocolVersion::DTLSv1_3),
    ] {
        hh.add(version, &second_message);
    }

    // Transcript hashes for TLS 1.2, TLS 1.3, DTLS 1.2 should all be the same
    assert_eq!(
        hh_tls_12.current_hash().as_ref(),
        hh_tls_13.current_hash().as_ref()
    );
    assert_eq!(
        hh_tls_12.current_hash().as_ref(),
        hh_dtls_12.current_hash().as_ref()
    );
    // Transcript hash for DTLS 1.3 should differ
    assert_ne!(
        hh_tls_12.current_hash().as_ref(),
        hh_dtls_13.current_hash().as_ref()
    );

    // Hashing as DTLS 1.3 should be equivalent to hashing bytes [0..4]+[12..] as any other
    // version
    let mut hhb = HandshakeHashBuffer::new();
    hhb.add(&first_message[..4]);
    hhb.add(&first_message[12..]);
    let mut hh = hhb.clone().start_hash(SHA256, ProtocolVersion::TLSv1_2);
    hh.add_raw(&second_message[..4]);
    hh.add_raw(&second_message[12..]);
    assert_eq!(
        hh_dtls_13.current_hash().as_ref(),
        hh.current_hash().as_ref()
    );
}

/// SHA-256 of "helloworld".
const HELLOWORLD: [u8; 32] = [
    0x93, 0x6a, 0x18, 0x5c, 0xaa, 0xa2, 0x66, 0xbb, 0x9c, 0xbe, 0x98, 0x1e, 0x9e, 0x05, 0xcb, 0x78,
    0xcd, 0x73, 0x2b, 0x0b, 0x32, 0x80, 0xeb, 0x94, 0x44, 0x12, 0xbb, 0x6f, 0x8f, 0x8f, 0x07, 0xaf,
];

#[test]
fn given_bytes_are_hashed_without_being_added() {
    let mut hhb = HandshakeHashBuffer::new();
    hhb.add(b"hello");
    assert_eq!(hhb.hash_given(SHA256, b"world").as_ref(), HELLOWORLD);
    assert_eq!(hhb.buffer, b"hello");

    let hh = hhb.start_hash(SHA256, ProtocolVersion::TLSv1_2);
    assert_eq!(hh.algorithm(), SHA256);
    assert_eq!(hh.hash_given(b"world").as_ref(), HELLOWORLD);
    assert_ne!(hh.current_hash().as_ref(), HELLOWORLD);
}

#[test]
fn retry_replaces_the_transcript_by_its_hash() {
    let mut hhb = HandshakeHashBuffer::new();
    hhb.add(b"helloworld");
    let mut hh = hhb.start_hash(SHA256, ProtocolVersion::TLSv1_3);
    let buffer = hh.clone().into_hrr_buffer();
    let mut expected = vec![0xfe, 0, 0, 32];
    expected.extend_from_slice(&HELLOWORLD);
    assert_eq!(buffer.buffer, expected);

    hh.rollup_for_hrr();
    let mut rolled_up = HandshakeHashBuffer::new();
    rolled_up.add(&expected);
    assert_eq!(
        hh.current_hash().as_ref(),
        rolled_up
            .start_hash(SHA256, ProtocolVersion::TLSv1_3)
            .current_hash()
            .as_ref()
    );
}

#[test]
fn sha384_gives_longer_hashes() {
    let hhb = HandshakeHashBuffer::new();
    let hh = hhb.start_hash(HashAlgorithm::SHA384, ProtocolVersion::TLSv1_2);
    let h = hh.current_hash();
    assert_eq!(h.as_ref().len(), 48);
    assert_eq!(&h.as_ref()[..4], [0x38, 0xb0, 0x60, 0xa7]);
}
