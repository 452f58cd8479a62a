use dtls_records::enums::{ContentType, HandshakeType, ProtocolVersion};
use dtls_records::epoch::Epoch;
use dtls_records::error::{Error, InvalidMessage, RecordError};
use dtls_records::msgs::codec::{Reader, U24};
use dtls_records::msgs::dtls::{
    is_unified_header, read_dtls_record_header, AckPayload, AckRecordSequenceNumber,
    DtlsHandshakeFragment, EncodingContext, FullRecordSequenceNumber,
    ProtectedRecordSequenceNumber, RecordSequenceNumberEncrypter, TruncatedRecordSequenceNumber,
    UnifiedHeader,
};
use dtls_records::msgs::message::Payload;

fn long(high: u8, low: u8) -> TruncatedRecordSequenceNumber {
    TruncatedRecordSequenceNumber {
        truncated: [high, low],
        long_encoding: true,
    }
}

#[test]
fn closest_number_is_reconstructed() {
    for (truncated, highest, expected) in [
        (long(0, 1), 0, 1),
        (long(0, 0), 0xffff, 0x1_0000),
        (long(0xff, 0xff), 0x1_0000, 0xffff),
        (long(0x12, 0x34), 0xab_1233, 0xab_1234),
        (long(0x12, 0x34), 0xab_f000, 0xac_1234),
        (long(0xf2, 0x34), 0xab_1000, 0xaa_f234),
        (long(0xf2, 0x34), 5, 0xf234),
    ] {
        assert_eq!(
            truncated.reconstruct(FullRecordSequenceNumber(highest)),
            FullRecordSequenceNumber(expected)
        );
    }
    let short = TruncatedRecordSequenceNumber {
        truncated: [0xf0, 0],
        long_encoding: false,
    };
    assert_eq!(short.reconstruct(FullRecordSequenceNumber(0x1205)).0, 0x11f0);
    assert_eq!(short.reconstruct(FullRecordSequenceNumber(0x12ee)).0, 0x12f0);
}

#[test]
fn truncation_is_reversed() {
    for number in [0u64, 1, 255, 256, 65535, 65536, 0xffff_ffff_fffe] {
        let full = FullRecordSequenceNumber(number);
        let before = FullRecordSequenceNumber(number.saturating_sub(1));
        assert_eq!(full.truncate().reconstruct(before), full);
    }
    let mut number = FullRecordSequenceNumber(41);
    number.increment();
    assert_eq!(u64::from(number), 42);
    assert_eq!(FullRecordSequenceNumber::from(42), number);
    let mut encoded = [9; 6];
    FullRecordSequenceNumber(0x0102_0304_0506).encode(&mut encoded);
    assert_eq!(encoded, [1, 2, 3, 4, 5, 6]);
}

/// Combines the number with the first bytes of the ciphertext.
struct Mask;

impl RecordSequenceNumberEncrypter for Mask {
    fn transform(&self, number: &mut [u8; 2], ciphertext: &[u8]) -> Result<(), Error> {
        number[0] ^= ciphertext[0];
        number[1] ^= ciphertext[1];
        Ok(())
    }
}

#[test]
fn protection_is_reversed() {
    let encrypter: Box<dyn RecordSequenceNumberEncrypter> = Box::new(Mask);
    let number = long(0x12, 0x34);
    let protected: ProtectedRecordSequenceNumber = number.protect(&encrypter, b"ciphertext");
    assert_eq!(protected.protected, [0x12 ^ b'c', 0x34 ^ b'i']);
    let deprotected = protected.deprotect(&encrypter, b"ciphertext");
    assert_eq!(deprotected.truncated, number.truncated);
    assert!(deprotected.long_encoding);
    let mut encoded = [0; 2];
    protected.encode(&mut encoded);
    assert_eq!(encoded, protected.protected);
}

#[test]
fn short_numbers_stay_padded() {
    let encrypter: Box<dyn RecordSequenceNumberEncrypter> = Box::new(Mask);
    let number = TruncatedRecordSequenceNumber {
        truncated: [0x12, 0],
        long_encoding: false,
    };
    let protected = number.protect(&encrypter, b"ciphertext");
    assert_eq!(protected.protected, [0x12 ^ b'c', 0]);
    assert!(!protected.long_encoding);
    let deprotected = protected.deprotect(&encrypter, b"ciphertext");
    assert_eq!(deprotected.truncated, [0x12, 0]);
    assert!(!deprotected.long_encoding);
    assert_eq!(deprotected.reconstruct(FullRecordSequenceNumber(0x0511)).0, 0x0512);
}

#[test]
fn acknowledgements_are_read_back() {
    let payload = AckPayload {
        record_numbers: vec![
            AckRecordSequenceNumber {
                epoch: Epoch::new(1),
                seq: FullRecordSequenceNumber(2),
            },
            AckRecordSequenceNumber {
                epoch: Epoch::new(3),
                seq: FullRecordSequenceNumber(0x0102_0304_0506_0708),
            },
        ],
    };
    let mut encoded = Vec::new();
    payload.encode(&mut encoded);
    assert_eq!(
        encoded,
        [
            0, 32, 0, 0, 0, 0, 0, 0, 0, 1, 0, 0, 0, 0, 0, 0, 0, 2, 0, 0, 0, 0, 0, 0, 0, 3, 1, 2, 3,
            4, 5, 6, 7, 8
        ]
    );
    let mut reader = Reader::new(&encoded);
    let read = AckPayload::read(&mut reader).unwrap();
    assert_eq!(read.record_numbers.len(), 2);
    assert_eq!(read.record_numbers[1].epoch.number(), 3);
    assert_eq!(read.record_numbers[1].seq.0, 0x0102_0304_0506_0708);
    assert!(!reader.any_left());
    assert!(AckPayload::read(&mut Reader::new(&encoded[..20])).is_err());
}

#[test]
fn handshake_fragments_are_read_back() {
    let fragment = DtlsHandshakeFragment {
        msg_type: HandshakeType::ServerHello,
        length: U24(0x01_0203),
        message_seq: 0x0405,
        fragment_offset: U24(0x06_0708),
        fragment_length: U24(3),
        fragment: Payload::Borrowed(b"abc"),
    };
    let encoded = fragment.get_encoding();
    assert_eq!(
        encoded,
        [2, 1, 2, 3, 4, 5, 6, 7, 8, 0, 0, 3, b'a', b'b', b'c']
    );
    let read = DtlsHandshakeFragment::read_bytes(&encoded).unwrap();
    assert_eq!(read.msg_type, HandshakeType::ServerHello);
    assert_eq!(read.fragment_offset, U24(0x06_0708));
    assert_eq!(read.fragment.bytes(), b"abc");

    let mut trailing = encoded.clone();
    trailing.push(0);
    assert!(matches!(
        DtlsHandshakeFragment::read_bytes(&trailing),
        Err(InvalidMessage::TrailingData(_))
    ));
    assert!(DtlsHandshakeFragment::read_bytes(&encoded[..11]).is_err());
    assert!(DtlsHandshakeFragment::read_bytes(&encoded[..14]).is_err());
}

#[test]
fn unified_headers_are_read_back() {
    let header = UnifiedHeader::new(
        0x0102,
        EncodingContext {
            epoch: Epoch::new(7),
            record_seq: FullRecordSequenceNumber(0xab_cdef),
        },
    );
    let mut bytes = [9; 6];
    header.encode(&mut bytes);
    assert_eq!(bytes, [0b0010_1111, 0xcd, 0xef, 1, 2, 9]);
    assert!(is_unified_header(bytes[0]));
    assert!(!is_unified_header(22));

    let mut reader = Reader::new(&bytes);
    let read = UnifiedHeader::<ProtectedRecordSequenceNumber>::read(&mut reader, Epoch::new(6))
        .unwrap();
    assert_eq!(read.epoch.number(), 7);
    assert_eq!(read.sequence().protected, [0xcd, 0xef]);
    assert_eq!(read.length, Some(0x0102));
    assert_eq!(reader.left(), 1);

    // short number, no length
    let mut reader = Reader::new(&[0b0010_0001, 0x44]);
    let read = UnifiedHeader::<ProtectedRecordSequenceNumber>::read(&mut reader, Epoch::new(4))
        .unwrap();
    assert!(!read.sequence().long_encoding);
    assert_eq!(read.sequence().protected, [0x44, 0]);
    assert_eq!(read.length, None);

    let mut reader = Reader::new(&[22, 0x44, 0x44, 1, 2]);
    assert_eq!(
        UnifiedHeader::<ProtectedRecordSequenceNumber>::read(&mut reader, Epoch::new(4))
            .unwrap_err(),
        InvalidMessage::InvalidDtls13UnifiedHeader
    );
}

#[test]
fn nearest_epoch_is_inferred() {
    for (current, bits, expected) in [
        (0, 0, 0),
        (0, 3, 3),
        (2, 2, 2),
        (3, 0, 4),
        (3, 2, 2),
        (3, 3, 3),
        (4, 3, 3),
        (4, 1, 5),
        // equally near
        (5, 3, 7),
        (6, 0, 4),
        (7, 0, 8),
        (u64::MAX, 0, u64::MAX - 3),
        (u64::MAX, 3, u64::MAX),
    ] {
        let bytes = [0x2c | bits, 0, 1, 0, 5];
        let read = UnifiedHeader::<ProtectedRecordSequenceNumber>::read(
            &mut Reader::new(&bytes),
            Epoch::new(current),
        )
        .unwrap();
        assert_eq!(read.epoch.number(), expected, "{current} {bits}");
        assert_eq!(read.epoch.number() % 4, bits as u64);
        assert_eq!(read.length, Some(5));
    }
}

#[test]
fn record_headers_are_checked() {
    let header = [22, 0xfe, 0xfd, 0, 1, 0, 0, 0, 0, 0, 2, 0, 3];
    let read = read_dtls_record_header(&mut Reader::new(&header)).unwrap();
    assert_eq!(read.typ, ContentType::Handshake);
    assert_eq!(read.version, ProtocolVersion::DTLSv1_2);
    assert_eq!(read.len, 3);

    let error = |at: usize, byte: u8| {
        let mut changed = header;
        changed[at] = byte;
        read_dtls_record_header(&mut Reader::new(&changed)).unwrap_err()
    };
    assert_eq!(error(0, 99), RecordError::InvalidContentType);
    assert_eq!(error(1, 7), RecordError::UnknownProtocolVersion);
    assert_eq!(error(11, 0xff), RecordError::MessageTooLarge);
    assert_eq!(error(12, 0), RecordError::InvalidEmptyPayload);
    assert_eq!(
        read_dtls_record_header(&mut Reader::new(&header[..2])).unwrap_err(),
        RecordError::TooShortForHeader
    );
    assert_eq!(
        read_dtls_record_header(&mut Reader::new(&header[..12])).unwrap_err(),
        RecordError::TooShortForHeader
    );
}
