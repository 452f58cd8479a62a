use dtls_records::enums::{ContentType, HandshakeType, ProtocolVersion};
use dtls_records::epoch::EpochAndSequence;
use dtls_records::error::Error;
use dtls_records::msgs::codec::{Reader, U24};
use dtls_records::msgs::dtls::{
    DtlsHandshakeFragment, DTLS_HANDSHAKE_HEADER_SIZE, DTLS_HEADER_SIZE,
};
use dtls_records::msgs::fragmenter::{Chunker, MessageFragmenter};
use dtls_records::msgs::message::{EncodedMessage, OutboundPlain, Payload, HEADER_SIZE};

fn msg_eq(
    m: &EncodedMessage<OutboundPlain<'_>>,
    total_len: usize,
    typ: &ContentType,
    version: &ProtocolVersion,
    bytes: &[u8],
) {
    assert_eq!(&m.typ, typ);
    assert_eq!(&m.version, version);
    assert_eq!(m.payload.to_vec(), bytes);

    let buf = m.to_unencrypted_opaque().encode();

    assert_eq!(total_len, buf.len());
}

#[test]
fn smoke() {
    let typ = ContentType::Handshake;
    let version = ProtocolVersion::TLSv1_2;
    let data: Vec<u8> = (1..70u8).collect();
    let m = EncodedMessage {
        typ,
        version,
        epoch_and_sequence: None,
        payload: Payload::new(data),
    };

    let mut frag = MessageFragmenter::default();
    frag.set_max_fragment_size(Some(32)).unwrap();
    let q = frag.fragment_message(&m);
    assert_eq!(q.len(), 3);
    msg_eq(
        &q[0],
        32,
        &typ,
        &version,
        &[
            1, 2, 3, 4, 5, 6, 7, 8, 9, 10, 11, 12, 13, 14, 15, 16, 17, 18, 19, 20, 21, 22, 23, 24,
            25, 26, 27,
        ],
    );
    msg_eq(
        &q[1],
        32,
        &typ,
        &version,
        &[
            28, 29, 30, 31, 32, 33, 34, 35, 36, 37, 38, 39, 40, 41, 42, 43, 44, 45, 46, 47, 48, 49,
            50, 51, 52, 53, 54,
        ],
    );
    msg_eq(
        &q[2],
        20,
        &typ,
        &version,
        &[55, 56, 57, 58, 59, 60, 61, 62, 63, 64, 65, 66, 67, 68, 69],
    );
}

#[test]
fn non_fragment() {
    let m = EncodedMessage {
        typ: ContentType::Handshake,
        version: ProtocolVersion::TLSv1_2,
        epoch_and_sequence: None,
        payload: Payload::new(b"\x01\x02\x03\x04\x05\x06\x07\x08".to_vec()),
    };

    let mut frag = MessageFragmenter::default();
    frag.set_max_fragment_size(Some(32)).unwrap();
    let q = frag.fragment_message(&m);
    assert_eq!(q.len(), 1);
    msg_eq(
        &q[0],
        HEADER_SIZE + 8,
        &ContentType::Handshake,
        &ProtocolVersion::TLSv1_2,
        b"\x01\x02\x03\x04\x05\x06\x07\x08",
    );
}

#[test]
fn fragment_multiple_slices() {
    let typ = ContentType::Handshake;
    let version = ProtocolVersion::TLSv1_2;
    let payload_owner: Vec<&[u8]> = vec![&[b'a'; 8], &[b'b'; 12], &[b'c'; 32], &[b'd'; 20]];
    let borrowed_payload = OutboundPlain::new(&payload_owner);
    let mut frag = MessageFragmenter::default();
    frag.set_max_fragment_size(Some(37)) // 32 + packet overhead
        .unwrap();

    let fragments = frag.fragment_payload(typ, version, None, borrowed_payload);
    assert_eq!(fragments.len(), 3);
    msg_eq(
        &fragments[0],
        37,
        &typ,
        &version,
        b"aaaaaaaabbbbbbbbbbbbcccccccccccc",
    );
    msg_eq(
        &fragments[1],
        37,
        &typ,
        &version,
        b"ccccccccccccccccccccdddddddddddd",
    );
    msg_eq(&fragments[2], 13, &typ, &version, b"dddddddd");
}

#[test]
fn dtls() {
    let encoded_handshake = &[b'a'; 104];
    let mut frag = MessageFragmenter::default();
    frag.set_max_fragment_size(Some(32 + DTLS_HEADER_SIZE + DTLS_HANDSHAKE_HEADER_SIZE))
        .unwrap();

    let fragments = frag.fragment_dtls_handshake_message(
        EpochAndSequence::new(1, 101),
        HandshakeType::ClientHello,
        11,
        encoded_handshake,
    );
    assert_eq!(fragments.len(), 4);

    for (
        index,
        (
            EncodedMessage {
                typ,
                version,
                epoch_and_sequence,
                payload:
                    DtlsHandshakeFragment {
                        msg_type,
                        length,
                        message_seq,
                        fragment_offset,
                        fragment_length,
                        fragment,
                    },
            },
            (expected_fragment_offset, expected_fragment_length),
        ),
    ) in fragments
        .into_iter()
        .zip([(0, 32), (32, 32), (64, 32), (96, 4)])
        .enumerate()
    {
        assert_eq!(typ, ContentType::Handshake, "fragment {index}");
        assert_eq!(version, ProtocolVersion::DTLSv1_2, "fragment {index}");
        assert_eq!(
            epoch_and_sequence,
            Some(EpochAndSequence::new(1, 101 + index as u64)),
            "fragment {index}"
        );
        assert_eq!(msg_type, HandshakeType::ClientHello, "fragment {index}");
        assert_eq!(length, U24(100), "fragment {index}");
        assert_eq!(message_seq, 11, "fragment {index}");
        assert_eq!(
            fragment_offset,
            U24(expected_fragment_offset),
            "fragment {index}"
        );
        assert_eq!(
            fragment_length,
            U24(expected_fragment_length),
            "fragment {index}"
        );
        assert_eq!(
            fragment.bytes(),
            vec![b'a'; expected_fragment_length as usize].as_slice(),
            "fragment {index}"
        );
    }
}

/// A handshake message of type `Finished`, with the header that it has in TLS.
fn finished(body: &[u8]) -> (HandshakeType, Vec<u8>) {
    let mut encoded = vec![20, 0, (body.len() >> 8) as u8, body.len() as u8];
    encoded.extend_from_slice(body);
    (HandshakeType::Finished, encoded)
}

fn check_handshake_fragment(
    idx: usize,
    got: &DtlsHandshakeFragment<'_>,
    expected: &DtlsHandshakeFragment<'_>,
) {
    // Payload::Owned and Payload::Borrowed are not equal even if the contained bytes are
    // identical so we provide this helper
    assert_eq!(got.msg_type, expected.msg_type, "idx {idx}");
    assert_eq!(got.length, expected.length, "idx {idx}");
    assert_eq!(got.message_seq, expected.message_seq, "idx {idx}");
    assert_eq!(got.fragment_offset, expected.fragment_offset, "idx {idx}");
    assert_eq!(got.fragment_length, expected.fragment_length, "idx {idx}");
    assert_eq!(got.fragment.bytes(), expected.fragment.bytes(), "idx {idx}");
}

#[test]
fn dtls_flight_handshake_fragments_flush_with_record() {
    // Message lengths are chosen so that the first two each occupy an entire record and the
    // last partially. Where r indicates 13 bytes of record header, h indicates 12 bytes of
    // handshake header and H[x] indicates x bytes of handshake payload, we will get records:
    //
    // rhH[32]
    // rhH[32]
    // rhH[16] <-- last record is smaller than fragment size
    let messages = [vec![6u8; 32], vec![7; 32], vec![8; 16]];
    let message_flight: Vec<_> = messages.iter().map(|m| finished(m)).collect();

    let mut fragmenter = MessageFragmenter::default();
    fragmenter
        .set_max_fragment_size(Some(32 + DTLS_HEADER_SIZE + DTLS_HANDSHAKE_HEADER_SIZE))
        .unwrap();

    let records = fragmenter.fragment_dtls_handshake_message_flight(
        EpochAndSequence::new(11, 255),
        17,
        &message_flight,
    );
    assert_eq!(records.len(), 3);

    for (idx, (record, message)) in records.iter().zip(messages).enumerate() {
        assert_eq!(record.typ, ContentType::Handshake);
        assert_eq!(record.version, ProtocolVersion::DTLSv1_2);
        assert_eq!(
            record.epoch_and_sequence,
            Some(EpochAndSequence::new(11, 255 + idx as u64)),
        );
        assert_eq!(
            record.payload.bytes().len(),
            message.len() + DTLS_HANDSHAKE_HEADER_SIZE
        );
        // read_bytes ensures that there are no trailing bytes in the payload, i.e. that each
        // record contains exactly one handshake fragment.
        let handshake_fragment =
            DtlsHandshakeFragment::read_bytes(record.payload.bytes()).unwrap();
        check_handshake_fragment(
            idx,
            &handshake_fragment,
            &DtlsHandshakeFragment {
                msg_type: HandshakeType::Finished,
                length: U24(message.len().try_into().unwrap()),
                message_seq: 17 + idx as u16,
                fragment_offset: U24(0),
                fragment_length: U24(message.len().try_into().unwrap()),
                fragment: Payload::Borrowed(message.as_slice()),
            },
        );
    }
}

#[test]
fn dtls_flight_handshake_fragments_span_record() {
    // Message lengths are chosen so that the first occupies the entire first record and part of
    // the second, and the second occupies part of the second record and part of the third.
    // Using notation from dtls_flight_handshake_fragments_flush_with_record, we will get
    // records:
    //
    // rhH[32]      <-- first 32 bytes of first message
    // rhH[4]hH[16] <-- last 4 bytes of first message plus first 16 bytes of second message
    // rhH[16]      <-- last 16 bytes of second message; last record is smaller than fragment
    //                  size
    let messages = [vec![6u8; 36], vec![7; 32]];
    let message_flight: Vec<_> = messages.iter().map(|m| finished(m)).collect();

    let mut fragmenter = MessageFragmenter::default();
    fragmenter
        .set_max_fragment_size(Some(32 + DTLS_HEADER_SIZE + DTLS_HANDSHAKE_HEADER_SIZE))
        .unwrap();

    let records = fragmenter.fragment_dtls_handshake_message_flight(
        EpochAndSequence::new(11, 255),
        17,
        &message_flight,
    );
    assert_eq!(records.len(), 3);

    let mut handshake_fragments = Vec::new();

    for (idx, record) in records.iter().enumerate() {
        assert_eq!(record.typ, ContentType::Handshake);
        assert_eq!(record.version, ProtocolVersion::DTLSv1_2);
        assert_eq!(
            record.epoch_and_sequence,
            Some(EpochAndSequence::new(11, 255 + idx as u64)),
        );
        if idx < 2 {
            assert_eq!(
                record.payload.bytes().len(),
                32 + DTLS_HANDSHAKE_HEADER_SIZE
            );
        } else {
            assert_eq!(
                record.payload.bytes().len(),
                16 + DTLS_HANDSHAKE_HEADER_SIZE
            );
        }

        let mut reader = Reader::new(record.payload.bytes());
        while reader.any_left() {
            handshake_fragments.push(DtlsHandshakeFragment::read(&mut reader).unwrap());
        }
    }

    let expected_fragments = [
        DtlsHandshakeFragment {
            msg_type: HandshakeType::Finished,
            length: U24(36),
            message_seq: 17,
            fragment_offset: U24(0),
            fragment_length: U24(32),
            fragment: Payload::new(vec![6; 32]),
        },
        DtlsHandshakeFragment {
            msg_type: HandshakeType::Finished,
            length: U24(36),
            message_seq: 17,
            fragment_offset: U24(32),
            fragment_length: U24(4),
            fragment: Payload::new(vec![6; 4]),
        },
        DtlsHandshakeFragment {
            msg_type: HandshakeType::Finished,
            length: U24(32),
            message_seq: 18,
            fragment_offset: U24(0),
            fragment_length: U24(16),
            fragment: Payload::new(vec![7; 16]),
        },
        DtlsHandshakeFragment {
            msg_type: HandshakeType::Finished,
            length: U24(32),
            message_seq: 18,
            fragment_offset: U24(16),
            fragment_length: U24(16),
            fragment: Payload::new(vec![7; 16]),
        },
    ];
    assert_eq!(handshake_fragments.len(), expected_fragments.len());

    for (idx, (handshake_fragment, expected_fragment)) in handshake_fragments
        .iter()
        .zip(expected_fragments)
        .enumerate()
    {
        check_handshake_fragment(idx, handshake_fragment, &expected_fragment);
    }
}

#[test]
fn dtls_flight_partially_filled_record() {
    // Message lengths are chosen so that the first occupies most of the first record, but
    // leaves less than DTLS_HANDSHAKE_HEADER_SIZE bytes remaining, such that the second message
    // gets pushed out to the second record.
    // Using notation from dtls_flight_handshake_fragments_flush_with_record, we will get
    // records:
    //
    // rhH[28]      <-- all 28 bytes of first message
    // rhH[4]hH[16] <-- 4 bytes of second message plus 16 bytes of third message
    let messages = [vec![6u8; 28], vec![7; 4], vec![8; 16]];
    let record_lens = [
        28 + DTLS_HANDSHAKE_HEADER_SIZE,
        4 + DTLS_HANDSHAKE_HEADER_SIZE + 16 + DTLS_HANDSHAKE_HEADER_SIZE,
    ];
    let message_flight: Vec<_> = messages.iter().map(|m| finished(m)).collect();

    let mut fragmenter = MessageFragmenter::default();
    fragmenter
        .set_max_fragment_size(Some(32 + DTLS_HEADER_SIZE + DTLS_HANDSHAKE_HEADER_SIZE))
        .unwrap();

    let records = fragmenter.fragment_dtls_handshake_message_flight(
        EpochAndSequence::new(11, 255),
        17,
        &message_flight,
    );
    assert_eq!(records.len(), 2);

    let mut handshake_fragments = Vec::new();

    for (idx, (record, expected_record_len)) in records.iter().zip(record_lens).enumerate() {
        assert_eq!(record.typ, ContentType::Handshake);
        assert_eq!(record.version, ProtocolVersion::DTLSv1_2);
        assert_eq!(
            record.epoch_and_sequence,
            Some(EpochAndSequence::new(11, 255 + idx as u64)),
        );
        assert_eq!(record.payload.bytes().len(), expected_record_len);

        let mut reader = Reader::new(record.payload.bytes());
        while reader.any_left() {
            handshake_fragments.push(DtlsHandshakeFragment::read(&mut reader).unwrap());
        }
    }

    let expected_fragments = [
        DtlsHandshakeFragment {
            msg_type: HandshakeType::Finished,
            length: U24(28),
            message_seq: 17,
            fragment_offset: U24(0),
            fragment_length: U24(28),
            fragment: Payload::new(vec![6; 28]),
        },
        DtlsHandshakeFragment {
            msg_type: HandshakeType::Finished,
            length: U24(4),
            message_seq: 18,
            fragment_offset: U24(0),
            fragment_length: U24(4),
            fragment: Payload::new(vec![7; 4]),
        },
        DtlsHandshakeFragment {
            msg_type: HandshakeType::Finished,
            length: U24(16),
            message_seq: 19,
            fragment_offset: U24(0),
            fragment_length: U24(16),
            fragment: Payload::new(vec![8; 16]),
        },
    ];
    assert_eq!(handshake_fragments.len(), expected_fragments.len());

    for (idx, (handshake_fragment, expected_fragment)) in handshake_fragments
        .iter()
        .zip(expected_fragments)
        .enumerate()
    {
        check_handshake_fragment(idx, handshake_fragment, &expected_fragment);
    }
}

#[test]
fn maximum_sizes_are_checked() {
    let mut frag = MessageFragmenter::default();
    assert_eq!(frag.set_max_fragment_size(Some(31)), Err(Error::BadMaxFragmentSize));
    assert_eq!(frag.set_max_fragment_size(Some(32)), Ok(()));
    assert_eq!(frag.set_max_fragment_size(Some(16389)), Ok(()));
    assert_eq!(frag.set_max_fragment_size(Some(16390)), Err(Error::BadMaxFragmentSize));
    assert_eq!(frag.set_max_fragment_size(None), Ok(()));
}

#[test]
fn highest_allowable_size_is_set() {
    let message = |len: usize| EncodedMessage {
        typ: ContentType::ApplicationData,
        version: ProtocolVersion::TLSv1_2,
        epoch_and_sequence: None,
        payload: Payload::new(vec![0; len]),
    };
    let mut frag = MessageFragmenter::default();
    assert_eq!(frag.fragment_message(&message(16379)).len(), 1);
    assert_eq!(frag.fragment_message(&message(16384)).len(), 2);

    frag.set_max_fragment_size(None).unwrap();
    assert_eq!(frag.fragment_message(&message(16384)).len(), 1);
    assert_eq!(frag.fragment_message(&message(16385)).len(), 2);
    frag.set_max_fragment_size(Some(16389)).unwrap();
    assert_eq!(frag.fragment_message(&message(16384)).len(), 1);
    assert_eq!(frag.fragment_message(&message(16385)).len(), 2);
}

#[test]
fn flight_records_are_filled_in_order() {
    let mut frag = MessageFragmenter::default();
    frag.set_max_fragment_size(Some(48)).unwrap();
    let capacity = 48 - DTLS_HEADER_SIZE;
    let bodies = [vec![1; 40], vec![2; 7], vec![3; 25]];
    let messages: Vec<_> = bodies.iter().map(|body| finished(body)).collect();
    let records =
        frag.fragment_dtls_handshake_message_flight(EpochAndSequence::new(0, 0), 3, &messages);

    let mut message = 0;
    let mut offset = 0;
    for (idx, record) in records.iter().enumerate() {
        let bytes = record.payload.bytes();
        assert!(bytes.len() <= capacity);
        if idx + 1 < records.len() {
            assert!(capacity - bytes.len() <= DTLS_HANDSHAKE_HEADER_SIZE);
        }
        let mut rest = bytes;
        while !rest.is_empty() {
            if offset == bodies[message].len() {
                message += 1;
                offset = 0;
            }
            assert_eq!(rest[5] as usize, 3 + message);
            assert_eq!(rest[8] as usize, offset);
            let len = rest[11] as usize;
            assert!(len > 0);
            assert_eq!(rest[12..12 + len], bodies[message][offset..offset + len]);
            offset += len;
            rest = &rest[12 + len..];
        }
    }
    assert_eq!((message, offset), (2, 25));
}

#[test]
fn chunks_are_counted_and_put_together() {
    let data: Vec<u8> = (0..100u8).collect();
    let mut chunker = Chunker::new(OutboundPlain::Single(&data), 32);
    assert_eq!(chunker.len(), 4);
    let mut joined = Vec::new();
    let mut lens = Vec::new();
    while let Some(chunk) = chunker.next() {
        lens.push(chunk.len());
        joined.extend(chunk.to_vec());
    }
    assert_eq!(lens, [32, 32, 32, 4]);
    assert_eq!(joined, data);
    assert_eq!(chunker.len(), 0);
}

#[test]
fn empty_handshake_message_has_no_fragments() {
    let frag = MessageFragmenter::default();
    let fragments = frag.fragment_dtls_handshake_message(
        EpochAndSequence::new(0, 9),
        HandshakeType::ServerHelloDone,
        3,
        &[14, 0, 0, 0],
    );
    assert!(fragments.is_empty());
}

#[test]
fn last_sequence_number_can_be_used() {
    let last = EpochAndSequence::new(1, u64::MAX);
    let frag = MessageFragmenter::default();
    let fragments = frag.fragment_dtls_handshake_message(
        last,
        HandshakeType::Finished,
        0,
        &[20, 0, 0, 1, 7],
    );
    assert_eq!(fragments.len(), 1);
    assert_eq!(fragments[0].epoch_and_sequence, Some(last));

    let messages = frag.fragment_payload(
        ContentType::ApplicationData,
        ProtocolVersion::TLSv1_2,
        Some(last),
        OutboundPlain::Single(b"hello"),
    );
    assert_eq!(messages.len(), 1);
    assert_eq!(messages[0].epoch_and_sequence, Some(last));
}

#[test]
fn empty_last_message_leaves_record_unfinished() {
    let frag = MessageFragmenter::default();
    let flight = |messages: &[(HandshakeType, Vec<u8>)]| {
        frag.fragment_dtls_handshake_message_flight(EpochAndSequence::new(0, 0), 0, messages)
            .len()
    };
    assert_eq!(flight(&[finished(&[]), finished(&[1, 2])]), 1);
    assert_eq!(flight(&[finished(&[1, 2]), finished(&[])]), 0);
}
