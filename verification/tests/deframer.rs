use std::collections::VecDeque;

use dtls_records::enums::{ContentType, HandshakeType, ProtocolVersion};
use dtls_records::epoch::{Epoch, EpochAndSequence};
use dtls_records::error::{Error, InvalidMessage};
use dtls_records::msgs::codec::U24;
use dtls_records::msgs::deframer::{Deframed, DtlsDeframer, DtlsDeframerCore};
use dtls_records::msgs::dtls::{
    DtlsHandshakeFragment, FullRecordSequenceNumber, RecordSequenceNumber,
    DTLS_HANDSHAKE_HEADER_EXTRA, DTLS_HANDSHAKE_HEADER_SIZE, DTLS_HEADER_SIZE,
};
use dtls_records::msgs::fragmenter::MessageFragmenter;
use dtls_records::msgs::message::{
    EncodedMessage, OutboundPlain, Payload, HANDSHAKE_HEADER_SIZE,
};
use dtls_records::msgs::reassembly::FragmentSpan;

/// A ClientHello with the header that it has in TLS.
fn test_handshake_message() -> EncodedMessage<Payload<'static>> {
    let mut body = vec![0xfe, 0xfd];
    body.extend_from_slice(&[1; 32]);
    body.push(32);
    body.extend_from_slice(&[2; 32]);
    // TLS_ECDHE_ECDSA_WITH_AES_128_GCM_SHA256
    body.extend_from_slice(&[0, 2, 0xc0, 0x2b]);
    // no compression
    body.extend_from_slice(&[1, 0]);
    // extension server_name: "hello"
    body.extend_from_slice(&[0, 14, 0, 0, 0, 10, 0, 8, 0, 0, 5]);
    body.extend_from_slice(b"hello");

    let mut payload = vec![1, 0, 0, body.len() as u8];
    payload.extend(body);
    EncodedMessage {
        typ: ContentType::Handshake,
        version: ProtocolVersion::DTLSv1_2,
        epoch_and_sequence: Some(EpochAndSequence::new(0, 0)),
        payload: Payload::new(payload),
    }
}

fn wire_bytes(record: &EncodedMessage<DtlsHandshakeFragment<'_>>) -> Vec<u8> {
    EncodedMessage {
        typ: record.typ,
        version: record.version,
        epoch_and_sequence: record.epoch_and_sequence,
        payload: OutboundPlain::Single(record.payload.get_encoding().as_slice()),
    }
    .to_unencrypted_opaque()
    .encode()
}

fn check_reassembled_message(
    idx: usize,
    original_message: &EncodedMessage<Payload<'_>>,
    reassembled_message: &EncodedMessage<&[u8]>,
) {
    assert_eq!(reassembled_message.typ, original_message.typ, "idx: {idx}");
    assert_eq!(
        reassembled_message.version, original_message.version,
        "idx: {idx}"
    );
    assert_eq!(reassembled_message.epoch_and_sequence, None, "idx: {idx}");
    assert_eq!(
        reassembled_message.payload.len(),
        original_message.payload.bytes().len() + DTLS_HANDSHAKE_HEADER_EXTRA,
        "idx: {idx}",
    );
    // The record we encoded had a TLS handshake header on it, but the one we get back has a *DTLS*
    // handshake header. Check that the payloads are equal.
    assert_eq!(
        &original_message.payload.bytes()[HANDSHAKE_HEADER_SIZE..],
        &reassembled_message.payload[DTLS_HANDSHAKE_HEADER_SIZE..],
        "idx: {idx}",
    );

    // The header tells the type and the length of the whole message.
    assert_eq!(reassembled_message.payload[0], 1, "idx: {idx}");
    assert_eq!(
        &reassembled_message.payload[1..4],
        &original_message.payload.bytes()[1..4],
        "idx: {idx}"
    );
}

/// Deframes the next record and hands its payload to the deframer, as if it had been decrypted in
/// place.
fn feed(deframer: &mut DtlsDeframer, buf: &mut [u8], epoch: u64) {
    let Deframed { record, bounds, .. } = deframer
        .deframe(buf, Epoch::new(epoch))
        .unwrap()
        .unwrap();
    let message = record.into_plain_record();
    let bounds = bounds.start + DTLS_HEADER_SIZE..bounds.end;
    deframer.input_message_dtls(message, bounds).unwrap();
    deframer.coalesce_dtls(buf);
}

#[test]
fn single_handshake_fragment() {
    let record = test_handshake_message();

    let records = MessageFragmenter::default().fragment_dtls_handshake_message(
        EpochAndSequence::new(0, 0),
        HandshakeType::ClientHello,
        0,
        record.payload.bytes(),
    );
    assert_eq!(records.len(), 1);

    let mut record_wire_bytes = wire_bytes(&records[0]);
    let record_wire_bytes_len = record_wire_bytes.len();

    // Deframe the record to parse its header and get the body as an InboundOpaque
    let mut deframer = DtlsDeframer::default();

    let Deframed {
        record: message,
        bounds,
        ..
    } = deframer
        .deframe(&mut record_wire_bytes, Epoch::new(0))
        .unwrap()
        .unwrap();

    // The bounds of the deframed message should span the entire encoded message
    assert_eq!(bounds.start, 0);
    assert_eq!(bounds.end, record_wire_bytes_len);

    // Simulate decryption
    let message = message.into_plain_record();
    let bounds = bounds.start + DTLS_HEADER_SIZE..bounds.end;

    // Feed the record payload into the deframer. It should be a complete span.
    deframer.input_message_dtls(message, bounds).unwrap();

    // Coalescing should be a no-op with only one span
    deframer.coalesce_dtls(&mut record_wire_bytes);
    let message_span = deframer.complete_span().unwrap();

    // We should get the whole handshake message out of the deframer
    let reassembled_message = deframer.message(message_span, &record_wire_bytes);
    check_reassembled_message(0, &record, &reassembled_message);
}

#[test]
fn multiple_handshake_fragment_in_order() {
    let record = test_handshake_message();

    let mut message_fragmenter = MessageFragmenter::default();
    message_fragmenter.set_max_fragment_size(Some(48)).unwrap();
    let records = message_fragmenter.fragment_dtls_handshake_message(
        EpochAndSequence::new(5, 222),
        HandshakeType::ClientHello,
        0,
        record.payload.bytes(),
    );
    assert_eq!(records.len(), 4);

    let mut encoded_records = Vec::new();
    for record in &records {
        encoded_records.extend_from_slice(wire_bytes(record).as_slice());
    }

    let mut deframer = DtlsDeframer::default();

    // Deframe records and feed messages into the deframer to be coalesced. We should not
    // get a complete span until all records are fed in.
    for record_idx in 0..records.len() {
        feed(&mut deframer, &mut encoded_records, 5);

        if record_idx < records.len() - 1 {
            assert!(deframer.complete_span().is_none());
        } else {
            let message_span = deframer.complete_span().unwrap();

            // We should get the whole handshake message out of the deframer
            let reassembled_handshake_message = deframer.message(message_span, &encoded_records);
            check_reassembled_message(record_idx, &record, &reassembled_handshake_message);
        }
    }
}

#[test]
fn multiple_handshake_fragment_overlapping() {
    let record = test_handshake_message();

    let mut message_fragmenter = MessageFragmenter::default();
    message_fragmenter.set_max_fragment_size(Some(48)).unwrap();
    let mut records = message_fragmenter.fragment_dtls_handshake_message(
        EpochAndSequence::new(5, 222),
        HandshakeType::ClientHello,
        0,
        record.payload.bytes(),
    );
    assert_eq!(records.len(), 4);

    // Grow one of the fragments so that it overlaps with part of the fragment before it and then
    // all of the fragment after it.
    let fragment_0_portion = 11;
    assert!(fragment_0_portion as usize <= records[0].payload.fragment.bytes().len());
    let fragment_2_portion = records[2].payload.fragment_length.0;
    records[1].payload.fragment_length =
        U24(records[1].payload.fragment_length.0 + fragment_0_portion + fragment_2_portion);
    records[1].payload.fragment_offset =
        U24(records[1].payload.fragment_offset.0 - fragment_0_portion);
    let mut grown_payload = records[0]
        .payload
        .fragment
        .bytes()
        .last_chunk::<11>()
        .unwrap()
        .to_vec();
    grown_payload.extend(records[1].payload.fragment.bytes());
    grown_payload.extend(records[2].payload.fragment.bytes());
    records[1].payload.fragment = Payload::new(grown_payload);

    let mut encoded_records = Vec::new();
    for record in &records {
        encoded_records.extend_from_slice(wire_bytes(record).as_slice());
    }

    let mut deframer = DtlsDeframer::default();

    // Deframe records and feed messages into the deframer to be coalesced. We should not
    // get a complete span until all records are fed in.
    for record_idx in 0..records.len() {
        feed(&mut deframer, &mut encoded_records, 5);

        if record_idx < records.len() - 1 {
            assert!(deframer.complete_span().is_none());
        } else {
            let message_span = deframer.complete_span().unwrap();

            // We should get the whole handshake message out of the deframer
            let reassembled_handshake_message = deframer.message(message_span, &encoded_records);
            check_reassembled_message(record_idx, &record, &reassembled_handshake_message);
        }
    }
}

#[test]
fn multiple_handshake_fragment_out_of_order_and_more_than_one_seq_1() {
    let first_record = test_handshake_message();
    let second_record = test_handshake_message();

    let mut message_fragmenter = MessageFragmenter::default();
    message_fragmenter.set_max_fragment_size(Some(48)).unwrap();
    let mut records = message_fragmenter.fragment_dtls_handshake_message(
        EpochAndSequence::new(5, 222),
        HandshakeType::ClientHello,
        666, // [2, 154]
        first_record.payload.bytes(),
    );
    records.extend(message_fragmenter.fragment_dtls_handshake_message(
        EpochAndSequence::new(5, 223),
        HandshakeType::ClientHello,
        667, // [2, 155]
        second_record.payload.bytes(),
    ));
    assert_eq!(records.len(), 8);

    // Interleave the fragments of the two handshake messages to simulate UDP messages arriving out
    // of order. Even though we receive all the fragments of the second message at index 5, we can't
    // get any messages out of the deframer until all fragments of the first message arrive.
    let mut encoded_records = Vec::new();
    for index in [4, 2, 7, 3, 6, 5, 1, 0] {
        let record: &EncodedMessage<DtlsHandshakeFragment<'_>> = &records[index];
        encoded_records.extend_from_slice(wire_bytes(record).as_slice());
    }

    let mut deframer = DtlsDeframer::default();

    // Deframe records and feed messages into the deframer to be coalesced.
    let mut saw_first_message = false;
    for record_idx in 0..records.len() {
        feed(&mut deframer, &mut encoded_records, 5);

        if let Some(span) = deframer.complete_span() {
            // Because of how we laid out encoded_fragments, no message will be available until the
            // last iteration of this loop, at which point both will be in the buffer, ordered by
            // handshake seq.
            let reassembled_handshake_message = deframer.message(span, &encoded_records);
            check_reassembled_message(record_idx, &first_record, &reassembled_handshake_message);

            saw_first_message = true;

            let span = deframer.complete_span().unwrap();
            let reassembled_handshake_message = deframer.message(span, &encoded_records);
            check_reassembled_message(record_idx, &second_record, &reassembled_handshake_message);
        }
    }

    assert!(saw_first_message);
}

#[test]
fn multiple_handshake_fragment_out_of_order_and_more_than_one_seq_2() {
    let first_record = test_handshake_message();
    let second_record = test_handshake_message();

    let mut message_fragmenter = MessageFragmenter::default();
    message_fragmenter.set_max_fragment_size(Some(48)).unwrap();
    let mut records = message_fragmenter.fragment_dtls_handshake_message(
        EpochAndSequence::new(5, 222),
        HandshakeType::ClientHello,
        666, // [2, 154]
        first_record.payload.bytes(),
    );
    records.extend(message_fragmenter.fragment_dtls_handshake_message(
        EpochAndSequence::new(5, 223),
        HandshakeType::ClientHello,
        667, // [2, 155]
        second_record.payload.bytes(),
    ));
    assert_eq!(records.len(), 8);

    // Interleave the fragments of the two handshake messages to simulate UDP messages arriving out
    // of order. We receive all fragments of the first message at index 5, so the deframer should
    // yield that message then, but the second message has to wait until all 8 fragments arrive.
    let mut encoded_records = Vec::new();
    for index in [4, 2, 7, 3, 1, 0, 6, 5] {
        let record: &EncodedMessage<DtlsHandshakeFragment<'_>> = &records[index];
        encoded_records.extend_from_slice(wire_bytes(record).as_slice());
    }

    let mut deframer = DtlsDeframer::default();

    // Deframe records and feed messages into the deframer to be coalesced.
    let mut saw_first_message = false;
    let mut saw_second_message = false;
    for record_idx in 0..records.len() {
        feed(&mut deframer, &mut encoded_records, 5);

        if let Some(span) = deframer.complete_span() {
            let reassembled_handshake_message = deframer.message(span, &encoded_records);
            if !saw_first_message {
                check_reassembled_message(
                    record_idx,
                    &first_record,
                    &reassembled_handshake_message,
                );
                saw_first_message = true;
            } else {
                check_reassembled_message(
                    record_idx,
                    &second_record,
                    &reassembled_handshake_message,
                );
                saw_second_message = true;
            }
        }
    }

    assert!(saw_first_message);
    assert!(saw_second_message);
}

fn check_reassembled_handshake(
    record_idx: usize,
    original_message: &[u8],
    reassembled_message: &EncodedMessage<&[u8]>,
) {
    assert_eq!(
        reassembled_message.typ,
        ContentType::Handshake,
        "record_idx: {record_idx}",
    );
    assert_eq!(
        reassembled_message.version,
        ProtocolVersion::DTLSv1_2,
        "record_idx: {record_idx}",
    );
    assert_eq!(
        reassembled_message.epoch_and_sequence, None,
        "record_idx: {record_idx}",
    );
    assert_eq!(
        &reassembled_message.payload[DTLS_HANDSHAKE_HEADER_SIZE..],
        original_message,
        "record_idx: {record_idx}",
    );
}

/// A handshake message of type `Finished`, with the header that it has in TLS.
fn finished(body: &[u8]) -> (HandshakeType, Vec<u8>) {
    let mut encoded = vec![20, 0, (body.len() >> 8) as u8, body.len() as u8];
    encoded.extend_from_slice(body);
    (HandshakeType::Finished, encoded)
}

fn flight_wire_bytes(record: &EncodedMessage<Payload<'_>>) -> Vec<u8> {
    EncodedMessage {
        typ: record.typ,
        version: record.version,
        epoch_and_sequence: record.epoch_and_sequence,
        payload: OutboundPlain::Single(record.payload.get_encoding().as_slice()),
    }
    .to_unencrypted_opaque()
    .encode()
}

#[test]
fn single_record_multiple_handshake_messages() {
    // "Note that as with TLS, multiple handshake messages may be placed in the same DTLS record,
    // provided that there is room and that they are part of the same flight."
    // https://datatracker.ietf.org/doc/html/rfc9147#section-5.5-5
    // Message lengths and fragment size are chosen so that multiple complete handshake messages get
    // packed into a singel record.
    // Where r indicates 13 bytes of record header, h indicates 12 bytes of handshake header and
    // H[x] indicates x bytes of handshake payload, we will get a record:
    //
    // rhH[36]hH[32]hH[4]
    let messages = [vec![6u8; 36], vec![7; 32], vec![8; 4]];
    let message_flight: Vec<_> = messages.iter().map(|m| finished(m)).collect();

    let mut fragmenter = MessageFragmenter::default();
    fragmenter
        .set_max_fragment_size(Some(
            36 + 32 + 4 + DTLS_HEADER_SIZE + 3 * DTLS_HANDSHAKE_HEADER_SIZE,
        ))
        .unwrap();

    let records = fragmenter.fragment_dtls_handshake_message_flight(
        EpochAndSequence::new(11, 255),
        17,
        &message_flight,
    );
    assert_eq!(records.len(), 1);

    let mut encoded_record = flight_wire_bytes(&records[0]);

    let mut deframer = DtlsDeframer::default();

    // Deframe the record and feed it into the deframer to be coalesced.
    feed(&mut deframer, &mut encoded_record, 11);

    // The first and only record contains three complete handshake messages which should now be
    // available.
    for message in messages {
        let message_span = deframer.complete_span().unwrap();

        let reassembled_handshake_message = deframer.message(message_span, &encoded_record);
        check_reassembled_handshake(1, message.as_slice(), &reassembled_handshake_message);
    }

    // No more messages
    assert!(deframer.complete_span().is_none());
}

#[test]
fn handshake_messages_span_records() {
    // "Note that as with TLS, multiple handshake messages may be placed in the same DTLS record,
    // provided that there is room and that they are part of the same flight."
    // https://datatracker.ietf.org/doc/html/rfc9147#section-5.5-5
    // Message lengths are chosen so that the first occupies the entire first record and part of
    // the second, and the second occupies part of the second record and part of the third, and then
    // the third message occupies the remainder of the third record.
    // Where r indicates 13 bytes of record header, h indicates 12 bytes of handshake header and
    // H[x] indicates x bytes of handshake payload, we will get records:
    //
    // rhH[32]      <-- first 32 bytes of first message
    // rhH[4]hH[16] <-- last 4 bytes of first message plus first 16 bytes of second message
    // rhH[16]hH[4] <-- last 16 bytes of second message plus 14 bytes of third message
    let messages = [vec![6u8; 36], vec![7; 32], vec![8; 4]];
    let message_flight: Vec<_> = messages.iter().map(|m| finished(m)).collect();

    let mut fragmenter = MessageFragmenter::default();
    fragmenter
        .set_max_fragment_size(Some(32 + DTLS_HEADER_SIZE + DTLS_HANDSHAKE_HEADER_SIZE))
        .unwrap();

    let records = fragmenter.fragment_dtls_handshake_message_flight(
        EpochAndSequence::new(11, 255),
        17,
        &message_flight,
    );
    assert_eq!(records.len(), 3);

    let mut encoded_records = Vec::new();
    for record in &records {
        encoded_records.extend_from_slice(flight_wire_bytes(record).as_slice());
    }

    let mut deframer = DtlsDeframer::default();

    // Deframe records and feed messages into the deframer to be coalesced.
    for record_idx in 0..records.len() {
        feed(&mut deframer, &mut encoded_records, 11);

        if record_idx == 0 {
            // First record contains incomplete handshake message
            assert!(deframer.complete_span().is_none());
        } else if record_idx == 1 {
            // Second record contains rest of first message and part of second; one complete span
            // should be available
            let message_span = deframer.complete_span().unwrap();

            let reassembled_handshake_message = deframer.message(message_span, &encoded_records);
            check_reassembled_handshake(
                record_idx,
                messages[0].as_slice(),
                &reassembled_handshake_message,
            );

            assert!(deframer.complete_span().is_none());
        } else if record_idx == 2 {
            // Third record contains rest of second message and entire third message; two complete
            // spans should be available
            let message_span = deframer.complete_span().unwrap();

            let reassembled_handshake_message = deframer.message(message_span, &encoded_records);
            check_reassembled_handshake(
                record_idx,
                messages[1].as_slice(),
                &reassembled_handshake_message,
            );

            let message_span = deframer.complete_span().unwrap();

            let reassembled_handshake_message = deframer.message(message_span, &encoded_records);
            check_reassembled_handshake(
                record_idx,
                messages[2].as_slice(),
                &reassembled_handshake_message,
            );
        } else {
            panic!("record_idx > 2");
        }
    }
}

#[test]
fn multiple_fragments_application_data() {
    let first_record = EncodedMessage {
        typ: ContentType::ApplicationData,
        version: ProtocolVersion::DTLSv1_2,
        epoch_and_sequence: Some(EpochAndSequence::new(5, 11)),
        payload: OutboundPlain::Single(&[1; 32]),
    }
    .to_unencrypted_opaque();

    let encoded_first_record = first_record.encode();
    let encoded_first_record_len = encoded_first_record.len();

    let second_record = EncodedMessage {
        typ: ContentType::ApplicationData,
        version: ProtocolVersion::DTLSv1_2,
        epoch_and_sequence: Some(EpochAndSequence::new(5, 12)),
        payload: OutboundPlain::Single(&[4; 92]),
    }
    .to_unencrypted_opaque();

    let encoded_second_record = second_record.encode();
    let encoded_second_record_len = encoded_second_record.len();

    let mut wire_bytes = Vec::new();
    wire_bytes.extend(encoded_first_record);
    wire_bytes.extend(encoded_second_record);

    let mut deframer = DtlsDeframer::default();

    for (record, expect_start, expect_end) in [
        (first_record, 0, encoded_first_record_len),
        (
            second_record,
            encoded_first_record_len,
            encoded_first_record_len + encoded_second_record_len,
        ),
    ] {
        let Deframed {
            record: message,
            bounds,
            epoch,
            record_seq,
        } = deframer
            .deframe(&mut wire_bytes, Epoch::new(5))
            .unwrap()
            .unwrap();

        assert_eq!(bounds.start, expect_start);
        assert_eq!(bounds.end, expect_end);

        let message = message.into_plain_record();
        assert_eq!(message.typ, record.typ);
        assert_eq!(message.version.version(), record.version);
        let sequence = match record_seq {
            Some(RecordSequenceNumber::Full(FullRecordSequenceNumber(sequence))) => sequence,
            _ => panic!("record sequence number is missing"),
        };
        assert_eq!(
            Some(EpochAndSequence::new(epoch.number() as u16, sequence)),
            record.epoch_and_sequence
        );
        assert_eq!(message.payload, record.payload.0.as_slice());
    }
}

fn plaintext_record(epoch: u16, sequence: u64, payload: &[u8]) -> Vec<u8> {
    EncodedMessage {
        typ: ContentType::ApplicationData,
        version: ProtocolVersion::DTLSv1_2,
        epoch_and_sequence: Some(EpochAndSequence::new(epoch, sequence)),
        payload: OutboundPlain::Single(payload),
    }
    .to_unencrypted_opaque()
    .encode()
}

#[test]
fn nothing_is_deframed_from_an_empty_buffer() {
    let mut deframer = DtlsDeframer::default();
    let mut empty: Vec<u8> = Vec::new();
    assert!(deframer.deframe(&mut empty, Epoch::new(0)).is_none());
    // an incomplete header or payload has to wait, too
    let mut record = plaintext_record(0, 1, b"payload");
    let len = record.len();
    assert!(deframer.deframe(&mut record[..5], Epoch::new(0)).is_none());
    assert!(deframer.deframe(&mut record[..len - 1], Epoch::new(0)).is_none());
    assert!(matches!(deframer.deframe(&mut record, Epoch::new(0)), Some(Ok(_))));
}

#[test]
fn record_of_next_epoch_waits_for_it() {
    let mut buf = plaintext_record(1, 7, b"later");
    let mut deframer = DtlsDeframer::default();

    // the record is ahead of its time
    assert!(deframer.deframe(&mut buf, Epoch::new(0)).is_none());
    assert_eq!(deframer.core.future_epoch_records.len(), 1);

    // once its epoch has come, it is deframed
    let deframed = deframer.deframe(&mut buf, Epoch::new(1)).unwrap().unwrap();
    assert_eq!(deframed.epoch.number(), 1);
    assert_eq!(deframed.record.into_plain_record().payload, b"later");
    assert!(deframer.core.future_epoch_records.is_empty());
}

#[test]
fn invalid_headers_are_reported() {
    // unknown content type
    let mut buf = plaintext_record(0, 1, b"payload");
    buf[0] = 99;
    let mut deframer = DtlsDeframer::default();
    assert_eq!(
        deframer.deframe(&mut buf, Epoch::new(0)).unwrap().unwrap_err(),
        Error::InvalidMessage(InvalidMessage::InvalidContentType)
    );

    // version of no protocol
    let mut buf = plaintext_record(0, 1, b"payload");
    buf[1] = 7;
    let mut deframer = DtlsDeframer::default();
    assert_eq!(
        deframer.deframe(&mut buf, Epoch::new(0)).unwrap().unwrap_err(),
        Error::InvalidMessage(InvalidMessage::UnknownProtocolVersion)
    );

    // too much payload
    let mut buf = plaintext_record(0, 1, b"payload");
    buf[11] = 0xff;
    let mut deframer = DtlsDeframer::default();
    assert_eq!(
        deframer.deframe(&mut buf, Epoch::new(0)).unwrap().unwrap_err(),
        Error::InvalidMessage(InvalidMessage::MessageTooLarge)
    );
}

#[test]
fn connection_ids_are_noticed() {
    let deframer = DtlsDeframer::default();
    let mut buf = plaintext_record(0, 1, b"payload");
    assert!(!deframer.next_has_connection_id(&buf, Epoch::new(0)));
    buf[0] = 0b0011_0000;
    assert!(deframer.next_has_connection_id(&buf, Epoch::new(0)));
    assert!(!deframer.next_has_connection_id(&[], Epoch::new(0)));
}

#[test]
fn protected_record_is_deframed() {
    // unified header with a sequence number of two bytes and a length, epoch 3
    let mut buf = vec![0b0010_1111, 0xab, 0xcd, 0, 4];
    buf.extend_from_slice(b"text");
    let mut deframer = DtlsDeframer::default();
    let deframed = deframer.deframe(&mut buf, Epoch::new(3)).unwrap().unwrap();
    assert_eq!(deframed.bounds, 0..9);
    assert_eq!(deframed.epoch.number(), 3);
    assert_eq!(deframed.record.typ, ContentType::ApplicationData);
    assert_eq!(deframed.record.version.version(), ProtocolVersion::DTLSv1_3);
    match deframed.record_seq {
        Some(RecordSequenceNumber::Protected(number)) => {
            assert_eq!(number.protected, [0xab, 0xcd]);
            assert!(number.long_encoding);
        }
        _ => panic!("record sequence number is not protected"),
    }
    assert_eq!(deframed.record.payload.1, b"text");
}

#[test]
fn incomplete_handshake_header_is_reported() {
    let mut deframer = DtlsDeframer::default();
    let record = dtls_records::msgs::record::Record::new(
        ContentType::Handshake,
        dtls_records::msgs::record::EncodableVersion::Legacy(ProtocolVersion::DTLSv1_2),
        &[20u8, 0, 0][..],
    );
    assert!(matches!(
        deframer.input_message_dtls(record, 0..3),
        Err(Error::InvalidMessage(InvalidMessage::MissingData(_)))
    ));
}

#[test]
fn buffered_record_has_its_own_header() {
    let mut buf = plaintext_record(5, 2, &[0xbb]);
    buf.extend(plaintext_record(6, 1, &[0xaa]));
    let mut deframer = DtlsDeframer::default();
    let first = deframer.deframe(&mut buf, Epoch::new(5)).unwrap().unwrap();
    assert_eq!(first.bounds, 0..14);
    assert_eq!(first.record.payload.1, [0xbb]);
    assert!(deframer.deframe(&mut buf, Epoch::new(5)).is_none());

    let expected = buf[14..27].to_vec();
    let second = deframer.deframe(&mut buf, Epoch::new(6)).unwrap().unwrap();
    assert_eq!(second.bounds, 14..28);
    assert_eq!(second.record.payload.0, expected);
    assert_eq!(second.record.payload.1, [0xaa]);
}

#[test]
fn buffered_record_survives_coalescing() {
    // a record of the next epoch lies in front of the first fragment
    let mut buf = plaintext_record(1, 9, b"later");
    let later = buf.clone();
    let handshake = EncodedMessage {
        typ: ContentType::Handshake,
        version: ProtocolVersion::DTLSv1_2,
        epoch_and_sequence: Some(EpochAndSequence::new(0, 1)),
        payload: OutboundPlain::Single(&[20, 0, 0, 3, 0, 0, 0, 0, 0, 0, 0, 3, 1, 2, 3]),
    };
    buf.extend(handshake.to_unencrypted_opaque().encode());

    let mut deframer = DtlsDeframer::default();
    assert!(deframer.deframe(&mut buf, Epoch::new(0)).is_none());
    let deframed = deframer.deframe(&mut buf, Epoch::new(0)).unwrap().unwrap();
    let bounds = deframed.bounds.start + 13..deframed.bounds.end;
    deframer
        .input_message_dtls(deframed.record.into_plain_record(), bounds)
        .unwrap();
    deframer.coalesce_dtls(&mut buf);
    assert_eq!(buf[..15], [20, 0, 0, 3, 0, 0, 0, 0, 0, 0, 0, 3, 1, 2, 3]);

    let deframed = deframer.deframe(&mut buf, Epoch::new(1)).unwrap().unwrap();
    assert_eq!(deframed.record.payload.0, &later[..13]);
    assert_eq!(deframed.record.payload.1, b"later");
}

#[test]
fn protected_record_without_length_takes_the_buffer() {
    let mut buf = [0x2a, 0, 7, 0xaa, 0xbb];
    let mut deframer = DtlsDeframer::default();
    let deframed = deframer.deframe(&mut buf, Epoch::new(2)).unwrap().unwrap();
    assert_eq!(deframed.bounds, 0..5);
    assert_eq!(deframed.record.payload.0, [0x2a, 0, 7]);
    assert_eq!(deframed.record.payload.1, [0xaa, 0xbb]);
    assert_eq!(deframer.processed, 5);
}

#[test]
fn protected_record_with_short_number_is_deframed() {
    let mut buf = [0x26, 7, 0, 2, 0xaa, 0xbb];
    let mut deframer = DtlsDeframer::default();
    let deframed = deframer.deframe(&mut buf, Epoch::new(2)).unwrap().unwrap();
    assert_eq!(deframed.bounds, 0..6);
    match deframed.record_seq {
        Some(RecordSequenceNumber::Protected(number)) => {
            assert_eq!(number.protected, [7, 0]);
            assert!(!number.long_encoding);
        }
        _ => panic!("record sequence number is not protected"),
    }
    assert_eq!(deframed.record.payload.1, [0xaa, 0xbb]);
    assert_eq!(deframer.processed, 6);
}

#[test]
fn protected_record_of_next_epoch_waits_for_it() {
    // epoch 4 if the current one is 3
    let mut buf = [0x2c, 0, 1, 0, 2, 0xaa, 0xbb];
    let mut deframer = DtlsDeframer::default();
    assert!(deframer.deframe(&mut buf, Epoch::new(3)).is_none());
    assert_eq!(deframer.core.future_epoch_records[0].epoch.number(), 4);
    let deframed = deframer.deframe(&mut buf, Epoch::new(4)).unwrap().unwrap();
    assert_eq!(deframed.epoch.number(), 4);
    assert_eq!(deframed.bounds, 0..7);
    assert_eq!(deframed.record.payload.1, [0xaa, 0xbb]);
}

/// A fragment of a `Finished` message of the given length.
fn fragment(seq: u8, len: u8, offset: u8, body: &[u8]) -> Vec<u8> {
    let mut bytes = vec![20, 0, 0, len, 0, seq, 0, 0, offset, 0, 0, body.len() as u8];
    bytes.extend_from_slice(body);
    bytes
}

/// Fragments one behind the other, each with a byte in front.
fn lay_out(fragments: &[Vec<u8>]) -> (VecDeque<FragmentSpan>, Vec<u8>) {
    let mut spans = VecDeque::new();
    let mut buf = Vec::new();
    for bytes in fragments {
        buf.push(0xff);
        let start = buf.len();
        buf.extend_from_slice(bytes);
        spans.push_back(FragmentSpan {
            version: ProtocolVersion::DTLSv1_2,
            size: Some(bytes[3] as usize),
            bounds: start..buf.len(),
            dtls_fragment_fields: Some((
                bytes[5] as u16,
                U24(bytes[8] as u32),
                U24(bytes[11] as u32),
            )),
        });
    }
    (spans, buf)
}

#[test]
fn nothing_moves_while_the_start_is_missing() {
    let (mut spans, mut buf) = lay_out(&[
        fragment(2, 1, 0, &[9]),
        fragment(1, 6, 4, &[5, 6]),
        fragment(1, 6, 2, &[3, 4]),
    ]);
    let before = buf.clone();
    let mut core = DtlsDeframerCore::default();
    assert_eq!(core.coalesce(&mut spans, &mut buf), Ok(()));
    assert_eq!(buf, before);
    let fields: Vec<_> = spans
        .iter()
        .map(|span| (span.bounds.clone(), span.dtls_fragment_fields.unwrap()))
        .collect();
    assert_eq!(
        fields,
        [
            (30..44, (1, U24(2), U24(2))),
            (15..29, (1, U24(4), U24(2))),
            (1..14, (2, U24(0), U24(1))),
        ]
    );
}

#[test]
fn order_of_arrival_does_not_matter() {
    let fragments = [
        fragment(1, 6, 0, &[1, 2, 3]),
        fragment(1, 6, 2, &[3, 4]),
        fragment(1, 6, 4, &[5, 6]),
        fragment(2, 1, 0, &[9]),
    ];
    let mut first = fragment(1, 6, 0, &[1, 2, 3, 4, 5, 6]);
    // the header is the one of the first fragment
    first[11] = 3;
    let second = fragment(2, 1, 0, &[9]);
    let expected = [first, second].concat();

    for order in [
        [0, 1, 2, 3],
        [3, 2, 1, 0],
        [2, 0, 3, 1],
        [1, 3, 0, 2],
        [0, 3, 2, 1],
    ] {
        let (mut spans, mut buf) = lay_out(&order.map(|i: usize| fragments[i].clone()));
        let mut core = DtlsDeframerCore::default();
        assert_eq!(core.coalesce(&mut spans, &mut buf), Ok(()));
        assert_eq!(spans.len(), 2, "{order:?}");
        assert_eq!(spans[0].bounds, 0..18, "{order:?}");
        assert_eq!(spans[1].bounds, 18..31, "{order:?}");
        assert!(spans[0].is_complete() && spans[1].is_complete());
        assert_eq!(buf[..31], expected, "{order:?}");
    }
}

#[test]
fn fragments_may_be_added_after_coalescing() {
    let fragments = [
        fragment(1, 6, 0, &[1, 2, 3]),
        fragment(1, 6, 2, &[3, 4]),
        fragment(1, 6, 4, &[5, 6]),
        fragment(2, 1, 0, &[9]),
    ];
    for order in [[0, 1, 2, 3], [3, 2, 1, 0], [2, 0, 3, 1], [1, 3, 0, 2]] {
        let (arriving, mut buf) = lay_out(&order.map(|i: usize| fragments[i].clone()));
        let mut core = DtlsDeframerCore::default();
        let mut spans = VecDeque::new();
        // coalesce after every fragment
        for span in arriving {
            spans.push_back(span);
            assert_eq!(core.coalesce(&mut spans, &mut buf), Ok(()));
        }
        assert_eq!(spans.len(), 2, "{order:?}");
        assert_eq!(spans[0].bounds, 0..18, "{order:?}");
        assert_eq!(spans[1].bounds, 18..31, "{order:?}");
        assert_eq!(buf[12..18], [1, 2, 3, 4, 5, 6], "{order:?}");
        assert_eq!(buf[5], 1);
        assert_eq!(buf[18..31], fragments[3], "{order:?}");
    }
}

#[test]
fn taken_message_leaves_the_others() {
    let (mut spans, mut buf) = lay_out(&[
        fragment(2, 2, 1, &[8]),
        fragment(1, 1, 0, &[5]),
        fragment(2, 2, 0, &[7]),
    ]);
    let late = spans.pop_back().unwrap();
    let mut core = DtlsDeframerCore::default();
    assert_eq!(core.coalesce(&mut spans, &mut buf), Ok(()));
    assert!(spans[0].is_complete());
    let _ = spans.pop_front();
    spans.push_back(late);
    assert_eq!(core.coalesce(&mut spans, &mut buf), Ok(()));
    assert_eq!(spans.len(), 1);
    assert!(spans[0].is_complete());
    assert_eq!(buf[spans[0].bounds.clone()][12..], [7, 8]);
}
