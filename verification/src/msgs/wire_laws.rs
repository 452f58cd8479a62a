//! Where every field stands on the wire, byte by byte.

use vstd::arithmetic::div_mod::{lemma_mod_breakdown, lemma_small_mod};
use vstd::prelude::*;

use crate::enums::{ContentType, HandshakeType, ProtocolVersion};
use crate::epoch::{Epoch, EpochAndSequence};
use crate::error::{InvalidMessage, RecordError};
use crate::msgs::codec::{be_bytes, be_value, lemma_be_bytes_len, lemma_be_value_bound, lemma_pow256_values, pow256};
use crate::msgs::dtls::{
    ack_encoding, ack_entries, ack_of, ack_records, epoch_bits, has_c_bit, has_connection_id,
    has_fixed_bits, has_l_bit, has_s_bit, lemma_handshake_header_len,
    number_written, padded, record_header, record_header_progress, unified_header,
    unified_header_progress, AckRecordSequenceNumber, DtlsMessageHeader, FullRecordSequenceNumber,
    HandshakeFragment, ProtectedRecordSequenceNumber, TruncatedRecordSequenceNumber,
    UnifiedHeader, UnifiedHeaderFields,
};
use crate::msgs::message::record_header_bytes;

verus! {

/// The number in the `n` bytes of `bytes` from `at` on, most significant byte first.
pub open spec fn number_at(bytes: Seq<u8>, at: int, n: nat) -> int
    decreases n,
{
    if n == 0 {
        0
    } else {
        number_at(bytes, at, (n - 1) as nat) * 256 + bytes[at + n - 1]
    }
}

/// Numbers are read from the bytes that they stand in.
pub proof fn law_numbers_are_big_endian(bytes: Seq<u8>, at: int, n: nat)
    requires
        0 <= at,
        at + n <= bytes.len(),
    ensures
        be_value(bytes.subrange(at, at + n)) == number_at(bytes, at, n),
        0 <= number_at(bytes, at, n) < pow256(n),
    decreases n,
{
    let field = bytes.subrange(at, at + n);
    lemma_be_value_bound(field);
    if n > 0 {
        law_numbers_are_big_endian(bytes, at, (n - 1) as nat);
        assert(field.drop_last() =~= bytes.subrange(at, at + n - 1));
    }
}

/// Numbers are written to the bytes that they stand in, as far as they fit: of one that
/// does not fit, the low bytes are written.
pub proof fn law_numbers_are_written(value: nat, n: nat)
    ensures
        be_bytes(value, n).len() == n,
        number_at(be_bytes(value, n), 0, n) == value % pow256(n),
        value < pow256(n) ==> number_at(be_bytes(value, n), 0, n) == value,
    decreases n,
{
    lemma_be_bytes_len(value, n);
    if n > 0 {
        let m = (n - 1) as nat;
        law_numbers_are_written(value / 256, m);
        lemma_number_in_part(be_bytes(value, n), be_bytes(value / 256, m), 0, 0, m);
        lemma_be_value_bound(be_bytes(value / 256, m));
        lemma_mod_breakdown(value as int, 256, pow256(m) as int);
        assert(256 * ((value / 256) % pow256(m)) == ((value / 256) % pow256(m)) * 256);
    }
    if value < pow256(n) {
        lemma_small_mod(value, pow256(n));
    }
}

/// A number is the same wherever its bytes stand.
pub proof fn lemma_number_in_part(a: Seq<u8>, b: Seq<u8>, at: int, other: int, n: nat)
    requires
        forall|i: int| 0 <= i < n ==> #[trigger] a[at + i] == b[other + i],
    ensures
        number_at(a, at, n) == number_at(b, other, n),
    decreases n,
{
    if n > 0 {
        lemma_number_in_part(a, b, at, other, (n - 1) as nat);
        assert(a[at + (n - 1)] == b[other + (n - 1)]);
    }
}

/// Bytes that are the same number are the same.
pub proof fn lemma_same_number(a: Seq<u8>, b: Seq<u8>, at: int, other: int, n: nat)
    requires
        number_at(a, at, n) == number_at(b, other, n),
    ensures
        forall|i: int| 0 <= i < n ==> #[trigger] a[at + i] == b[other + i],
    decreases n,
{
    if n > 0 {
        let x = number_at(a, at, (n - 1) as nat);
        let y = number_at(b, other, (n - 1) as nat);
        assert(x == y && a[at + n - 1] == b[other + n - 1]);
        lemma_same_number(a, b, at, other, (n - 1) as nat);
        assert forall|i: int| 0 <= i < n implies #[trigger] a[at + i] == b[other + i] by {
            if i == n - 1 {
                assert(a[at + i] == a[at + n - 1]);
            }
        }
    }
}

/// A number that was written at `at`.
pub proof fn lemma_written_at(bytes: Seq<u8>, at: int, value: nat, n: nat)
    requires
        0 <= at,
        at + n <= bytes.len(),
        bytes.subrange(at, at + n) == be_bytes(value, n),
    ensures
        number_at(bytes, at, n) == value % pow256(n),
        value < pow256(n) ==> number_at(bytes, at, n) == value,
{
    let field = be_bytes(value, n);
    law_numbers_are_written(value, n);
    assert forall|i: int| 0 <= i < n implies #[trigger] bytes[at + i] == field[0 + i] by {
        assert(bytes.subrange(at, at + n)[i] == bytes[at + i]);
    }
    lemma_number_in_part(bytes, field, at, 0, n);
}

/// The fields of a record header: the content type in the first byte, the version in
/// the next two, for Datagram TLS the epoch in two and the sequence number in six, and
/// the length of the payload in the last two.
pub proof fn law_record_header_fields(
    typ: ContentType,
    version: ProtocolVersion,
    epoch_and_sequence: Option<EpochAndSequence>,
    len: nat,
)
    requires
        epoch_and_sequence matches Some(es) ==> es.sequence <= 0xffff_ffff_ffff,
    ensures
        ({
            let header = record_header_bytes(typ, version, epoch_and_sequence, len);
            &&& header[0] == typ.code()
            &&& number_at(header, 1, 2) == version.code()
            &&& match epoch_and_sequence {
                Some(es) => {
                    &&& header.len() == 13
                    &&& number_at(header, 3, 2) == es.epoch
                    &&& number_at(header, 5, 6) == es.sequence
                    &&& number_at(header, 11, 2) == len % 0x1_0000
                },
                None => {
                    &&& header.len() == 5
                    &&& number_at(header, 3, 2) == len % 0x1_0000
                },
            }
        }),
{
    broadcast use lemma_be_bytes_len;

    lemma_pow256_values();
    let header = record_header_bytes(typ, version, epoch_and_sequence, len);
    assert(header.subrange(1, 3) =~= be_bytes(version.code() as nat, 2));
    lemma_written_at(header, 1, version.code() as nat, 2);
    match epoch_and_sequence {
        Some(es) => {
            assert(header.subrange(3, 5) =~= be_bytes(es.epoch as nat, 2));
            assert(header.subrange(5, 11) =~= be_bytes(es.sequence as nat, 6));
            assert(header.subrange(11, 13) =~= be_bytes(len, 2));
            lemma_written_at(header, 3, es.epoch as nat, 2);
            lemma_written_at(header, 5, es.sequence as nat, 6);
            lemma_written_at(header, 11, len, 2);
        },
        None => {
            assert(header.subrange(3, 5) =~= be_bytes(len, 2));
            lemma_written_at(header, 3, len, 2);
        },
    }
}

/// The content types that records may have, by their first byte.
pub open spec fn is_record_type(byte: u8) -> bool {
    20 <= byte <= 24 || byte == 26
}

/// Reading the header of a full record gives the fields where they stand. It succeeds
/// on headers that are all there, of a known content type and a version 0x03XX or 0xfeXX,
/// with a length below 18432 that is not zero but for application data.
pub proof fn law_record_header_is_read(bytes: Seq<u8>)
    ensures
        ({
            let result = record_header(bytes);
            let len = number_at(bytes, 11, 2);
            let known = is_record_type(bytes[0]);
            let plausible = bytes[1] == 3 || bytes[1] == 0xfe;
            &&& bytes.len() == 0 ==> result == Err::<DtlsMessageHeader, RecordError>(RecordError::TooShortForHeader)
            &&& bytes.len() >= 1 && !known ==> result == Err::<DtlsMessageHeader, RecordError>(
                RecordError::InvalidContentType,
            )
            &&& 1 <= bytes.len() < 3 && known ==> result == Err::<DtlsMessageHeader, RecordError>(
                RecordError::TooShortForHeader,
            )
            &&& bytes.len() >= 3 && known && !plausible ==> result == Err::<DtlsMessageHeader, RecordError>(
                RecordError::UnknownProtocolVersion,
            )
            &&& 3 <= bytes.len() < 13 && known && plausible ==> result == Err::<DtlsMessageHeader, RecordError>(
                RecordError::TooShortForHeader,
            )
            &&& bytes.len() >= 13 && known && plausible ==> if len == 0 && bytes[0] != 23 {
                result == Err::<DtlsMessageHeader, RecordError>(RecordError::InvalidEmptyPayload)
            } else if len >= 18432 {
                result == Err::<DtlsMessageHeader, RecordError>(RecordError::MessageTooLarge)
            } else {
                &&& result matches Ok(header)
                &&& header.typ.code() == bytes[0]
                &&& header.version.code() == number_at(bytes, 1, 2)
                &&& header.epoch.number == number_at(bytes, 3, 2)
                &&& header.sequence.0 == number_at(bytes, 5, 6)
                &&& header.len == len
                &&& record_header_progress(bytes) == 13
            }
        }),
{
    lemma_pow256_values();
    if bytes.len() >= 3 {
        law_numbers_are_big_endian(bytes, 1, 2);
        reveal_with_fuel(number_at, 3);
    }
    if bytes.len() >= 13 {
        law_numbers_are_big_endian(bytes, 3, 2);
        law_numbers_are_big_endian(bytes, 5, 6);
        law_numbers_are_big_endian(bytes, 11, 2);
    }
}

/// The fields of the header on a handshake fragment: the type in the first byte, the
/// length of the message in three bytes, its sequence number in two, and the offset and
/// the length of the fragment in three each. The fragment follows.
pub proof fn law_handshake_header_fields(fragment: HandshakeFragment)
    requires
        fragment.length <= 0xff_ffff,
        fragment.fragment_offset <= 0xff_ffff,
        fragment.fragment_length <= 0xff_ffff,
    ensures
        ({
            let bytes = fragment.encoding();
            &&& bytes.len() == 12 + fragment.fragment.len()
            &&& bytes[0] == fragment.msg_type.code()
            &&& number_at(bytes, 1, 3) == fragment.length
            &&& number_at(bytes, 4, 2) == fragment.message_seq
            &&& number_at(bytes, 6, 3) == fragment.fragment_offset
            &&& number_at(bytes, 9, 3) == fragment.fragment_length
            &&& bytes.skip(12) == fragment.fragment
        }),
{
    broadcast use lemma_be_bytes_len;

    lemma_pow256_values();
    lemma_handshake_header_len(fragment);
    let bytes = fragment.encoding();
    assert(bytes.subrange(1, 4) =~= be_bytes(fragment.length as nat, 3));
    assert(bytes.subrange(4, 6) =~= be_bytes(fragment.message_seq as nat, 2));
    assert(bytes.subrange(6, 9) =~= be_bytes(fragment.fragment_offset as nat, 3));
    assert(bytes.subrange(9, 12) =~= be_bytes(fragment.fragment_length as nat, 3));
    lemma_written_at(bytes, 1, fragment.length as nat, 3);
    lemma_written_at(bytes, 4, fragment.message_seq as nat, 2);
    lemma_written_at(bytes, 6, fragment.fragment_offset as nat, 3);
    lemma_written_at(bytes, 9, fragment.fragment_length as nat, 3);
    assert(bytes.skip(12) =~= fragment.fragment);
}

/// Reading a handshake fragment gives the fields where they stand, and succeeds if and
/// only if the header and as many bytes as it says are there.
pub proof fn law_handshake_fragment_is_read(bytes: Seq<u8>)
    ensures
        ({
            let result = HandshakeFragment::of(bytes);
            let len = number_at(bytes, 9, 3);
            &&& bytes.len() < 12 ==> result == Err::<HandshakeFragment, InvalidMessage>(
                InvalidMessage::MissingData(
                    if bytes.len() == 0 {
                        "HandshakeType"
                    } else if 4 <= bytes.len() < 6 {
                        "u16"
                    } else {
                        "u24"
                    },
                ),
            )
            &&& 12 <= bytes.len() < 12 + len ==> result == Err::<HandshakeFragment, InvalidMessage>(
                InvalidMessage::MessageTooShort,
            )
            &&& bytes.len() >= 12 && bytes.len() >= 12 + len ==> {
                &&& result matches Ok(fragment)
                &&& fragment.msg_type.code() == bytes[0]
                &&& fragment.length == number_at(bytes, 1, 3)
                &&& fragment.message_seq == number_at(bytes, 4, 2)
                &&& fragment.fragment_offset == number_at(bytes, 6, 3)
                &&& fragment.fragment_length == len
                &&& fragment.fragment == bytes.subrange(12, 12 + len)
                &&& HandshakeFragment::progress(bytes) == 12 + len
            }
        }),
{
    lemma_pow256_values();
    if bytes.len() >= 12 {
        law_numbers_are_big_endian(bytes, 1, 3);
        law_numbers_are_big_endian(bytes, 4, 2);
        law_numbers_are_big_endian(bytes, 6, 3);
        law_numbers_are_big_endian(bytes, 9, 3);
    }
}

/// Every record number takes 16 bytes, of which eight are the epoch and eight the
/// sequence number.
proof fn lemma_ack_entry_fields(records: Seq<AckRecordSequenceNumber>, i: int)
    requires
        0 <= i < records.len(),
    ensures
        ack_entries(records).len() == 16 * records.len(),
        number_at(ack_entries(records), 16 * i, 8) == records[i].epoch.number,
        number_at(ack_entries(records), 16 * i + 8, 8) == records[i].seq.0,
    decreases records.len(),
{
    broadcast use lemma_be_bytes_len;

    lemma_pow256_values();
    let front = records.drop_last();
    let all = ack_entries(records);
    if front.len() > 0 {
        lemma_ack_entry_fields(front, if i < front.len() {
            i
        } else {
            0
        });
    }
    assert(ack_entries(front).len() == 16 * front.len());
    if i < front.len() {
        assert forall|k: int| 0 <= k < 8 implies #[trigger] all[16 * i + k] == ack_entries(
            front,
        )[16 * i + k] by {}
        lemma_number_in_part(all, ack_entries(front), 16 * i, 16 * i, 8);
        assert forall|k: int| 0 <= k < 8 implies #[trigger] all[(16 * i + 8) + k] == ack_entries(
            front,
        )[(16 * i + 8) + k] by {}
        lemma_number_in_part(all, ack_entries(front), 16 * i + 8, 16 * i + 8, 8);
    } else {
        let record = records[i];
        assert(all.subrange(16 * i, 16 * i + 8) =~= be_bytes(record.epoch.number as nat, 8));
        assert(all.subrange(16 * i + 8, 16 * i + 16) =~= be_bytes(record.seq.0 as nat, 8));
        lemma_written_at(all, 16 * i, record.epoch.number as nat, 8);
        lemma_written_at(all, 16 * i + 8, record.seq.0 as nat, 8);
    }
}

/// The fields of an acknowledgement: the length of the record numbers in two bytes, then
/// for each record the epoch and the sequence number in eight bytes each.
pub proof fn law_ack_fields(records: Seq<AckRecordSequenceNumber>)
    requires
        16 * records.len() <= 0xffff,
    ensures
        ({
            let bytes = ack_encoding(records);
            &&& bytes.len() == 2 + 16 * records.len()
            &&& number_at(bytes, 0, 2) == 16 * records.len()
            &&& forall|i: int|
                0 <= i < records.len() ==> number_at(bytes, 2 + 16 * i, 8) == (
                #[trigger] records[i]).epoch.number && number_at(bytes, 10 + 16 * i, 8)
                    == records[i].seq.0
        }),
{
    broadcast use lemma_be_bytes_len;

    lemma_pow256_values();
    let bytes = ack_encoding(records);
    let entries = ack_entries(records);
    assert(bytes.subrange(0, 2) =~= be_bytes(16 * records.len(), 2));
    lemma_written_at(bytes, 0, 16 * records.len(), 2);
    if records.len() > 0 {
        lemma_ack_entry_fields(records, 0);
    }
    assert forall|i: int| 0 <= i < records.len() implies number_at(bytes, 2 + 16 * i, 8) == (
    #[trigger] records[i]).epoch.number && number_at(bytes, 10 + 16 * i, 8) == records[i].seq.0 by {
        lemma_ack_entry_fields(records, i);
        assert forall|k: int| 0 <= k < 8 implies #[trigger] bytes[(2 + 16 * i) + k] == entries[16
            * i + k] by {}
        lemma_number_in_part(bytes, entries, 2 + 16 * i, 16 * i, 8);
        assert forall|k: int| 0 <= k < 8 implies #[trigger] bytes[(10 + 16 * i) + k] == entries[(16
            * i + 8) + k] by {}
        lemma_number_in_part(bytes, entries, 10 + 16 * i, 16 * i + 8, 8);
    }
}

/// Reading an acknowledgement gives the record numbers where they stand. It succeeds if
/// and only if the length is all that is there and a multiple of 16.
pub proof fn law_ack_is_read(bytes: Seq<u8>)
    ensures
        ({
            let result = ack_of(bytes);
            let len = number_at(bytes, 0, 2);
            &&& bytes.len() < 2 ==> result == Err::<Seq<AckRecordSequenceNumber>, InvalidMessage>(
                InvalidMessage::MissingData("u16"),
            )
            &&& 2 <= bytes.len() < 2 + len ==> result == Err::<Seq<AckRecordSequenceNumber>, InvalidMessage>(
                InvalidMessage::MessageTooShort,
            )
            &&& bytes.len() >= 2 && bytes.len() >= 2 + len && len % 16 != 0
                ==> result == Err::<
                Seq<AckRecordSequenceNumber>,
                InvalidMessage,
            >(InvalidMessage::MissingData("u64"))
            &&& bytes.len() >= 2 && bytes.len() > 2 + len && len % 16 == 0
                ==> result == Err::<
                Seq<AckRecordSequenceNumber>,
                InvalidMessage,
            >(InvalidMessage::TrailingData("Ack"))
            &&& bytes.len() >= 2 && bytes.len() == 2 + len && len % 16 == 0 ==> {
                &&& result matches Ok(records)
                &&& 16 * records.len() == len
                &&& forall|i: int|
                    0 <= i < records.len() ==> (#[trigger] records[i]).epoch.number == number_at(
                        bytes,
                        2 + 16 * i,
                        8,
                    ) && records[i].seq.0 == number_at(bytes, 10 + 16 * i, 8)
            }
        }),
{
    lemma_pow256_values();
    if bytes.len() >= 2 {
        law_numbers_are_big_endian(bytes, 0, 2);
        assert(bytes.subrange(0, 2) =~= bytes.take(2));
        let len = number_at(bytes, 0, 2);
        if bytes.len() == 2 + len && len % 16 == 0 {
            let body = bytes.skip(2);
            let records = ack_records(body);
            assert forall|i: int| 0 <= i < records.len() implies (
            #[trigger] records[i]).epoch.number == number_at(bytes, 2 + 16 * i, 8)
                && records[i].seq.0 == number_at(bytes, 10 + 16 * i, 8) by {
                let entry = body.subrange(16 * i, 16 * i + 16);
                assert(entry.subrange(0, 8) =~= bytes.subrange(2 + 16 * i, 2 + 16 * i + 8));
                assert(entry.subrange(8, 16) =~= bytes.subrange(10 + 16 * i, 10 + 16 * i + 8));
                law_numbers_are_big_endian(bytes, 2 + 16 * i, 8);
                law_numbers_are_big_endian(bytes, 10 + 16 * i, 8);
            }
        }
    }
}

/// The bits in the first byte of a unified header, from the most significant one on: 0, 0,
/// 1, whether there is a connection ID, whether the sequence number has two bytes, whether
/// there is a length, and the low two bits of the epoch.
pub proof fn law_unified_header_bits(byte: u8)
    ensures
        has_fixed_bits(byte) <==> byte / 32 == 1,
        has_c_bit(byte) <==> (byte / 16) % 2 == 1,
        has_s_bit(byte) <==> (byte / 8) % 2 == 1,
        has_l_bit(byte) <==> (byte / 4) % 2 == 1,
        epoch_bits(byte) == byte % 4,
        has_connection_id(seq![byte]) <==> 0x30 <= byte < 0x40,
{
    assert(byte & 0b1110_0000 == 0b0010_0000 <==> byte / 32 == 1) by (bit_vector);
    assert(byte & 0b0001_0000 != 0 <==> (byte / 16) % 2 == 1) by (bit_vector);
    assert(byte & 0b0000_1000 != 0 <==> (byte / 8) % 2 == 1) by (bit_vector);
    assert(byte & 0b0000_0100 != 0 <==> (byte / 4) % 2 == 1) by (bit_vector);
    assert(byte & 0b0000_0011 == byte % 4) by (bit_vector);
}

/// The fields of a unified header as it is written: always with a sequence number of two
/// bytes and without a connection ID, and with a length if there is one. What lies behind
/// the header is left alone.
pub proof fn law_unified_header_fields(
    header: UnifiedHeader<TruncatedRecordSequenceNumber>,
    old: Seq<u8>,
)
    requires
        header.epoch.number <= 3,
        header.sequence.long_encoding,
        old.len() >= 5,
    ensures
        ({
            let bytes = header.written(old);
            let with_length = if header.length is Some {
                4int
            } else {
                0
            };
            &&& bytes.len() == old.len()
            &&& bytes[0] == 32 + 8 + with_length + header.epoch.number
            &&& bytes[1] == header.sequence.truncated@[0]
            &&& bytes[2] == header.sequence.truncated@[1]
            &&& header.length matches Some(length) ==> number_at(bytes, 3, 2) == length
                && bytes.skip(5) == old.skip(5)
            &&& header.length is None ==> bytes.skip(3) == old.skip(3)
        }),
{
    broadcast use lemma_be_bytes_len;

    lemma_pow256_values();
    let bytes = header.written(old);
    let low = header.epoch.number as u8;
    assert(low <= 3 ==> 0x20u8 | 0x08u8 | 0x04u8 | low == 44 + low) by (bit_vector);
    assert(low <= 3 ==> 0x20u8 | 0x08u8 | low == 40 + low) by (bit_vector);
    match header.length {
        Some(length) => {
            assert(bytes.subrange(3, 5) =~= be_bytes(length as nat, 2));
            lemma_written_at(bytes, 3, length as nat, 2);
            assert(bytes.skip(5) =~= old.skip(5));
        },
        None => {
            assert(bytes.skip(3) =~= old.skip(3));
        },
    }
}

/// Reading a unified header gives the fields where they stand, and succeeds if and only if
/// the first three bits are 0, 0 and 1 and the whole header is there. Of all epochs with the
/// low bits in the header, it stands for the one nearest to the current epoch. Of two that
/// are equally near it is the one that differs from the current epoch in no other bits.
pub proof fn law_unified_header_is_read(bytes: Seq<u8>, current: Epoch, other: Epoch)
    requires
        bytes.len() > 0,
    ensures
        ({
            let result = unified_header(bytes, current);
            let first = bytes[0];
            let long = (first / 8) % 2 == 1;
            let number_len: int = if long {
                2
            } else {
                1
            };
            let size: int = 1 + number_len + if (first / 4) % 2 == 1 {
                2int
            } else {
                0
            };
            &&& first / 32 != 1 ==> result == Err::<UnifiedHeaderFields, InvalidMessage>(
                InvalidMessage::InvalidDtls13UnifiedHeader,
            )
            &&& first / 32 == 1 && bytes.len() < size
                ==> (result matches Err(InvalidMessage::MissingData(_)))
            &&& first / 32 == 1 && bytes.len() >= size ==> {
                &&& result matches Ok(fields)
                &&& fields.long_encoding == long
                &&& fields.protected.len() == 2
                &&& fields.protected[0] == bytes[1]
                &&& fields.protected[1] == if long {
                    bytes[2]
                } else {
                    0
                }
                &&& fields.length is Some <==> (first / 4) % 2 == 1
                &&& fields.length matches Some(length) ==> length == number_at(
                    bytes,
                    1 + number_len,
                    2,
                )
                &&& fields.epoch.number % 4 == first % 4
                &&& other.number % 4 == first % 4 ==> {
                    let far = if other.number < current.number {
                        current.number - other.number
                    } else {
                        other.number - current.number
                    };
                    &&& current.number - far <= fields.epoch.number <= current.number + far
                    &&& far <= 1 ==> fields.epoch == other
                    &&& fields.epoch.number == current.number - far || fields.epoch.number
                        == current.number + far ==> fields.epoch == other || fields.epoch.number / 4
                        == current.number / 4
                }
                &&& unified_header_progress(bytes) == size
            }
        }),
{
    lemma_pow256_values();
    law_unified_header_bits(bytes[0]);
    let number_end: int = if has_s_bit(bytes[0]) {
        3
    } else {
        2
    };
    if bytes.len() >= number_end + 2 {
        law_numbers_are_big_endian(bytes, number_end, 2);
    }
}

/// A sequence number is written over the first two bytes, or over the first byte, and what
/// lies behind is left alone. Of a number of one byte, the other byte is zero.
pub proof fn law_number_is_written(number: Seq<u8>, long_encoding: bool, old: Seq<u8>)
    requires
        number.len() == 2,
        old.len() >= 1,
        long_encoding ==> old.len() >= 2,
    ensures
        ({
            let bytes = number_written(number, long_encoding, old);
            let size: int = if long_encoding {
                2
            } else {
                1
            };
            &&& bytes.len() == old.len()
            &&& forall|i: int| 0 <= i < size ==> #[trigger] bytes[i] == number[i]
            &&& forall|i: int| size <= i < old.len() ==> #[trigger] bytes[i] == old[i]
        }),
        padded(number, long_encoding).len() == 2,
        padded(number, long_encoding)[0] == number[0],
        padded(number, long_encoding)[1] == if long_encoding {
            number[1]
        } else {
            0
        },
{
}

/// Truncating keeps the low 16 bits.
pub proof fn law_low_bits_are_kept(
    full: FullRecordSequenceNumber,
    truncated: TruncatedRecordSequenceNumber,
)
    requires
        full.truncates_to(truncated),
    ensures
        truncated.long_encoding,
        truncated.truncated@[0] * 256 + truncated.truncated@[1] == full.0 % 0x1_0000,
{
    reveal_with_fuel(be_bytes, 3);
}

/// A reconstructed sequence number has the low bits that were received, and none that has
/// them is closer to the one that is expected next. Where another one is as close, it
/// differs from the highest one so far in the low bits alone. This holds of numbers of one
/// byte and of two.
pub proof fn law_reconstruction_is_closest(
    truncated: TruncatedRecordSequenceNumber,
    highest: u64,
    full: u64,
    other: u64,
)
    requires
        truncated.reconstructs_to(highest, full),
        truncated.long_encoding ==> other % 0x1_0000 == truncated.truncated@[0] * 256
            + truncated.truncated@[1],
        !truncated.long_encoding ==> other % 0x100 == truncated.truncated@[0],
    ensures
        truncated.long_encoding ==> full % 0x1_0000 == truncated.truncated@[0] * 256
            + truncated.truncated@[1],
        !truncated.long_encoding ==> full % 0x100 == truncated.truncated@[0],
        ({
            let far = if other <= highest {
                highest + 1 - other
            } else {
                other - highest - 1
            };
            &&& highest + 1 - far <= full <= highest + 1 + far
            &&& other != full && (full == highest + 1 - far || full == highest + 1 + far)
                ==> if truncated.long_encoding {
                full / 0x1_0000 == highest / 0x1_0000
            } else {
                full / 0x100 == highest / 0x100
            }
        }),
{
    assert(truncated.is_truncation_of(other));
}

/// A header that says what fields say has all of them, and no connection ID.
pub proof fn law_header_says_all_fields(
    header: UnifiedHeader<ProtectedRecordSequenceNumber>,
    fields: UnifiedHeaderFields,
)
    requires
        header.says(fields),
    ensures
        header.connection_id@.len() == 0,
        header.epoch == fields.epoch,
        header.sequence.protected@ == fields.protected,
        header.sequence.long_encoding == fields.long_encoding,
        header.length == fields.length,
{
}

/// How far reading the header of a full record gets. Fields are read one after the other:
/// the content type, the version, the epoch, the sequence number and the length. It stops in
/// front of a field that is not all there, and behind one that is refused.
pub proof fn law_record_header_is_read_field_by_field(bytes: Seq<u8>)
    ensures
        ({
            let known = is_record_type(bytes[0]);
            let plausible = bytes[1] == 3 || bytes[1] == 0xfe;
            let progress = record_header_progress(bytes);
            &&& bytes.len() == 0 ==> progress == 0
            &&& bytes.len() >= 1 && (!known || bytes.len() < 3) ==> progress == 1
            &&& bytes.len() >= 3 && known && (!plausible || bytes.len() < 5) ==> progress == 3
            &&& 5 <= bytes.len() < 11 && known && plausible ==> progress == 5
            &&& 11 <= bytes.len() < 13 && known && plausible ==> progress == 11
            &&& bytes.len() >= 13 && known && plausible ==> progress == 13
        }),
{
    lemma_pow256_values();
    if bytes.len() >= 3 {
        law_numbers_are_big_endian(bytes, 1, 2);
        reveal_with_fuel(number_at, 3);
    }
}

/// How far reading a handshake fragment gets, and where its fragment ends: it stops in front
/// of a field that is not all there.
pub proof fn law_handshake_fragment_is_read_field_by_field(bytes: Seq<u8>)
    ensures
        ({
            let progress = HandshakeFragment::progress(bytes);
            let len = number_at(bytes, 9, 3);
            &&& bytes.len() == 0 ==> progress == 0
            &&& 1 <= bytes.len() < 4 ==> progress == 1
            &&& 4 <= bytes.len() < 6 ==> progress == 4
            &&& 6 <= bytes.len() < 9 ==> progress == 6
            &&& 9 <= bytes.len() < 12 ==> progress == 9
            &&& bytes.len() >= 12 && bytes.len() < 12 + len ==> progress == 12
            &&& bytes.len() >= 12 && bytes.len() >= 12 + len ==> progress == 12 + len
        }),
{
    law_handshake_fragment_is_read(bytes);
}

/// How far reading a unified header gets: it stops behind a first byte that is refused, and
/// in front of a byte of the sequence number or a length that is not there.
pub proof fn law_unified_header_is_read_field_by_field(bytes: Seq<u8>)
    requires
        bytes.len() > 0,
    ensures
        ({
            let progress = unified_header_progress(bytes);
            let first = bytes[0];
            let number_end: int = if (first / 8) % 2 == 1 {
                3
            } else {
                2
            };
            let end = number_end + if (first / 4) % 2 == 1 {
                2int
            } else {
                0
            };
            &&& first / 32 != 1 ==> progress == 1
            &&& first / 32 == 1 && bytes.len() < number_end ==> progress == bytes.len()
            &&& first / 32 == 1 && number_end <= bytes.len() < end ==> progress == number_end
            &&& first / 32 == 1 && bytes.len() >= end ==> progress == end
        }),
{
    law_unified_header_bits(bytes[0]);
}

/// A record number is an epoch and a sequence number of eight bytes each, written and read.
pub proof fn law_record_number_fields(record: AckRecordSequenceNumber, bytes: Seq<u8>)
    ensures
        record.encoding().len() == 16,
        number_at(record.encoding(), 0, 8) == record.epoch.number,
        number_at(record.encoding(), 8, 8) == record.seq.0,
        bytes.len() < 8 ==> AckRecordSequenceNumber::progress(bytes) == 0,
        8 <= bytes.len() < 16 ==> AckRecordSequenceNumber::progress(bytes) == 8,
        bytes.len() >= 16 ==> {
            &&& AckRecordSequenceNumber::progress(bytes) == 16
            &&& AckRecordSequenceNumber::of(bytes).epoch.number == number_at(bytes, 0, 8)
            &&& AckRecordSequenceNumber::of(bytes).seq.0 == number_at(bytes, 8, 8)
        },
{
    broadcast use lemma_be_bytes_len;

    lemma_pow256_values();
    let written = record.encoding();
    assert(written.subrange(0, 8) =~= be_bytes(record.epoch.number as nat, 8));
    assert(written.subrange(8, 16) =~= be_bytes(record.seq.0 as nat, 8));
    lemma_written_at(written, 0, record.epoch.number as nat, 8);
    lemma_written_at(written, 8, record.seq.0 as nat, 8);
    if bytes.len() >= 16 {
        law_numbers_are_big_endian(bytes, 0, 8);
        law_numbers_are_big_endian(bytes, 8, 8);
    }
}

} // verus!
