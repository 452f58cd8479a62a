//! What becomes of a record in a buffer, by the bytes that it consists of.

use vstd::prelude::*;

use crate::enums::{ContentType, ProtocolVersion};
use crate::epoch::{Epoch, EpochAndSequence};
use crate::error::{Error, InvalidMessage};
use crate::msgs::codec::lemma_pow256_values;
use crate::msgs::deframer::{
    deframe_outcome, distinct_seqs, encoded_record, input_spans, is_acceptable,
    lemma_encoded_record_head, next_input, record_head, rewritten, without_older, DeframeOutcome,
    Deframed, DeframedFields, DtlsDeframer, FutureEpochDeframed, SequenceFields,
};
use crate::msgs::dtls::RecordSequenceNumber;
use crate::msgs::reassembly::FragmentSpan;
use crate::msgs::wire_laws::{
    law_handshake_fragment_is_read, law_numbers_are_big_endian, law_record_header_is_read,
    law_unified_header_bits, law_unified_header_is_read, lemma_number_in_part, number_at,
};

verus! {

/// A number is the same in part of a buffer.
proof fn lemma_number_in_subrange(buf: Seq<u8>, start: int, end: int, at: int, n: nat)
    requires
        0 <= start <= end <= buf.len(),
        0 <= at,
        at + n <= end - start,
    ensures
        number_at(buf.subrange(start, end), at, n) == number_at(buf, start + at, n),
{
    let part = buf.subrange(start, end);
    assert forall|i: int| 0 <= i < n implies #[trigger] part[at + i] == buf[(start + at) + i] by {}
    lemma_number_in_part(part, buf, at, start + at, n);
}

/// Whether the bytes at `start` are the header of a full record that is read without an
/// error.
pub open spec fn has_full_header(buf: Seq<u8>, start: int) -> bool {
    &&& 0 <= start
    &&& start + 13 <= buf.len()
    &&& 20 <= buf[start] <= 24 || buf[start] == 26
    &&& buf[start + 1] == 0x03 || buf[start + 1] == 0xfe
    &&& number_at(buf, start + 11, 2) < 18432
    &&& number_at(buf, start + 11, 2) > 0 || buf[start] == 23
}

/// How many bytes the unified header takes that begins with `first`.
pub open spec fn unified_size(first: u8) -> int {
    1 + (if (first / 8) % 2 == 1 {
        2int
    } else {
        1
    }) + (if (first / 4) % 2 == 1 {
        2int
    } else {
        0
    })
}

/// Whether the bytes at `start` are a whole unified header.
pub open spec fn has_unified_header(buf: Seq<u8>, start: int) -> bool {
    &&& 0 <= start < buf.len()
    &&& buf[start] / 32 == 1
    &&& start + unified_size(buf[start]) <= buf.len()
}

/// Where the record ends that begins with a unified header at `start`.
pub open spec fn unified_end(buf: Seq<u8>, start: int) -> int {
    let size = unified_size(buf[start]);
    if (buf[start] / 4) % 2 == 1 {
        start + size + number_at(buf, start + size - 2, 2)
    } else {
        buf.len() as int
    }
}

/// What the header of a full record says.
proof fn lemma_full_head(buf: Seq<u8>, start: int, end: int, current: Epoch)
    requires
        has_full_header(buf, start),
        start + 13 <= end <= buf.len(),
    ensures
        record_head(buf.subrange(start, end), current) matches Some(Ok(head)) && {
            &&& head.typ.code() == buf[start]
            &&& head.version.code() == number_at(buf, start + 1, 2)
            &&& head.epoch.number == number_at(buf, start + 3, 2)
            &&& head.record_seq == SequenceFields::Full(number_at(buf, start + 5, 6) as u64)
            &&& 0 <= number_at(buf, start + 5, 6) <= 0xffff_ffff_ffff
            &&& head.len == Some(number_at(buf, start + 11, 2) as u16)
            &&& head.size == 13
        },
        0 <= number_at(buf, start + 11, 2),
        buf[start] / 32 != 1,
{
    let input = buf.subrange(start, end);
    law_unified_header_bits(input[0]);
    law_record_header_is_read(input);
    lemma_number_in_subrange(buf, start, end, 1, 2);
    lemma_number_in_subrange(buf, start, end, 3, 2);
    lemma_number_in_subrange(buf, start, end, 5, 6);
    lemma_number_in_subrange(buf, start, end, 11, 2);
    lemma_pow256_values();
    law_numbers_are_big_endian(input, 5, 6);
}

/// What a unified header says.
proof fn lemma_unified_head(buf: Seq<u8>, start: int, end: int, current: Epoch, other: Epoch)
    requires
        has_unified_header(buf, start),
        start + unified_size(buf[start]) <= end <= buf.len(),
    ensures
        record_head(buf.subrange(start, end), current) matches Some(Ok(head)) && {
            &&& head.typ.code() == 23
            &&& head.version.code() == 0xfefc
            &&& head.epoch.number % 4 == buf[start] % 4
            &&& other.number % 4 == buf[start] % 4 && other.number <= current.number + 1
                && current.number <= other.number + 1 ==> head.epoch == other
            &&& head.record_seq == (SequenceFields::Protected {
                bytes: seq![
                    buf[start + 1],
                    if (buf[start] / 8) % 2 == 1 {
                        buf[start + 2]
                    } else {
                        0
                    },
                ],
                long_encoding: (buf[start] / 8) % 2 == 1,
            })
            &&& head.len == if (buf[start] / 4) % 2 == 1 {
                Some(number_at(buf, start + unified_size(buf[start]) - 2, 2) as u16)
            } else {
                None
            }
            &&& head.size == unified_size(buf[start])
        },
        (buf[start] / 4) % 2 == 1 ==> 0 <= number_at(
            buf,
            start + unified_size(buf[start]) - 2,
            2,
        ) <= 0xffff,
{
    let input = buf.subrange(start, end);
    let first = input[0];
    let size = unified_size(first);
    law_unified_header_bits(first);
    law_unified_header_is_read(input, current, other);
    lemma_pow256_values();
    if (first / 4) % 2 == 1 {
        lemma_number_in_subrange(buf, start, end, size - 2, 2);
        law_numbers_are_big_endian(input, size - 2, 2);
    }
    assert(record_head(input, current)->Some_0->Ok_0.record_seq->bytes =~= seq![
        buf[start + 1],
        if (buf[start] / 8) % 2 == 1 {
            buf[start + 2]
        } else {
            0
        },
    ]);
}

/// Nothing is dropped of records that are all from later epochs.
proof fn lemma_later_records_stay(records: Seq<FutureEpochDeframed>, current: Epoch)
    requires
        forall|i: int|
            0 <= i < records.len() ==> (#[trigger] records[i]).epoch.number > current.number,
    ensures
        without_older(records, current) == records,
{
    if records.len() > 0 {
        assert(records[0].epoch.number > current.number);
    }
}

/// Records that were kept are dropped once their epoch is over: those at the front, up to
/// the first one of the current epoch or a later one.
pub proof fn law_records_of_past_epochs_are_dropped(
    records: Seq<FutureEpochDeframed>,
    n: int,
    processed: int,
    discard: int,
    buf: Seq<u8>,
    current: Epoch,
)
    requires
        0 <= n <= records.len(),
        forall|i: int| 0 <= i < n ==> (#[trigger] records[i]).epoch.number < current.number,
        n < records.len() ==> records[n].epoch.number >= current.number,
    ensures
        without_older(records, current) == records.skip(n),
        deframe_outcome(records, processed, discard, buf, current) == deframe_outcome(
            records.skip(n),
            processed,
            discard,
            buf,
            current,
        ),
    decreases n,
{
    if n > 0 {
        assert(records[0].epoch.number < current.number);
        assert forall|i: int| 0 <= i < n - 1 implies (#[trigger] records.skip(1)[i]).epoch.number
            < current.number by {
            assert(records[i + 1].epoch.number < current.number);
        }
        law_records_of_past_epochs_are_dropped(
            records.skip(1),
            n - 1,
            processed,
            discard,
            buf,
            current,
        );
        assert(records.skip(1).skip(n - 1) =~= records.skip(n));
    } else {
        assert(records.skip(0) =~= records);
    }
    let live = records.skip(n);
    assert(without_older(live, current) == live);
}

/// A record that is handed out is of the current epoch, and is as it lies in the buffer:
/// its header says that epoch, and its header and payload are the bytes between its bounds.
pub proof fn law_deframed_record_is_of_current_epoch(
    records: Seq<FutureEpochDeframed>,
    processed: int,
    discard: int,
    buf: Seq<u8>,
    current: Epoch,
)
    requires
        0 <= processed,
    ensures
        deframe_outcome(records, processed, discard, buf, current).result matches Some(Ok(fields))
            ==> {
            &&& fields.epoch == current
            &&& 0 <= fields.start < fields.end <= buf.len()
            &&& fields.header + fields.payload == buf.subrange(fields.start, fields.end)
            &&& if buf[fields.start] / 32 == 1 {
                &&& fields.typ.code() == 23
                &&& fields.version.code() == 0xfefc
                &&& buf[fields.start] % 4 == current.number % 4
                &&& fields.header.len() == unified_size(buf[fields.start])
                &&& fields.record_seq == (SequenceFields::Protected {
                    bytes: seq![
                        buf[fields.start + 1],
                        if (buf[fields.start] / 8) % 2 == 1 {
                            buf[fields.start + 2]
                        } else {
                            0
                        },
                    ],
                    long_encoding: (buf[fields.start] / 8) % 2 == 1,
                })
            } else {
                &&& fields.typ.code() == buf[fields.start]
                &&& fields.version.code() == number_at(buf, fields.start + 1, 2)
                &&& number_at(buf, fields.start + 3, 2) == current.number
                &&& fields.header.len() == 13
                &&& fields.record_seq == SequenceFields::Full(
                    number_at(buf, fields.start + 5, 6) as u64,
                )
            }
            &&& deframe_outcome(records, processed, discard, buf, current).discard == discard
        },
{
    let outcome = deframe_outcome(records, processed, discard, buf, current);
    if let Some(Ok(fields)) = outcome.result {
        let next = next_input(records, processed, buf, current);
        let input = buf.subrange(next.start, next.end);
        law_record_header_is_read(input);
        if input.len() > 0 {
            law_unified_header_bits(input[0]);
            law_unified_header_is_read(input, current, current);
        }
        assert(input.len() > 0);
        if input[0] / 32 == 1 {
            lemma_unified_head(buf, next.start, next.end, current, current);
        } else {
            lemma_number_in_subrange(buf, next.start, next.end, 11, 2);
            lemma_full_head(buf, next.start, next.end, current);
        }
        assert(fields.header + fields.payload =~= buf.subrange(fields.start, fields.end));
    }
}

/// What becomes of the next whole record with a full header depends on the epoch in its
/// header. One of the current epoch is handed out. One of the very next epoch is kept. Any
/// other is passed over: nothing of it is handed out or kept, and it is discarded.
pub proof fn law_full_record_by_epoch(
    records: Seq<FutureEpochDeframed>,
    processed: int,
    discard: int,
    buf: Seq<u8>,
    current: Epoch,
)
    requires
        forall|i: int|
            0 <= i < records.len() ==> (#[trigger] records[i]).epoch.number > current.number,
        has_full_header(buf, processed),
        processed + 13 + number_at(buf, processed + 11, 2) <= buf.len() <= usize::MAX,
    ensures
        ({
            let outcome = deframe_outcome(records, processed, discard, buf, current);
            let epoch = number_at(buf, processed + 3, 2);
            let end = processed + 13 + number_at(buf, processed + 11, 2);
            &&& outcome.processed == end
            &&& if epoch == current.number {
                &&& outcome.records == records
                &&& outcome.discard == discard
                &&& outcome.result matches Some(Ok(fields))
                &&& fields.typ.code() == buf[processed]
                &&& fields.version.code() == number_at(buf, processed + 1, 2)
                &&& fields.header == buf.subrange(processed, processed + 13)
                &&& fields.payload == buf.subrange(processed + 13, end)
                &&& fields.start == processed
                &&& fields.end == end
                &&& fields.epoch == current
                &&& fields.record_seq == SequenceFields::Full(
                    number_at(buf, processed + 5, 6) as u64,
                )
            } else if epoch == current.number + 1 {
                &&& outcome.result is None
                &&& outcome.discard == discard
                &&& outcome.records.len() == records.len() + 1
                &&& outcome.records.drop_last() == records
                &&& outcome.records.last().bounds.start == processed
                &&& outcome.records.last().bounds.end == end
                &&& outcome.records.last().epoch.number == current.number + 1
            } else {
                &&& outcome.result is None
                &&& outcome.discard == end
                &&& outcome.records == records
            }
        }),
{
    lemma_later_records_stay(records, current);
    if records.len() > 0 {
        assert(records[0].epoch.number > current.number);
    }
    lemma_full_head(buf, processed, buf.len() as int, current);
    let outcome = deframe_outcome(records, processed, discard, buf, current);
    if outcome.records != records {
        assert(outcome.records.drop_last() =~= records);
    }
}

/// What becomes of the next whole record with a unified header depends on the low two bits
/// of the epoch in its first byte. One with those of the current epoch is handed out. One
/// with those of the very next epoch is kept. Any other is passed over: nothing of it is
/// handed out or kept, and it is discarded.
pub proof fn law_unified_record_by_epoch(
    records: Seq<FutureEpochDeframed>,
    processed: int,
    discard: int,
    buf: Seq<u8>,
    current: Epoch,
)
    requires
        forall|i: int|
            0 <= i < records.len() ==> (#[trigger] records[i]).epoch.number > current.number,
        has_unified_header(buf, processed),
        unified_end(buf, processed) <= buf.len() <= usize::MAX,
    ensures
        ({
            let outcome = deframe_outcome(records, processed, discard, buf, current);
            let first = buf[processed];
            let size = unified_size(first);
            let end = unified_end(buf, processed);
            &&& outcome.processed == end
            &&& if first % 4 == current.number % 4 {
                &&& outcome.records == records
                &&& outcome.discard == discard
                &&& outcome.result matches Some(Ok(fields))
                &&& fields.typ.code() == 23
                &&& fields.version.code() == 0xfefc
                &&& fields.header == buf.subrange(processed, processed + size)
                &&& fields.payload == buf.subrange(processed + size, end)
                &&& fields.start == processed
                &&& fields.end == end
                &&& fields.epoch == current
                &&& fields.record_seq == (SequenceFields::Protected {
                    bytes: seq![
                        buf[processed + 1],
                        if (first / 8) % 2 == 1 {
                            buf[processed + 2]
                        } else {
                            0
                        },
                    ],
                    long_encoding: (first / 8) % 2 == 1,
                })
            } else if first as int % 4 == (current.number + 1) % 4 && current.number < u64::MAX {
                &&& outcome.result is None
                &&& outcome.discard == discard
                &&& outcome.records.len() == records.len() + 1
                &&& outcome.records.drop_last() == records
                &&& outcome.records.last().bounds.start == processed
                &&& outcome.records.last().bounds.end == end
                &&& outcome.records.last().epoch.number == current.number + 1
            } else {
                &&& outcome.result is None
                &&& outcome.discard == end
                &&& outcome.records == records
            }
        }),
{
    lemma_later_records_stay(records, current);
    if records.len() > 0 {
        assert(records[0].epoch.number > current.number);
    }
    lemma_unified_head(buf, processed, buf.len() as int, current, current);
    let next = Epoch { number: (current.number + 1) as u64 };
    if current.number < u64::MAX {
        lemma_unified_head(buf, processed, buf.len() as int, current, next);
    }
    let outcome = deframe_outcome(records, processed, discard, buf, current);
    if outcome.records != records {
        assert(outcome.records.drop_last() =~= records);
    }
}

/// A plaintext record of an epoch that is neither the current one nor the very next is
/// discarded, wherever it lies in the buffer: nothing is handed out, nothing of it is kept,
/// and the buffer is processed and may be discarded up to its end.
pub proof fn law_record_of_other_epoch_is_discarded(
    records: Seq<FutureEpochDeframed>,
    typ: ContentType,
    version: ProtocolVersion,
    es: EpochAndSequence,
    payload: Seq<u8>,
    before: Seq<u8>,
    behind: Seq<u8>,
    discard: int,
    current: Epoch,
)
    requires
        forall|i: int|
            0 <= i < records.len() ==> (#[trigger] records[i]).epoch.number > current.number,
        is_acceptable(typ, version, es, payload),
        es.epoch != current.number,
        es.epoch != current.number + 1,
    ensures
        ({
            let record = encoded_record(typ, version, es, payload);
            let start = before.len() as int;
            let outcome = deframe_outcome(
                records,
                start,
                discard,
                before + record + behind,
                current,
            );
            &&& outcome.result is None
            &&& outcome.records == records
            &&& outcome.processed == start + record.len()
            &&& outcome.discard == start + record.len()
        }),
{
    lemma_later_records_stay(records, current);
    if records.len() > 0 {
        assert(records[0].epoch.number > current.number);
    }
    let record = encoded_record(typ, version, es, payload);
    let buf = before + record + behind;
    let start = before.len() as int;
    lemma_encoded_record_head(typ, version, es, payload, behind, current);
    assert(buf.subrange(start, buf.len() as int) =~= record + behind);
}

/// A record that was kept is handed out when its epoch has come, before anything that is
/// not yet processed: it is the bytes between its bounds, and is not kept any longer.
pub proof fn law_kept_record_comes_first(
    records: Seq<FutureEpochDeframed>,
    processed: int,
    discard: int,
    buf: Seq<u8>,
    current: Epoch,
)
    requires
        records.len() > 0,
        records[0].epoch == current,
        records[0].bounds.start <= records[0].bounds.end <= buf.len(),
        ({
            let start = records[0].bounds.start as int;
            let end = records[0].bounds.end as int;
            ||| has_full_header(buf, start) && start + 13 <= end && number_at(buf, start + 3, 2)
                == current.number
            ||| has_unified_header(buf, start) && start + unified_size(buf[start]) <= end
                && buf[start] % 4 == current.number % 4
        }),
    ensures
        ({
            let outcome = deframe_outcome(records, processed, discard, buf, current);
            let start = records[0].bounds.start as int;
            let end = records[0].bounds.end as int;
            let size = if buf[start] / 32 == 1 {
                unified_size(buf[start])
            } else {
                13
            };
            &&& outcome.records == records.skip(1)
            &&& outcome.processed == processed
            &&& outcome.discard == discard
            &&& outcome.result matches Some(Ok(fields))
            &&& fields.start == start
            &&& fields.end == end
            &&& fields.header == buf.subrange(start, start + size)
            &&& fields.payload == buf.subrange(start + size, end)
            &&& fields.epoch == current
        }),
{
    let start = records[0].bounds.start as int;
    let end = records[0].bounds.end as int;
    assert(without_older(records, current) == records);
    if buf[start] / 32 == 1 {
        lemma_unified_head(buf, start, end, current, current);
    } else {
        lemma_full_head(buf, start, end, current);
    }
}

/// A record that is not all there yet is waited for: nothing is handed out, and everything
/// stays as it is.
pub proof fn law_incomplete_record_waits(
    records: Seq<FutureEpochDeframed>,
    processed: int,
    discard: int,
    buf: Seq<u8>,
    current: Epoch,
)
    requires
        forall|i: int|
            0 <= i < records.len() ==> (#[trigger] records[i]).epoch.number > current.number,
        0 <= processed,
        ({
            let left = buf.len() - processed;
            let first = buf[processed];
            let is_full = 20 <= first <= 24 || first == 26;
            let is_plausible = buf[processed + 1] == 0x03 || buf[processed + 1] == 0xfe;
            ||| left <= 0
            ||| left < 3 && is_full
            ||| left < 13 && is_full && is_plausible
            ||| has_full_header(buf, processed) && left < 13 + number_at(buf, processed + 11, 2)
            ||| has_unified_header(buf, processed) && processed + left < unified_end(buf, processed)
        }),
    ensures
        deframe_outcome(records, processed, discard, buf, current) == (DeframeOutcome {
            records,
            processed,
            discard,
            result: None,
        }),
{
    lemma_later_records_stay(records, current);
    if records.len() > 0 {
        assert(records[0].epoch.number > current.number);
    }
    let len = buf.len() as int;
    if processed <= len {
        let input = buf.subrange(processed, len);
        law_record_header_is_read(input);
        if processed < len {
            law_unified_header_bits(input[0]);
            if has_unified_header(buf, processed) {
                lemma_unified_head(buf, processed, len, current, current);
            } else if has_full_header(buf, processed) {
                lemma_full_head(buf, processed, len, current);
            }
        }
    }
}

/// The error that the bytes at `start` lead to, which do not begin a record.
pub open spec fn refusal(buf: Seq<u8>, start: int) -> InvalidMessage {
    let first = buf[start];
    if first / 32 == 1 {
        InvalidMessage::MissingData(
            if start + unified_size(first) - (if (first / 4) % 2 == 1 {
                2int
            } else {
                0
            }) <= buf.len() {
                "u16"
            } else {
                "u8"
            },
        )
    } else if !(20 <= first <= 24 || first == 26) {
        InvalidMessage::InvalidContentType
    } else if buf[start + 1] != 0x03 && buf[start + 1] != 0xfe {
        InvalidMessage::UnknownProtocolVersion
    } else if number_at(buf, start + 11, 2) == 0 {
        InvalidMessage::InvalidEmptyPayload
    } else {
        InvalidMessage::MessageTooLarge
    }
}

/// Bytes that do not begin a record are refused, and everything stays as it is: a content
/// type or version that is not known, a payload that is too long or empty though it must
/// not be, and a unified header that is cut short.
pub proof fn law_bad_record_is_refused(
    records: Seq<FutureEpochDeframed>,
    processed: int,
    discard: int,
    buf: Seq<u8>,
    current: Epoch,
)
    requires
        forall|i: int|
            0 <= i < records.len() ==> (#[trigger] records[i]).epoch.number > current.number,
        0 <= processed < buf.len(),
        ({
            let left = buf.len() - processed;
            let first = buf[processed];
            let is_full = 20 <= first <= 24 || first == 26;
            let is_plausible = buf[processed + 1] == 0x03 || buf[processed + 1] == 0xfe;
            let len = number_at(buf, processed + 11, 2);
            ||| first / 32 == 1 && left < unified_size(first)
            ||| first / 32 != 1 && !is_full
            ||| left >= 3 && is_full && !is_plausible
            ||| left >= 13 && is_full && len == 0 && first != 23
            ||| left >= 13 && is_full && len >= 18432
        }),
    ensures
        deframe_outcome(records, processed, discard, buf, current) == (DeframeOutcome {
            records,
            processed,
            discard,
            result: Some(
                Err::<DeframedFields, Error>(Error::InvalidMessage(refusal(buf, processed))),
            ),
        }),
{
    lemma_later_records_stay(records, current);
    if records.len() > 0 {
        assert(records[0].epoch.number > current.number);
    }
    let len = buf.len() as int;
    let input = buf.subrange(processed, len);
    law_unified_header_bits(input[0]);
    law_record_header_is_read(input);
    law_unified_header_is_read(input, current, current);
    if len - processed >= 13 {
        lemma_number_in_subrange(buf, processed, len, 11, 2);
    }
}

/// A record cannot be deframed if it begins with a unified header that has a connection ID,
/// which is seen from its first byte: that of a record of the current epoch that was kept, or
/// else the next byte that is not yet processed.
pub proof fn law_connection_id_is_seen_from_first_byte(
    deframer: DtlsDeframer,
    buf: Seq<u8>,
    current: Epoch,
)
    requires
        ({
            let records = deframer.core.future_epoch_records@;
            ||| records.len() > 0 && records[0].epoch == current && records[0].bounds.start
                < records[0].bounds.end <= buf.len()
            ||| deframer.processed <= buf.len() && forall|i: int|
                0 <= i < records.len() ==> (#[trigger] records[i]).epoch.number > current.number
        }),
    ensures
        ({
            let records = deframer.core.future_epoch_records@;
            let start = if records.len() > 0 && records[0].epoch == current {
                records[0].bounds.start
            } else {
                deframer.processed
            } as int;
            deframer.meets_connection_id(buf, current) <==> start < buf.len() && 0x30 <= buf[start]
                < 0x40
        }),
{
    let records = deframer.core.future_epoch_records@;
    let next = next_input(records, deframer.processed as int, buf, current);
    if records.len() > 0 && records[0].epoch == current {
        assert(without_older(records, current) == records);
    } else {
        lemma_later_records_stay(records, current);
    }
    let input = buf.subrange(next.start, next.end);
    if input.len() > 0 {
        law_unified_header_bits(input[0]);
    }
}

/// A record that has the contents of `fields` has all of them.
pub proof fn law_deframed_record_has_all_fields(deframed: Deframed<'_>, fields: DeframedFields)
    requires
        deframed.has(fields),
    ensures
        deframed.record.typ == fields.typ,
        deframed.record.version.actual() == fields.version,
        old(deframed.record.payload.0)@ == fields.header,
        old(deframed.record.payload.1)@ == fields.payload,
        deframed.bounds.start == fields.start,
        deframed.bounds.end == fields.end,
        deframed.epoch == fields.epoch,
        deframed.record_seq is Some,
        match deframed.record_seq->Some_0 {
            RecordSequenceNumber::Full(full) => fields.record_seq == SequenceFields::Full(full.0),
            RecordSequenceNumber::Protected(protected) => fields.record_seq == (
            SequenceFields::Protected {
                bytes: protected.protected@,
                long_encoding: protected.long_encoding,
            }),
        },
{
}

/// Writing to a record that was taken out of a buffer changes nothing before it and nothing
/// behind it, and what is written stands where the record was.
pub proof fn law_writing_stays_within_record(
    buf: Seq<u8>,
    fields: DeframedFields,
    header: Seq<u8>,
    payload: Seq<u8>,
)
    requires
        0 <= fields.start <= fields.end <= buf.len(),
        fields.header.len() + fields.payload.len() == fields.end - fields.start,
        header.len() == fields.header.len(),
        payload.len() == fields.payload.len(),
    ensures
        ({
            let after = rewritten(buf, fields, header, payload);
            &&& after.len() == buf.len()
            &&& after.subrange(fields.start, fields.start + header.len()) == header
            &&& after.subrange(fields.start + header.len(), fields.end) == payload
            &&& forall|i: int|
                0 <= i < fields.start || fields.end <= i < buf.len() ==> #[trigger] after[i]
                    == buf[i]
        }),
{
    let after = rewritten(buf, fields, header, payload);
    assert(after.subrange(fields.start, fields.start + header.len()) =~= header);
    assert(after.subrange(fields.start + header.len(), fields.end) =~= payload);
}

/// The handshake fragments in a payload are taken in one after the other. Every span has
/// the fields of its header and covers header and fragment, and the next one begins where
/// it ends. Reading stops with an error at a fragment that is not all there, and behind one
/// that goes beyond the end.
pub proof fn law_fragments_are_taken_in(
    version: ProtocolVersion,
    start: int,
    end: int,
    payload: Seq<u8>,
)
    requires
        0 <= start,
        start + payload.len() <= usize::MAX,
    ensures
        ({
            let (spans, error) = input_spans(version, start, end, payload);
            let len = number_at(payload, 9, 3);
            if payload.len() == 0 {
                spans.len() == 0 && error is None
            } else if payload.len() < 12 {
                spans.len() == 0 && (error matches Some(
                    Error::InvalidMessage(InvalidMessage::MissingData(_)),
                ))
            } else if payload.len() < 12 + len {
                spans.len() == 0 && error == Some(
                    Error::InvalidMessage(InvalidMessage::MessageTooShort),
                )
            } else {
                &&& spans.len() > 0
                &&& spans[0].version == version
                &&& spans[0].size == Some(number_at(payload, 1, 3) as usize)
                &&& 0 <= number_at(payload, 1, 3) <= 0xff_ffff
                &&& spans[0].bounds.start == start
                &&& spans[0].bounds.end == start + 12 + len
                &&& spans[0].dtls_fragment_fields matches Some((seq, offset, length))
                &&& seq == number_at(payload, 4, 2)
                &&& offset.0 == number_at(payload, 6, 3)
                &&& length.0 == len
                &&& if start + 12 + len > end {
                    spans.len() == 1 && error == Some(
                        Error::InvalidMessage(InvalidMessage::MessageTooLarge),
                    )
                } else {
                    let (others, other_error) = input_spans(
                        version,
                        start + 12 + len,
                        end,
                        payload.skip(12 + len),
                    );
                    spans.skip(1) == others && error == other_error
                }
            }
        }),
{
    law_handshake_fragment_is_read(payload);
    lemma_pow256_values();
    if payload.len() >= 12 {
        law_numbers_are_big_endian(payload, 1, 3);
        law_numbers_are_big_endian(payload, 9, 3);
        let len = number_at(payload, 9, 3);
        if payload.len() >= 12 + len && start + 12 + len <= end {
            let (spans, _) = input_spans(version, start, end, payload);
            let (others, _) = input_spans(version, start + 12 + len, end, payload.skip(12 + len));
            assert(spans.skip(1) =~= others);
        }
    }
}

/// The sequence numbers that are reported are those of the spans, each of them once, in the
/// order in which they first occur.
pub proof fn law_sequence_numbers_are_reported_once(spans: Seq<FragmentSpan>, seq: u16)
    ensures
        distinct_seqs(spans).contains(seq) <==> exists|i: int|
            0 <= i < spans.len() && (#[trigger] spans[i]).seq() == seq,
        forall|i: int, j: int|
            0 <= i < j < distinct_seqs(spans).len() ==> #[trigger] distinct_seqs(spans)[i]
                != #[trigger] distinct_seqs(spans)[j],
        forall|n: int|
            0 <= n <= spans.len() ==> (#[trigger] distinct_seqs(spans.take(n))).is_prefix_of(
                distinct_seqs(spans),
            ),
    decreases spans.len(),
{
    if spans.len() == 0 {
        assert(spans.take(0) =~= spans);
    } else {
        let front = spans.drop_last();
        let last = spans.last().seq();
        let before = distinct_seqs(front);
        let all = distinct_seqs(spans);
        law_sequence_numbers_are_reported_once(front, seq);
        law_sequence_numbers_are_reported_once(front, last);
        if all.contains(seq) && !before.contains(seq) {
            assert(seq == last);
            assert(spans[spans.len() - 1].seq() == seq);
        }
        if before.contains(seq) {
            let i = choose|i: int| 0 <= i < front.len() && (#[trigger] front[i]).seq() == seq;
            assert(spans[i].seq() == seq);
            let k = choose|k: int| 0 <= k < before.len() && before[k] == seq;
            assert(all[k] == seq);
        }
        if exists|i: int| 0 <= i < spans.len() && (#[trigger] spans[i]).seq() == seq {
            let i = choose|i: int| 0 <= i < spans.len() && (#[trigger] spans[i]).seq() == seq;
            if i < front.len() {
                assert(front[i].seq() == seq);
            } else if !before.contains(last) {
                assert(all[before.len() as int] == last);
            }
        }
        assert forall|n: int| 0 <= n <= spans.len() implies (#[trigger] distinct_seqs(
            spans.take(n),
        )).is_prefix_of(all) by {
            if n < spans.len() {
                assert(spans.take(n) =~= front.take(n));
                assert(distinct_seqs(front.take(n)).is_prefix_of(before));
            } else {
                assert(spans.take(n) =~= spans);
            }
        }
    }
}

} // verus!
