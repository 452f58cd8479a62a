//! Takes records and handshake fragments out of received datagrams.

use core::ops::Range;
use std::collections::VecDeque;

use vstd::prelude::*;

use crate::enums::{ContentType, ProtocolVersion};
use crate::epoch::{Epoch, EpochAndSequence};
use crate::error::{Error, InvalidMessage, RecordError};
use crate::msgs::codec::{
    be_value, lemma_be_value_bound, lemma_pow256_values, pow256, Reader, U24,
};
use crate::msgs::deframer_laws::law_deframed_record_is_of_current_epoch;
use crate::msgs::dtls::{
    announces_connection_id, epoch_bits, has_connection_id, has_fixed_bits, has_l_bit, has_s_bit,
    is_plausible_version, is_unified_header, law_record_header_round_trip, padded,
    read_dtls_record_header, record_header, unified_header, unified_header_len,
    DtlsHandshakeFragment, HandshakeFragment, HandshakeSequenceNumber, RecordSequenceNumber,
    UnifiedHeader, DTLS_12_HEADER_SIZE, DTLS_HANDSHAKE_HEADER_SIZE, MAX_PAYLOAD,
};
use crate::msgs::message::{record_header_bytes, EncodedMessage};
use crate::msgs::reassembly::{
    apart, contents, lemma_spans_end, packed, reassembled, record_bytes, records_apart,
    records_clear, records_kept, sorted_spans, spans_end, spans_fit, FragmentSpan,
};
use crate::msgs::record::{EncodableVersion, InboundOpaque, Record};
use crate::msgs::wire_laws::number_at;

verus! {

/// A record that was taken out of a buffer.
#[derive(Debug)]
pub struct Deframed<'a> {
    pub record: Record<InboundOpaque<'a>>,
    /// Where the record lies in the buffer, header included.
    pub bounds: Range<usize>,
    pub epoch: Epoch,
    pub record_seq: Option<RecordSequenceNumber>,
}

/// A deframed message from a future epoch.
#[derive(Debug)]
pub struct FutureEpochDeframed {
    pub bounds: Range<usize>,
    pub epoch: Epoch,
}

/// Deframes DTLS records and reassembles handshake messages.
#[derive(Debug)]
pub struct DtlsDeframerCore {
    /// Deframed messages that are for future epochs
    pub future_epoch_records: VecDeque<FutureEpochDeframed>,
}

/// A record sequence number, in full or as it appears in a unified header.
pub enum SequenceFields {
    Full(u64),
    Protected { bytes: Seq<u8>, long_encoding: bool },
}

impl SequenceFields {
    /// What is known of a record sequence number.
    pub open spec fn of(number: RecordSequenceNumber) -> Self {
        match number {
            RecordSequenceNumber::Full(full) => SequenceFields::Full(full.0),
            RecordSequenceNumber::Protected(protected) => SequenceFields::Protected {
                bytes: protected.protected@,
                long_encoding: protected.long_encoding,
            },
        }
    }
}

/// What the header of a record says, whichever kind of header it is.
pub struct RecordHead {
    pub typ: ContentType,
    pub version: ProtocolVersion,
    pub epoch: Epoch,
    pub record_seq: SequenceFields,
    /// The length of the payload, or nothing if it goes up to the end of the buffer.
    pub len: Option<u16>,
    pub size: int,
}

/// The size of the header that begins with `first`.
pub open spec fn header_size(first: u8) -> int {
    if has_fixed_bits(first) {
        unified_header_len(first)
    } else {
        DTLS_12_HEADER_SIZE as int
    }
}

/// The header that `input` begins with, an error, or nothing if the header is
/// cut short. A unified header that gives no length stands for a record that
/// occupies the entirety of the buffer.
pub open spec fn record_head(input: Seq<u8>, current: Epoch) -> Option<
    Result<RecordHead, InvalidMessage>,
> {
    if input.len() > 0 && has_fixed_bits(input[0]) {
        match unified_header(input, current) {
            Ok(fields) => Some(
                Ok(
                    RecordHead {
                        typ: ContentType::ApplicationData,
                        version: ProtocolVersion::DTLSv1_3,
                        epoch: fields.epoch,
                        record_seq: SequenceFields::Protected {
                            bytes: fields.protected,
                            long_encoding: fields.long_encoding,
                        },
                        len: fields.length,
                        size: unified_header_len(input[0]),
                    },
                ),
            ),
            Err(e) => Some(Err(e)),
        }
    } else {
        match record_header(input) {
            Ok(header) => Some(
                Ok(
                    RecordHead {
                        typ: header.typ,
                        version: header.version,
                        epoch: header.epoch,
                        record_seq: SequenceFields::Full(header.sequence.0),
                        len: Some(header.len),
                        size: DTLS_12_HEADER_SIZE as int,
                    },
                ),
            ),
            Err(RecordError::TooShortForHeader) | Err(RecordError::TooShortForLength) => None,
            Err(RecordError::InvalidEmptyPayload) => Some(Err(InvalidMessage::InvalidEmptyPayload)),
            Err(RecordError::MessageTooLarge) => Some(Err(InvalidMessage::MessageTooLarge)),
            Err(RecordError::InvalidContentType) => Some(Err(InvalidMessage::InvalidContentType)),
            Err(RecordError::UnknownProtocolVersion) => Some(
                Err(InvalidMessage::UnknownProtocolVersion),
            ),
        }
    }
}

/// The buffered records without those at the front that are from older epochs.
pub open spec fn without_older(records: Seq<FutureEpochDeframed>, current: Epoch) -> Seq<
    FutureEpochDeframed,
>
    decreases records.len(),
{
    if records.len() > 0 && records[0].epoch.is_before(current) {
        without_older(records.skip(1), current)
    } else {
        records
    }
}

/// Where the next record of the current epoch is looked for.
pub struct NextInput {
    /// Whether it is a record that was buffered before.
    pub buffered: bool,
    /// The records that stay buffered.
    pub kept: Seq<FutureEpochDeframed>,
    pub start: int,
    pub end: int,
}

/// Where the next record of the current epoch is looked for: a buffered record
/// of that epoch if there is one at the front, else what is not yet processed.
pub open spec fn next_input(
    records: Seq<FutureEpochDeframed>,
    processed: int,
    buf: Seq<u8>,
    current: Epoch,
) -> NextInput {
    let live = without_older(records, current);
    if live.len() > 0 && live[0].epoch == current {
        NextInput {
            buffered: true,
            kept: live.skip(1),
            start: live[0].bounds.start as int,
            end: live[0].bounds.end as int,
        }
    } else {
        NextInput { buffered: false, kept: live, start: processed, end: buf.len() as int }
    }
}

/// A record that was taken out of a buffer, by its contents.
pub struct DeframedFields {
    pub typ: ContentType,
    pub version: ProtocolVersion,
    pub header: Seq<u8>,
    pub payload: Seq<u8>,
    pub start: int,
    pub end: int,
    pub epoch: Epoch,
    pub record_seq: SequenceFields,
}

/// What deframing one record leads to.
pub struct DeframeOutcome {
    pub records: Seq<FutureEpochDeframed>,
    pub processed: int,
    pub discard: int,
    pub result: Option<Result<DeframedFields, Error>>,
}

/// What deframing one record leads to.
pub open spec fn deframe_outcome(
    records: Seq<FutureEpochDeframed>,
    processed: int,
    discard: int,
    buf: Seq<u8>,
    current: Epoch,
) -> DeframeOutcome {
    let next = next_input(records, processed, buf, current);
    let nothing = DeframeOutcome { records: next.kept, processed, discard, result: None };
    if !(next.start <= next.end <= buf.len()) {
        nothing
    } else {
        match record_head(buf.subrange(next.start, next.end), current) {
            None => nothing,
            Some(Err(e)) => DeframeOutcome {
                records: next.kept,
                processed,
                discard,
                result: Some(Err(Error::InvalidMessage(e))),
            },
            Some(Ok(head)) => {
                let end = match head.len {
                    Some(len) if !next.buffered => processed + head.size + len,
                    _ => next.end,
                };
                let new_processed = if next.buffered {
                    processed
                } else {
                    end
                };
                if end > buf.len() {
                    nothing
                } else if head.epoch == current {
                    DeframeOutcome {
                        records: next.kept,
                        processed: new_processed,
                        discard,
                        result: Some(
                            Ok(
                                DeframedFields {
                                    typ: head.typ,
                                    version: head.version,
                                    header: buf.subrange(next.start, next.start + head.size),
                                    payload: buf.subrange(next.start + head.size, end),
                                    start: next.start,
                                    end,
                                    epoch: head.epoch,
                                    record_seq: head.record_seq,
                                },
                            ),
                        ),
                    }
                } else if current.is_succeeded_by(head.epoch) {
                    DeframeOutcome {
                        records: next.kept.push(
                            FutureEpochDeframed {
                                bounds: Range { start: next.start as usize, end: end as usize },
                                epoch: head.epoch,
                            },
                        ),
                        processed: new_processed,
                        discard,
                        result: None,
                    }
                } else {
                    DeframeOutcome {
                        records: next.kept,
                        processed: new_processed,
                        discard: new_processed,
                        result: None,
                    }
                }
            },
        }
    }
}

/// The buffer once the record that was taken out of it has been written to.
pub open spec fn rewritten(
    buf: Seq<u8>,
    fields: DeframedFields,
    header: Seq<u8>,
    payload: Seq<u8>,
) -> Seq<u8> {
    buf.take(fields.end - fields.payload.len() - fields.header.len()) + header + payload
        + buf.skip(fields.end)
}

/// Every buffered record lies in the buffer and is no shorter than its header.
pub open spec fn records_fit(records: Seq<FutureEpochDeframed>, buf: Seq<u8>) -> bool {
    forall|i: int| #![trigger records[i]]
        0 <= i < records.len() ==> {
            &&& records[i].bounds.start < records[i].bounds.end <= buf.len()
            &&& records[i].bounds.end - records[i].bounds.start >= header_size(
                buf[records[i].bounds.start as int],
            )
        }
}

impl<'a> Deframed<'a> {
    /// Whether this record has the given contents.
    pub open spec fn has(&self, fields: DeframedFields) -> bool {
        &&& self.record.typ == fields.typ
        &&& self.record.version == EncodableVersion::Legacy(fields.version)
        &&& self.record.payload.0@ == fields.header
        &&& self.record.payload.1@ == fields.payload
        &&& self.bounds.start == fields.start
        &&& self.bounds.end == fields.end
        &&& self.epoch == fields.epoch
        &&& self.record_seq matches Some(number) && SequenceFields::of(number) == fields.record_seq
    }
}

/// Fewer old records change nothing about what is left.
proof fn lemma_without_older_fits(records: Seq<FutureEpochDeframed>, buf: Seq<u8>, current: Epoch)
    requires
        records_fit(records, buf),
    ensures
        records_fit(without_older(records, current), buf),
    decreases records.len(),
{
    if records.len() > 0 && records[0].epoch.is_before(current) {
        lemma_without_older_fits(records.skip(1), buf, current);
    }
}

impl DtlsDeframerCore {
    /// Every buffered record lies in the buffer and is no shorter than its header.
    pub open spec fn fits(&self, buf: Seq<u8>) -> bool {
        records_fit(self.future_epoch_records@, buf)
    }

    /// Deframe a record from `buf`.
    ///
    /// This function will detect and handle unprotected and protected DTLS 1.2
    /// records (RFC 6347 `DTLSPlaintext` or `DTLSCipherText`, respectively) or
    /// unprotected and protected DTLS 1.3 records (RFC 9147 `DTLSPlaintext` or
    /// `DTLSCiphertext`, respectively).
    ///
    /// Records not intended for `current_epoch` are buffered in `buf` and may be
    /// deframed in the future.
    pub fn deframe<'a>(
        &mut self,
        processed: &mut usize,
        discard: &mut usize,
        buf: &'a mut [u8],
        current_epoch: Epoch,
    ) -> (r: Option<Result<Deframed<'a>, Error>>)
        requires
            old(self).fits(old(buf)@),
            ({
                let next = next_input(
                    old(self).future_epoch_records@,
                    *old(processed) as int,
                    old(buf)@,
                    current_epoch,
                );
                next.start <= next.end <= old(buf)@.len() ==> !has_connection_id(
                    old(buf)@.subrange(next.start, next.end),
                )
            }),
        ensures
            ({
                let outcome = deframe_outcome(
                    old(self).future_epoch_records@,
                    *old(processed) as int,
                    *old(discard) as int,
                    old(buf)@,
                    current_epoch,
                );
                &&& final(self).future_epoch_records@ == outcome.records
                &&& *final(processed) == outcome.processed
                &&& *final(discard) == outcome.discard
                &&& match (r, outcome.result) {
                    (None, None) => final(buf)@ == old(buf)@,
                    (Some(Err(e)), Some(Err(expected))) => {
                        e == expected && final(buf)@ == old(buf)@
                    },
                    (Some(Ok(deframed)), Some(Ok(fields))) => {
                        &&& deframed.has(fields)
                        &&& final(buf)@ == rewritten(
                            old(buf)@,
                            fields,
                            final(deframed.record.payload.0)@,
                            final(deframed.record.payload.1)@,
                        )
                    },
                    _ => false,
                }
            }),
            r matches Some(Ok(deframed)) ==> {
                let first = old(buf)@[deframed.bounds.start as int];
                &&& deframed.epoch == current_epoch
                &&& deframed.bounds.start < deframed.bounds.end <= old(buf)@.len()
                &&& deframed.record.payload.0@ + deframed.record.payload.1@ == old(buf)@.subrange(
                    deframed.bounds.start as int,
                    deframed.bounds.end as int,
                )
                &&& if first / 32 == 1 {
                    deframed.record.typ.code() == 23 && first % 4 == current_epoch.number % 4
                } else {
                    deframed.record.typ.code() == first && number_at(
                        old(buf)@,
                        deframed.bounds.start + 3,
                        2,
                    ) == current_epoch.number
                }
            },
            final(self).fits(old(buf)@),
    {
        let ghost records = self.future_epoch_records@;
        let ghost bytes = buf@;
        proof {
            law_deframed_record_is_of_current_epoch(
                records,
                *processed as int,
                *discard as int,
                bytes,
                current_epoch,
            );
        }
        // Check whether any previously buffered future epoch records are now from an older epoch
        // and toss them if so.
        while self.future_epoch_records.len() > 0 && self.future_epoch_records[0].epoch.before(
            current_epoch,
        )
            invariant
                without_older(self.future_epoch_records@, current_epoch) == without_older(
                    records,
                    current_epoch,
                ),
                records_fit(self.future_epoch_records@, bytes),
            decreases self.future_epoch_records@.len(),
        {
            let ghost before = self.future_epoch_records@;
            let _ = self.future_epoch_records.pop_front();
            assert(self.future_epoch_records@ =~= before.skip(1));
        }
        let ghost live = self.future_epoch_records@;
        // Check if any previously buffered future epoch record matches the requested epoch
        let buffered: bool = self.future_epoch_records.len() > 0
            && self.future_epoch_records[0].epoch == current_epoch;
        let start: usize;
        let mut end: usize;
        if buffered {
            let record = self.future_epoch_records.pop_front().unwrap();
            start = record.bounds.start;
            end = record.bounds.end;
            assert(self.future_epoch_records@ =~= live.skip(1));
        } else {
            start = *processed;
            end = buf.len();
        }
        if start > end {
            return None;
        }
        let head = match read_head(
            vstd::slice::slice_subrange(&*buf, start, end),
            current_epoch,
        ) {
            Some(Ok(head)) => head,
            Some(Err(e)) => return Some(Err(Error::InvalidMessage(e))),
            None => return None,
        };
        if !buffered {
            // The record is taken off the front of what is not yet processed.
            if let Some(len) = head.len {
                if head.size + len as usize > end - start {
                    return None;
                }
                end = start + head.size + len as usize;
            }
            *processed = end;
        }
        // If a message is from the very next epoch, we buffer it so that it can be processed later.
        // But messages from past epochs or more than one epoch into the future are discarded.
        if head.epoch != current_epoch {
            if current_epoch.successor(head.epoch) {
                self.future_epoch_records.push_back(
                    FutureEpochDeframed { bounds: start..end, epoch: head.epoch },
                );
            } else {
                *discard = *processed;
            }
            return None;
        }
        let (header, payload) = split_record(buf, start, start + head.size, end);
        assert(bytes.take(start as int) =~= bytes.take(end - payload@.len() - header@.len()));
        let record = Record {
            typ: head.typ,
            version: EncodableVersion::Legacy(head.version),
            payload: InboundOpaque(header, payload),
        };
        Some(
            Ok(
                Deframed {
                    record,
                    bounds: start..end,
                    epoch: head.epoch,
                    record_seq: Some(head.record_seq),
                },
            ),
        )
    }
}

/// Parts the header and the payload of a record from the rest of the buffer.
fn split_record<'a>(
    buf: &'a mut [u8],
    header_start: usize,
    payload_start: usize,
    end: usize,
) -> (r: (&'a mut [u8], &'a mut [u8]))
    requires
        header_start <= payload_start <= end <= old(buf)@.len(),
    ensures
        r.0@ == old(buf)@.subrange(header_start as int, payload_start as int),
        r.1@ == old(buf)@.subrange(payload_start as int, end as int),
        final(buf)@ == old(buf)@.take(header_start as int) + final(r.0)@ + final(r.1)@
            + old(buf)@.skip(end as int),
{
    let (front, _behind) = buf.split_at_mut(end);
    let (_before, record) = front.split_at_mut(header_start);
    record.split_at_mut(payload_start - header_start)
}

/// What the header of a record says, whichever kind of header it is.
struct Head {
    typ: ContentType,
    version: ProtocolVersion,
    epoch: Epoch,
    record_seq: RecordSequenceNumber,
    len: Option<u16>,
    size: usize,
}

impl Head {
    spec fn has(&self, head: RecordHead) -> bool {
        &&& self.typ == head.typ
        &&& self.version == head.version
        &&& self.epoch == head.epoch
        &&& SequenceFields::of(self.record_seq) == head.record_seq
        &&& self.len == head.len
        &&& self.size == head.size
    }
}

/// Reads the header that `input` begins with. Returns nothing if it is cut
/// short.
fn read_head(input: &[u8], current_epoch: Epoch) -> (r: Option<Result<Head, InvalidMessage>>)
    requires
        !has_connection_id(input@),
    ensures
        match (r, record_head(input@, current_epoch)) {
            (None, None) => true,
            (Some(Err(e)), Some(Err(expected))) => e == expected,
            (Some(Ok(head)), Some(Ok(expected))) => head.has(expected) && expected.size
                == header_size(input@[0]) && input@.len() >= expected.size,
            _ => false,
        },
{
    let mut reader = Reader::new(input);
    if input.len() > 0 && is_unified_header(input[0]) {
        let header = match UnifiedHeader::read(&mut reader, current_epoch) {
            Ok(header) => header,
            Err(e) => return Some(Err(e)),
        };
        // If there's no length in the unified header, then assume the record occupies the
        // entirety of the provided buffer, which is in turn assumed to be a whole datagram.
        let len: Option<u16> = header.length;
        let number_size: usize = if header.sequence.long_encoding {
            2
        } else {
            1
        };
        let length_size: usize = if len.is_some() {
            2
        } else {
            0
        };
        Some(
            Ok(
                Head {
                    // We will claim to have seen application data on the wire, so that the record
                    // can be handled similarly to a stream TLS 1.3 record, meaning that the true
                    // content type will be in the last unpadded byte of the deprotected record.
                    typ: ContentType::ApplicationData,
                    version: ProtocolVersion::DTLSv1_3,
                    epoch: header.epoch,
                    record_seq: RecordSequenceNumber::Protected(header.sequence),
                    len,
                    size: 1 + number_size + length_size,
                },
            ),
        )
    } else {
        match read_dtls_record_header(&mut reader) {
            Ok(header) => Some(
                Ok(
                    Head {
                        typ: header.typ,
                        version: header.version,
                        epoch: header.epoch,
                        record_seq: RecordSequenceNumber::Full(header.sequence),
                        len: Some(header.len),
                        // There wasn't a unified header on the record, and so DTLS 1.2 and 1.3
                        // records have the same header size.
                        size: DTLS_12_HEADER_SIZE,
                    },
                ),
            ),
            Err(RecordError::TooShortForHeader) => None,
            Err(RecordError::TooShortForLength) => None,
            Err(RecordError::InvalidEmptyPayload) => Some(Err(InvalidMessage::InvalidEmptyPayload)),
            Err(RecordError::MessageTooLarge) => Some(Err(InvalidMessage::MessageTooLarge)),
            Err(RecordError::InvalidContentType) => Some(Err(InvalidMessage::InvalidContentType)),
            Err(RecordError::UnknownProtocolVersion) => Some(
                Err(InvalidMessage::UnknownProtocolVersion),
            ),
        }
    }
}

/// The spans of the handshake fragments that `payload` consists of, which begins
/// at `start` in its buffer, and the error that stops reading if there is one.
pub open spec fn input_spans(
    version: ProtocolVersion,
    start: int,
    end: int,
    payload: Seq<u8>,
) -> (Seq<FragmentSpan>, Option<Error>)
    decreases payload.len(),
{
    if payload.len() == 0 {
        (Seq::empty(), None)
    } else {
        match HandshakeFragment::of(payload) {
            Err(e) => (Seq::empty(), Some(Error::InvalidMessage(e))),
            Ok(fragment) => {
                let len = DTLS_HANDSHAKE_HEADER_SIZE + fragment.fragment_length;
                let span = FragmentSpan {
                    version,
                    size: Some(fragment.length as usize),
                    bounds: Range { start: start as usize, end: (start + len) as usize },
                    dtls_fragment_fields: Some(
                        (
                            fragment.message_seq,
                            U24(fragment.fragment_offset),
                            U24(fragment.fragment_length),
                        ),
                    ),
                };
                if start + len > end {
                    (seq![span], Some(Error::InvalidMessage(InvalidMessage::MessageTooLarge)))
                } else {
                    let (rest, error) = input_spans(version, start + len, end, payload.skip(len));
                    (seq![span] + rest, error)
                }
            },
        }
    }
}

/// The sequence numbers of all spans, each where it first occurs.
pub open spec fn distinct_seqs(spans: Seq<FragmentSpan>) -> Seq<HandshakeSequenceNumber>
    decreases spans.len(),
{
    if spans.len() == 0 {
        Seq::empty()
    } else {
        let before = distinct_seqs(spans.drop_last());
        if before.contains(spans.last().seq()) {
            before
        } else {
            before.push(spans.last().seq())
        }
    }
}

/// Whether `seq` is among `seqs`.
fn contains_seq(seqs: &Vec<HandshakeSequenceNumber>, seq: HandshakeSequenceNumber) -> (r: bool)
    ensures
        r == seqs@.contains(seq),
{
    let mut i: usize = 0;
    while i < seqs.len()
        invariant
            i <= seqs@.len(),
            forall|j: int| 0 <= j < i ==> #[trigger] seqs@[j] != seq,
        decreases seqs@.len() - i,
    {
        if seqs[i] == seq {
            return true;
        }
        i = i + 1;
    }
    false
}

impl DtlsDeframerCore {
    /// Input a DTLS record containing one or more handshake fragments so that they
    /// can be re-ordered and re-assembled by [`Self::coalesce`]. There should not be
    /// any trailing bytes on the message payload.
    ///
    /// `buf` is the payload of a record, which may contain one or more handshake
    /// messages, each starting with a handshake header.
    ///
    /// `bounds` is the position within the containing buffer of the record payload.
    /// That is, it begins at the start of the first handshake header.
    ///
    /// The handshake sequence numbers observed in the record are returned.
    pub fn input_message(
        &mut self,
        spans: &mut VecDeque<FragmentSpan>,
        version: ProtocolVersion,
        bounds: Range<usize>,
        buf: &[u8],
    ) -> (r: Result<Vec<HandshakeSequenceNumber>, Error>)
        requires
            bounds.start + buf@.len() <= usize::MAX,
        ensures
            *final(self) == *old(self),
            ({
                let (added, error) = input_spans(
                    version,
                    bounds.start as int,
                    bounds.end as int,
                    buf@,
                );
                &&& final(spans)@ == old(spans)@ + added
                &&& match r {
                    Ok(seqs) => error is None && seqs@ == distinct_seqs(added),
                    Err(e) => error == Some(e),
                }
            }),
    {
        let mut handshake_seqs: Vec<HandshakeSequenceNumber> = Vec::new();
        let ghost (expected, error) = input_spans(
            version,
            bounds.start as int,
            bounds.end as int,
            buf@,
        );
        let ghost mut added: Seq<FragmentSpan> = Seq::empty();
        let mut bound_start: usize = bounds.start;
        let mut reader = Reader::new(buf);
        assert(added + expected =~= expected);
        assert(old(spans)@ + added =~= old(spans)@);
        while reader.any_left()
            invariant
                reader.wf(),
                bounds.start <= bound_start,
                bound_start + reader.rest().len() <= usize::MAX,
                spans@ == old(spans)@ + added,
                handshake_seqs@ == distinct_seqs(added),
                ({
                    let (rest, rest_error) = input_spans(
                        version,
                        bound_start as int,
                        bounds.end as int,
                        reader.rest(),
                    );
                    &&& added + rest == expected
                    &&& rest_error == error
                }),
                (expected, error) == input_spans(
                    version,
                    bounds.start as int,
                    bounds.end as int,
                    buf@,
                ),
            decreases reader.rest().len(),
        {
            let ghost before = reader.rest();
            let ghost was_added = added;
            let ghost (rest, rest_error) = input_spans(
                version,
                bound_start as int,
                bounds.end as int,
                before,
            );
            let fragment = match DtlsHandshakeFragment::read(&mut reader) {
                Ok(fragment) => fragment,
                Err(e) => {
                    assert(added + rest =~= added);
                    return Err(Error::InvalidMessage(e));
                },
            };
            let fragment_len: usize = DTLS_HANDSHAKE_HEADER_SIZE + fragment.fragment_length.0
                as usize;
            let span = FragmentSpan {
                version,
                size: Some(fragment.length.0 as usize),
                bounds: bound_start..bound_start + fragment_len,
                dtls_fragment_fields: Some(
                    (fragment.message_seq, fragment.fragment_offset, fragment.fragment_length),
                ),
            };
            let ghost new_span = span;
            spans.push_back(span);
            proof {
                added = added.push(new_span);
                assert(spans@ =~= old(spans)@ + added);
                assert(added.drop_last() =~= was_added);
                assert(rest[0] == new_span);
            }
            bound_start = bound_start + fragment_len;
            if bound_start > bounds.end {
                assert(was_added + rest =~= added);
                return Err(Error::InvalidMessage(InvalidMessage::MessageTooLarge));
            }
            proof {
                let (more, _) = input_spans(
                    version,
                    bound_start as int,
                    bounds.end as int,
                    reader.rest(),
                );
                assert(rest == seq![new_span] + more);
                assert(was_added + rest =~= added + more);
            }
            if !contains_seq(&handshake_seqs, fragment.message_seq) {
                handshake_seqs.push(fragment.message_seq);
            }
        }
        assert(added + input_spans(
            version,
            bound_start as int,
            bounds.end as int,
            reader.rest(),
        ).0 =~= added);
        Ok(handshake_seqs)
    }
}

impl Default for DtlsDeframerCore {
    fn default() -> (r: Self)
        ensures
            r.future_epoch_records@.len() == 0,
    {
        DtlsDeframerCore { future_epoch_records: VecDeque::with_capacity(16) }
    }
}

/// All spans that are read from a payload lie in it, one behind the other.
pub proof fn lemma_input_spans(version: ProtocolVersion, start: int, end: int, payload: Seq<u8>)
    requires
        0 <= start,
        start + payload.len() <= usize::MAX,
    ensures
        ({
            let (added, _) = input_spans(version, start, end, payload);
            &&& spans_fit(added, start + payload.len())
            &&& forall|i: int| 0 <= i < added.len() ==> start <= (#[trigger] added[i]).bounds.start
        }),
    decreases payload.len(),
{
    if payload.len() > 0 {
        match HandshakeFragment::of(payload) {
            Err(_) => {},
            Ok(fragment) => {
                let len = DTLS_HANDSHAKE_HEADER_SIZE + fragment.fragment_length;
                let (added, _) = input_spans(version, start, end, payload);
                lemma_pow256_values();
                lemma_be_value_bound(payload.subrange(6, 9));
                lemma_be_value_bound(payload.subrange(9, 12));
                assert(added[0].fits(start + payload.len()));
                if start + len <= end {
                    lemma_input_spans(version, start + len, end, payload.skip(len));
                    let (rest, _) = input_spans(version, start + len, end, payload.skip(len));
                    assert forall|i: int| 0 <= i < added.len() implies (#[trigger] added[i]).fits(
                        start + payload.len(),
                    ) && start <= added[i].bounds.start by {
                        if i > 0 {
                            assert(added[i] == rest[i - 1]);
                        }
                    }
                    assert forall|i: int, j: int|
                        #![trigger added[i], added[j]]
                        0 <= i < j < added.len() implies apart(added[i].bounds, added[j].bounds) by {
                        assert(added[j] == rest[j - 1]);
                        if i > 0 {
                            assert(added[i] == rest[i - 1]);
                        }
                    }
                }
            },
        }
    }
}

/// Takes records out of received datagrams and handshake messages out of those.
#[derive(Debug)]
pub struct DtlsDeframer {
    pub core: DtlsDeframerCore,
    /// Fragments of handshake messages, and messages not yet handed out.
    pub spans: VecDeque<FragmentSpan>,
    /// How much of the buffer was deframed.
    pub processed: usize,
    /// How much of the buffer holds nothing of interest any more.
    pub discard: usize,
}

impl Default for DtlsDeframer {
    fn default() -> (r: Self)
        ensures
            r.spans@.len() == 0,
            r.core.future_epoch_records@.len() == 0,
            r.processed == 0,
            r.discard == 0,
            forall|buf: Seq<u8>| #[trigger] r.matches(buf),
    {
        DtlsDeframer {
            core: DtlsDeframerCore::default(),
            spans: VecDeque::new(),
            processed: 0,
            discard: 0,
        }
    }
}

impl DtlsDeframer {
    /// Everything that is kept track of lies in the processed part of the buffer,
    /// and nothing overlaps.
    pub open spec fn matches(&self, buf: Seq<u8>) -> bool {
        &&& self.processed <= buf.len()
        &&& self.core.fits(buf)
        &&& spans_fit(self.spans@, self.processed as int)
        &&& records_clear(self.core.future_epoch_records@, self.spans@, self.processed as int)
        &&& records_apart(self.core.future_epoch_records@)
    }

    /// The next record begins with a unified header that has a connection ID.
    pub open spec fn meets_connection_id(&self, buf: Seq<u8>, current_epoch: Epoch) -> bool {
        let next = next_input(
            self.core.future_epoch_records@,
            self.processed as int,
            buf,
            current_epoch,
        );
        has_connection_id(buf.subrange(next.start, next.end))
    }

    /// Tells whether the next record begins with a unified header that has a
    /// connection ID. Such records cannot be deframed.
    pub fn next_has_connection_id(&self, buf: &[u8], current_epoch: Epoch) -> (r: bool)
        requires
            self.matches(buf@),
        ensures
            r == self.meets_connection_id(buf@, current_epoch),
    {
        let ghost records = self.core.future_epoch_records@;
        let mut i: usize = 0;
        assert(records.skip(0) =~= records);
        while i < self.core.future_epoch_records.len()
            && self.core.future_epoch_records[i].epoch.before(current_epoch)
            invariant
                i <= records.len(),
                records == self.core.future_epoch_records@,
                without_older(records.skip(i as int), current_epoch) == without_older(
                    records,
                    current_epoch,
                ),
            decreases records.len() - i,
        {
            assert(records.skip(i as int).skip(1) =~= records.skip(i + 1));
            i = i + 1;
        }
        let ghost live = records.skip(i as int);
        assert(live == without_older(records, current_epoch));
        let mut start: usize = self.processed;
        if i < self.core.future_epoch_records.len() {
            assert(live[0] == records[i as int]);
            if self.core.future_epoch_records[i].epoch == current_epoch {
                start = self.core.future_epoch_records[i].bounds.start;
            }
        }
        start < buf.len() && announces_connection_id(buf[start])
    }

    /// Deframe a record of the current epoch from `buf`.
    pub fn deframe<'a>(&mut self, buf: &'a mut [u8], current_epoch: Epoch) -> (r: Option<
        Result<Deframed<'a>, Error>,
    >)
        requires
            old(self).matches(old(buf)@),
            !old(self).meets_connection_id(old(buf)@, current_epoch),
        ensures
            ({
                let outcome = deframe_outcome(
                    old(self).core.future_epoch_records@,
                    old(self).processed as int,
                    old(self).discard as int,
                    old(buf)@,
                    current_epoch,
                );
                &&& final(self).core.future_epoch_records@ == outcome.records
                &&& final(self).processed == outcome.processed
                &&& final(self).discard == outcome.discard
                &&& match (r, outcome.result) {
                    (None, None) => final(buf)@ == old(buf)@,
                    (Some(Err(e)), Some(Err(expected))) => {
                        e == expected && final(buf)@ == old(buf)@
                    },
                    (Some(Ok(deframed)), Some(Ok(fields))) => {
                        &&& deframed.has(fields)
                        &&& final(buf)@ == rewritten(
                            old(buf)@,
                            fields,
                            final(deframed.record.payload.0)@,
                            final(deframed.record.payload.1)@,
                        )
                    },
                    _ => false,
                }
            }),
            r matches Some(Ok(deframed)) ==> {
                let first = old(buf)@[deframed.bounds.start as int];
                &&& deframed.epoch == current_epoch
                &&& deframed.bounds.start < deframed.bounds.end <= old(buf)@.len()
                &&& deframed.record.payload.0@ + deframed.record.payload.1@ == old(buf)@.subrange(
                    deframed.bounds.start as int,
                    deframed.bounds.end as int,
                )
                &&& if first / 32 == 1 {
                    deframed.record.typ.code() == 23 && first % 4 == current_epoch.number % 4
                } else {
                    deframed.record.typ.code() == first && number_at(
                        old(buf)@,
                        deframed.bounds.start + 3,
                        2,
                    ) == current_epoch.number
                }
            },
            final(self).spans@ == old(self).spans@,
            final(self).matches(old(buf)@),
            r matches Some(Ok(deframed)) ==> final(self).has_room_for(
                deframed.bounds.start as int,
                deframed.bounds.end as int,
            ) && deframed.bounds.start + deframed.record.payload.1@.len() <= deframed.bounds.end
                <= old(buf)@.len(),
            r matches Some(Ok(deframed)) ==> final(deframed.record.payload.0)@
                == deframed.record.payload.0@ && final(deframed.record.payload.1)@.len()
                == deframed.record.payload.1@.len() ==> final(self).matches(final(buf)@),
    {
        proof {
            let records = self.core.future_epoch_records@;
            let processed = self.processed as int;
            let discard = self.discard as int;
            lemma_without_older_clear(records, self.spans@, processed, current_epoch);
            let outcome = deframe_outcome(records, processed, discard, buf@, current_epoch);
            if let Some(Ok(fields)) = outcome.result {
                lemma_rewritten(
                    records,
                    self.spans@,
                    processed,
                    discard,
                    buf@,
                    current_epoch,
                    fields.payload,
                );
                assert forall|payload: Seq<u8>| payload.len() == fields.payload.len() implies {
                    let after = #[trigger] rewritten(buf@, fields, fields.header, payload);
                    after.len() == buf@.len() && records_fit(outcome.records, after)
                } by {
                    lemma_rewritten(
                        records,
                        self.spans@,
                        processed,
                        discard,
                        buf@,
                        current_epoch,
                        payload,
                    );
                }
            }
        }
        self.core.deframe(&mut self.processed, &mut self.discard, buf, current_epoch)
    }

    /// Input the payload of a record that holds handshake fragments. `bounds` is
    /// the position of the payload within the buffer.
    pub fn input_message_dtls(&mut self, message: Record<&[u8]>, bounds: Range<usize>) -> (r: Result<
        Vec<HandshakeSequenceNumber>,
        Error,
    >)
        requires
            bounds.start + message.payload@.len() <= usize::MAX,
        ensures
            ({
                let (added, error) = input_spans(
                    message.version.actual(),
                    bounds.start as int,
                    bounds.end as int,
                    message.payload@,
                );
                &&& final(self).spans@ == old(self).spans@ + added
                &&& match r {
                    Ok(seqs) => error is None && seqs@ == distinct_seqs(added),
                    Err(e) => error == Some(e),
                }
            }),
            final(self).core == old(self).core,
            final(self).processed == old(self).processed,
            final(self).discard == old(self).discard,
            forall|buf: Seq<u8>|
                old(self).matches(buf) && old(self).has_room_for(
                    bounds.start as int,
                    bounds.start + message.payload@.len(),
                ) ==> #[trigger] final(self).matches(buf),
    {
        let ghost before = *self;
        let ghost start = bounds.start as int;
        let ghost end = bounds.end as int;
        let r = self.core.input_message(
            &mut self.spans,
            message.version.version(),
            bounds,
            message.payload,
        );
        proof {
            lemma_input_spans(message.version.actual(), start, end, message.payload@);
            let added = input_spans(message.version.actual(), start, end, message.payload@).0;
            assert forall|buf: Seq<u8>|
                before.matches(buf) && before.has_room_for(
                    start,
                    start + message.payload@.len(),
                ) implies #[trigger] self.matches(buf) by {
                lemma_room(before, added, start, start + message.payload@.len() as int);
            }
        }
        r
    }

    /// Nothing that is kept track of lies between `start` and `end`, which are
    /// processed.
    pub open spec fn has_room_for(&self, start: int, end: int) -> bool {
        &&& end <= self.processed
        &&& forall|i: int|
            0 <= i < self.spans@.len() ==> (#[trigger] self.spans@[i]).bounds.end <= start || end
                <= self.spans@[i].bounds.start
        &&& forall|i: int|
            0 <= i < self.core.future_epoch_records@.len() ==> (
            #[trigger] self.core.future_epoch_records@[i]).bounds.end <= start || end
                <= self.core.future_epoch_records@[i].bounds.start
    }

    /// Coalesce the fragments of handshake messages in `buf`. Nothing moves as long as
    /// the start of the first message is missing.
    pub fn coalesce_dtls(&mut self, buf: &mut [u8])
        requires
            old(self).matches(old(buf)@),
        ensures
            ({
                let (messages, waiting) = reassembled(contents(old(self).spans@, old(buf)@));
                &&& contents(final(self).spans@, final(buf)@) == messages + waiting
                &&& packed(final(self).spans@, messages.len() as int)
                &&& messages.len() == 0 ==> {
                    &&& final(self).spans@ == sorted_spans(old(self).spans@)
                    &&& final(self).core.future_epoch_records@
                        == old(self).core.future_epoch_records@
                    &&& final(buf)@ == old(buf)@
                }
            }),
            records_kept(
                final(self).core.future_epoch_records@,
                final(buf)@,
                old(self).core.future_epoch_records@,
                old(buf)@,
            ),
            final(self).processed == old(self).processed,
            final(self).discard == old(self).discard,
            final(self).matches(final(buf)@),
            final(buf)@.len() == old(buf)@.len(),
            final(buf)@.skip(old(self).processed as int) == old(buf)@.skip(
                old(self).processed as int,
            ),
    {
        let ghost before = *self;
        let ghost bytes = buf@;
        proof {
            lemma_spans_end(self.spans@, self.processed as int);
            lemma_fit_further(
                self.spans@,
                self.core.future_epoch_records@,
                self.processed as int,
                bytes.len() as int,
            );
        }
        let r = self.core.coalesce(&mut self.spans, buf);
        assert(r is Ok);
        proof {
            let limit = spans_end(before.spans@);
            let processed = self.processed as int;
            lemma_spans_end(self.spans@, bytes.len() as int);
            assert(buf@.skip(processed) =~= buf@.skip(limit).skip(processed - limit));
            assert(bytes.skip(processed) =~= bytes.skip(limit).skip(processed - limit));
            let now = self.core.future_epoch_records@;
            let then = before.core.future_epoch_records@;
            assert forall|i: int| #![trigger now[i]] 0 <= i < now.len() implies {
                &&& now[i].bounds.start < now[i].bounds.end <= processed
                &&& now[i].bounds.end - now[i].bounds.start >= header_size(
                    buf@[now[i].bounds.start as int],
                )
            } by {
                assert(then[i].bounds.start < then[i].bounds.end <= processed);
                assert(now[i].bounds.start < now[i].bounds.end <= bytes.len());
                assert(record_bytes(now[i], buf@) == record_bytes(then[i], bytes));
                assert(record_bytes(now[i], buf@).len() == now[i].bounds.end - now[i].bounds.start);
                assert(record_bytes(then[i], bytes).len() == then[i].bounds.end
                    - then[i].bounds.start);
                assert(record_bytes(now[i], buf@)[0] == buf@[now[i].bounds.start as int]);
                assert(record_bytes(then[i], bytes)[0] == bytes[then[i].bounds.start as int]);
            }
            assert forall|i: int| 0 <= i < self.spans@.len() implies (
            #[trigger] self.spans@[i]).fits(processed) by {
                assert(self.spans@[i].fits(bytes.len() as int));
                assert(self.spans@[i].bounds.end <= spans_end(self.spans@));
            }
        }
    }

    /// The next handshake message, if it is complete. It is not kept track of any
    /// longer.
    pub fn complete_span(&mut self) -> (r: Option<FragmentSpan>)
        requires
            forall|i: int|
                0 <= i < old(self).spans@.len() ==> (#[trigger] old(self).spans@[i]).bounds.start
                    <= old(self).spans@[i].bounds.end,
        ensures
            old(self).spans@.len() > 0 && old(self).spans@[0].complete() ==> r == Some(
                old(self).spans@[0],
            ) && final(self).spans@ == old(self).spans@.skip(1),
            !(old(self).spans@.len() > 0 && old(self).spans@[0].complete()) ==> r is None
                && final(self).spans@ == old(self).spans@,
            final(self).core == old(self).core,
            final(self).processed == old(self).processed,
            final(self).discard == old(self).discard,
            forall|buf: Seq<u8>|
                old(self).matches(buf) ==> #[trigger] final(self).matches(buf),
    {
        if self.spans.len() == 0 || !self.spans[0].is_complete() {
            return None;
        }
        let ghost before = self.spans@;
        let span = self.spans.pop_front().unwrap();
        assert(self.spans@ =~= before.skip(1));
        Some(span)
    }

    /// The handshake message that a span refers to.
    pub fn message<'b>(&self, span: FragmentSpan, buf: &'b [u8]) -> (r: EncodedMessage<&'b [u8]>)
        requires
            span.bounds.start <= span.bounds.end <= buf@.len(),
        ensures
            r.typ == ContentType::Handshake,
            r.version == span.version,
            r.epoch_and_sequence is None,
            r.payload@ == buf@.subrange(span.bounds.start as int, span.bounds.end as int),
    {
        EncodedMessage {
            typ: ContentType::Handshake,
            version: span.version,
            epoch_and_sequence: None,
            payload: vstd::slice::slice_subrange(buf, span.bounds.start, span.bounds.end),
        }
    }
}

/// The records that are not from older epochs overlap no span either.
proof fn lemma_without_older_clear(
    records: Seq<FutureEpochDeframed>,
    spans: Seq<FragmentSpan>,
    len: int,
    current: Epoch,
)
    requires
        records_clear(records, spans, len),
        records_apart(records),
    ensures
        records_clear(without_older(records, current), spans, len),
        records_apart(without_older(records, current)),
        without_older(records, current).len() > 0 ==> records_clear(
            without_older(records, current).skip(1),
            spans,
            len,
        ) && records_apart(without_older(records, current).skip(1)),
    decreases records.len(),
{
    if records.len() > 0 && records[0].epoch.is_before(current) {
        lemma_without_older_clear(records.skip(1), spans, len, current);
    }
}

/// Nothing that is kept track of is where a record was taken out of the buffer, so
/// that its payload can be overwritten.
proof fn lemma_rewritten(
    records: Seq<FutureEpochDeframed>,
    spans: Seq<FragmentSpan>,
    processed: int,
    discard: int,
    buf: Seq<u8>,
    current: Epoch,
    payload: Seq<u8>,
)
    requires
        0 <= processed <= buf.len(),
        records_fit(records, buf),
        spans_fit(spans, processed),
        records_clear(records, spans, processed),
        records_apart(records),
        deframe_outcome(records, processed, discard, buf, current).result matches Some(Ok(fields))
            && payload.len() == fields.payload.len(),
    ensures
        ({
            let outcome = deframe_outcome(records, processed, discard, buf, current);
            let fields = outcome.result->Some_0->Ok_0;
            let after = rewritten(buf, fields, fields.header, payload);
            &&& after.len() == buf.len()
            &&& records_fit(outcome.records, after)
            &&& fields.start + fields.payload.len() <= fields.end <= outcome.processed
            &&& forall|i: int|
                0 <= i < spans.len() ==> (#[trigger] spans[i]).bounds.end <= fields.start
                    || fields.end <= spans[i].bounds.start
            &&& forall|i: int|
                0 <= i < outcome.records.len() ==> (#[trigger] outcome.records[i]).bounds.end
                    <= fields.start || fields.end <= outcome.records[i].bounds.start
        }),
{
    let outcome = deframe_outcome(records, processed, discard, buf, current);
    let fields = outcome.result->Some_0->Ok_0;
    let next = next_input(records, processed, buf, current);
    let live = without_older(records, current);
    let kept = outcome.records;
    let after = rewritten(buf, fields, fields.header, payload);
    lemma_without_older_clear(records, spans, processed, current);
    lemma_without_older_fits(records, buf, current);
    let payload_start = fields.end - fields.payload.len();
    let header_start = payload_start - fields.header.len();
    assert(after.len() == buf.len());
    assert forall|p: int| 0 <= p < buf.len() && !(payload_start <= p < fields.end) implies after[p]
        == buf[p] by {
        if header_start <= p < payload_start {
            assert(after[p] == fields.header[p - header_start]);
        }
    }
    assert forall|i: int| 0 <= i < kept.len() implies (#[trigger] kept[i]).bounds.end
        <= fields.start || fields.end <= kept[i].bounds.start by {
        if next.buffered {
            assert(kept[i] == live[i + 1]);
            assert(apart(live[0].bounds, live[i + 1].bounds));
        } else {
            assert(kept[i] == live[i]);
        }
    }
    assert forall|i: int| #![trigger kept[i]] 0 <= i < kept.len() implies {
        &&& kept[i].bounds.start < kept[i].bounds.end <= after.len()
        &&& kept[i].bounds.end - kept[i].bounds.start >= header_size(
            after[kept[i].bounds.start as int],
        )
    } by {
        if next.buffered {
            assert(kept[i] == live[i + 1]);
        } else {
            assert(kept[i] == live[i]);
        }
        assert(after[kept[i].bounds.start as int] == buf[kept[i].bounds.start as int]);
    }
    assert forall|i: int| 0 <= i < spans.len() implies (#[trigger] spans[i]).bounds.end
        <= fields.start || fields.end <= spans[i].bounds.start by {
        assert(spans[i].fits(processed));
        if next.buffered {
            assert(apart(live[0].bounds, spans[i].bounds));
        }
    }
}

/// What fits into a part of a buffer fits into the whole.
proof fn lemma_fit_further(
    spans: Seq<FragmentSpan>,
    records: Seq<FutureEpochDeframed>,
    len: int,
    more: int,
)
    requires
        spans_fit(spans, len),
        records_clear(records, spans, len),
        len <= more,
    ensures
        spans_fit(spans, more),
        records_clear(records, spans, more),
{
    assert forall|i: int| 0 <= i < spans.len() implies (#[trigger] spans[i]).fits(more) by {
        assert(spans[i].fits(len));
    }
}

/// New spans in a free part of the buffer overlap nothing.
proof fn lemma_room(deframer: DtlsDeframer, added: Seq<FragmentSpan>, start: int, end: int)
    requires
        spans_fit(deframer.spans@, deframer.processed as int),
        records_clear(
            deframer.core.future_epoch_records@,
            deframer.spans@,
            deframer.processed as int,
        ),
        deframer.has_room_for(start, end),
        spans_fit(added, end),
        forall|i: int| 0 <= i < added.len() ==> start <= (#[trigger] added[i]).bounds.start,
    ensures
        spans_fit(deframer.spans@ + added, deframer.processed as int),
        records_clear(
            deframer.core.future_epoch_records@,
            deframer.spans@ + added,
            deframer.processed as int,
        ),
{
    let all = deframer.spans@ + added;
    let n = deframer.spans@.len() as int;
    let records = deframer.core.future_epoch_records@;
    assert forall|i: int| 0 <= i < all.len() implies (#[trigger] all[i]).fits(
        deframer.processed as int,
    ) by {
        if i < n {
            assert(deframer.spans@[i].fits(deframer.processed as int));
        } else {
            assert(added[i - n].fits(end));
        }
    }
    assert forall|i: int, j: int|
        #![trigger all[i], all[j]]
        0 <= i < j < all.len() implies apart(all[i].bounds, all[j].bounds) by {
        if j < n {
            assert(apart(deframer.spans@[i].bounds, deframer.spans@[j].bounds));
        } else if i < n {
            assert(deframer.spans@[i].bounds.end <= start || end
                <= deframer.spans@[i].bounds.start);
            assert(added[j - n].fits(end));
        } else {
            assert(apart(added[i - n].bounds, added[j - n].bounds));
        }
    }
    assert forall|i: int, j: int|
        #![trigger records[i], all[j]]
        0 <= i < records.len() && 0 <= j < all.len() implies apart(
        records[i].bounds,
        all[j].bounds,
    ) by {
        if j < n {
            assert(apart(records[i].bounds, deframer.spans@[j].bounds));
        } else {
            assert(added[j - n].fits(end));
        }
    }
}

/// The encoding of a plaintext record, header and payload.
pub open spec fn encoded_record(
    typ: ContentType,
    version: ProtocolVersion,
    es: EpochAndSequence,
    payload: Seq<u8>,
) -> Seq<u8> {
    record_header_bytes(typ, version, Some(es), payload.len()) + payload
}

/// A plaintext record that is accepted when it is read: of a known type, for TLS
/// or DTLS, with a sequence number of 48 bits and a payload that is neither too
/// long nor, but for application data, empty.
pub open spec fn is_acceptable(
    typ: ContentType,
    version: ProtocolVersion,
    es: EpochAndSequence,
    payload: Seq<u8>,
) -> bool {
    &&& typ.is_known()
    &&& version.is_canonical()
    &&& is_plausible_version(version)
    &&& es.sequence < pow256(6)
    &&& typ == ContentType::ApplicationData || payload.len() > 0
    &&& payload.len() < MAX_PAYLOAD
}

/// What the header of an encoded record says.
pub proof fn lemma_encoded_record_head(
    typ: ContentType,
    version: ProtocolVersion,
    es: EpochAndSequence,
    payload: Seq<u8>,
    behind: Seq<u8>,
    current: Epoch,
)
    requires
        is_acceptable(typ, version, es, payload),
    ensures
        encoded_record(typ, version, es, payload).len() == DTLS_12_HEADER_SIZE + payload.len(),
        !has_connection_id(encoded_record(typ, version, es, payload) + behind),
        record_head(encoded_record(typ, version, es, payload) + behind, current)
            == Some(
            Ok::<RecordHead, InvalidMessage>(
                RecordHead {
                    typ,
                    version,
                    epoch: Epoch { number: es.epoch as u64 },
                    record_seq: SequenceFields::Full(es.sequence),
                    len: Some(payload.len() as u16),
                    size: DTLS_12_HEADER_SIZE as int,
                },
            ),
        ),
{
    law_record_header_round_trip(typ, version, es, payload);
    let record = encoded_record(typ, version, es, payload);
    let input = record + behind;
    assert(input.subrange(1, 3) =~= record.subrange(1, 3));
    assert(input.subrange(3, 5) =~= record.subrange(3, 5));
    assert(input.subrange(5, 11) =~= record.subrange(5, 11));
    assert(input.subrange(11, 13) =~= record.subrange(11, 13));
    assert(input[0] == record[0]);
    assert(record[0] == record_header_bytes(typ, version, Some(es), payload.len())[0]);
}

/// A plaintext record of the current epoch is deframed as it was encoded, and
/// the next one is looked for behind it.
pub proof fn law_encoded_record_is_deframed(
    typ: ContentType,
    version: ProtocolVersion,
    es: EpochAndSequence,
    payload: Seq<u8>,
    before: Seq<u8>,
    behind: Seq<u8>,
    discard: int,
)
    requires
        is_acceptable(typ, version, es, payload),
    ensures
        ({
            let record = encoded_record(typ, version, es, payload);
            let start = before.len() as int;
            let end = start + record.len() as int;
            deframe_outcome(
                Seq::empty(),
                start,
                discard,
                before + record + behind,
                Epoch { number: es.epoch as u64 },
            ) == (DeframeOutcome {
                records: Seq::empty(),
                processed: end,
                discard,
                result: Some(
                    Ok(
                        DeframedFields {
                            typ,
                            version,
                            header: record_header_bytes(typ, version, Some(es), payload.len()),
                            payload,
                            start,
                            end,
                            epoch: Epoch { number: es.epoch as u64 },
                            record_seq: SequenceFields::Full(es.sequence),
                        },
                    ),
                ),
            })
        }),
{
    let current = Epoch { number: es.epoch as u64 };
    let record = encoded_record(typ, version, es, payload);
    let buf = before + record + behind;
    let start = before.len() as int;
    lemma_encoded_record_head(typ, version, es, payload, behind, current);
    law_record_header_round_trip(typ, version, es, payload);
    let size = DTLS_12_HEADER_SIZE as int;
    assert(buf.subrange(start, buf.len() as int) =~= record + behind);
    assert(buf.subrange(start, start + size) =~= record_header_bytes(
        typ,
        version,
        Some(es),
        payload.len(),
    ));
    assert(buf.subrange(start + size, start + record.len()) =~= payload);
}

/// A protected record of the current epoch is deframed, whichever form its header
/// has: the sequence number has one byte or two, and there is a length, or the record
/// goes up to the end of the buffer.
pub proof fn law_protected_record_is_deframed(
    header: Seq<u8>,
    payload: Seq<u8>,
    before: Seq<u8>,
    behind: Seq<u8>,
    discard: int,
    current: Epoch,
)
    requires
        header.len() > 0,
        has_fixed_bits(header[0]),
        header.len() == unified_header_len(header[0]),
        epoch_bits(header[0]) == current.number % 4,
        has_l_bit(header[0]) ==> be_value(header.skip(header.len() - 2)) == payload.len(),
        !has_l_bit(header[0]) ==> behind.len() == 0,
    ensures
        ({
            let start = before.len() as int;
            let end = start + header.len() + payload.len();
            deframe_outcome(
                Seq::empty(),
                start,
                discard,
                before + header + payload + behind,
                current,
            ) == (DeframeOutcome {
                records: Seq::empty(),
                processed: end,
                discard,
                result: Some(
                    Ok(
                        DeframedFields {
                            typ: ContentType::ApplicationData,
                            version: ProtocolVersion::DTLSv1_3,
                            header,
                            payload,
                            start,
                            end,
                            epoch: current,
                            record_seq: SequenceFields::Protected {
                                bytes: padded(header.skip(1), has_s_bit(header[0])),
                                long_encoding: has_s_bit(header[0]),
                            },
                        },
                    ),
                ),
            })
        }),
{
    let buf = before + header + payload + behind;
    let start = before.len() as int;
    let size = header.len() as int;
    let input = header + payload + behind;
    assert(buf.subrange(start, buf.len() as int) =~= input);
    assert(input[0] == header[0]);
    if has_l_bit(header[0]) {
        assert(input.subrange(size - 2, size) =~= header.skip(size - 2));
        lemma_pow256_values();
        lemma_be_value_bound(header.skip(size - 2));
    }
    assert(unified_header(input, current)->Ok_0.protected =~= padded(
        header.skip(1),
        has_s_bit(header[0]),
    ));
    assert(buf.subrange(start, start + size) =~= header);
    assert(buf.subrange(start + size, start + size + payload.len()) =~= payload);
}

/// A plaintext record of the very next epoch is not lost: it is passed over for
/// now and deframed when that epoch has come.
pub proof fn law_next_epoch_record_is_kept(
    typ: ContentType,
    version: ProtocolVersion,
    es: EpochAndSequence,
    payload: Seq<u8>,
    before: Seq<u8>,
    behind: Seq<u8>,
    discard: int,
    current: Epoch,
)
    requires
        is_acceptable(typ, version, es, payload),
        es.epoch == current.number + 1,
        before.len() + encoded_record(typ, version, es, payload).len() <= usize::MAX,
    ensures
        ({
            let record = encoded_record(typ, version, es, payload);
            let buf = before + record + behind;
            let start = before.len() as int;
            let end = start + record.len() as int;
            let now = deframe_outcome(Seq::empty(), start, discard, buf, current);
            let then = deframe_outcome(
                now.records,
                now.processed,
                now.discard,
                buf,
                Epoch { number: es.epoch as u64 },
            );
            &&& now.result is None
            &&& now.processed == end
            &&& now.discard == discard
            &&& then.records.len() == 0
            &&& then.processed == end
            &&& then.discard == discard
            &&& then.result matches Some(Ok(fields)) && {
                &&& fields.typ == typ
                &&& fields.version == version
                &&& fields.header == record_header_bytes(typ, version, Some(es), payload.len())
                &&& fields.payload == payload
                &&& fields.start == start
                &&& fields.end == end
                &&& fields.epoch.number == es.epoch
                &&& fields.record_seq == SequenceFields::Full(es.sequence)
            }
        }),
{
    let record = encoded_record(typ, version, es, payload);
    let buf = before + record + behind;
    let start = before.len() as int;
    let end = start + record.len() as int;
    let size = DTLS_12_HEADER_SIZE as int;
    let next = Epoch { number: es.epoch as u64 };
    lemma_encoded_record_head(typ, version, es, payload, behind, current);
    lemma_encoded_record_head(typ, version, es, payload, Seq::empty(), next);
    assert(buf.subrange(start, buf.len() as int) =~= record + behind);
    assert(record + Seq::<u8>::empty() =~= record);
    assert(buf.subrange(start, end) =~= record);
    assert(buf.subrange(start + size, end) =~= payload);
    law_record_header_round_trip(typ, version, es, payload);
    assert(buf.subrange(start, start + size) =~= record_header_bytes(
        typ,
        version,
        Some(es),
        payload.len(),
    ));
    let now = deframe_outcome(Seq::empty(), start, discard, buf, current);
    assert(now.records.len() == 1);
    assert(now.records.skip(1) =~= Seq::empty());
    assert(without_older(now.records, next) == now.records);
}

} // verus!
