//! Splits messages into records that are no larger than allowed.

use vstd::prelude::*;

use crate::enums::{ContentType, HandshakeType, ProtocolVersion};
use crate::epoch::EpochAndSequence;
use crate::error::Error;
use crate::msgs::codec::{U24, U24_MAX};
use crate::msgs::dtls::{
    lemma_handshake_header_len, DtlsHandshakeFragment, HandshakeFragment, HandshakeSequenceNumber,
    DTLS_HANDSHAKE_HEADER_SIZE, DTLS_HEADER_SIZE,
};
use crate::msgs::message::{EncodedMessage, OutboundPlain, Payload, HEADER_SIZE};
use crate::msgs::record::MAX_FRAGMENT_LEN;

verus! {

/// The largest size of a TLS record, header included.
pub const MAX_FRAGMENT_SIZE: usize = MAX_FRAGMENT_LEN + HEADER_SIZE;

/// The smallest maximum fragment size that may be set.
pub const MIN_FRAGMENT_SIZE: usize = 32;

/// Splits messages into records that are no larger than allowed.
#[derive(Debug)]
pub struct MessageFragmenter {
    max_frag: usize,
}

impl Default for MessageFragmenter {
    fn default() -> (r: Self)
        ensures
            r.max() == MAX_FRAGMENT_LEN,
            r.max() == 16384,
    {
        MessageFragmenter { max_frag: MAX_FRAGMENT_LEN }
    }
}

/// `bytes` cut into pieces of `limit` bytes, and a last piece with the rest.
pub open spec fn chunks(bytes: Seq<u8>, limit: nat) -> Seq<Seq<u8>>
    decreases bytes.len(),
{
    if bytes.len() == 0 || limit == 0 {
        Seq::empty()
    } else if bytes.len() <= limit {
        seq![bytes]
    } else {
        seq![bytes.take(limit as int)] + chunks(bytes.skip(limit as int), limit)
    }
}

/// All pieces, one behind the other.
pub open spec fn joined(pieces: Seq<Seq<u8>>) -> Seq<u8>
    decreases pieces.len(),
{
    if pieces.len() == 0 {
        Seq::empty()
    } else {
        pieces[0] + joined(pieces.skip(1))
    }
}

/// Cutting loses nothing: the pieces make up the whole, none is empty and none
/// is longer than the limit.
pub proof fn law_chunks(bytes: Seq<u8>, limit: nat)
    requires
        limit > 0,
    ensures
        joined(chunks(bytes, limit)) == bytes,
        forall|i: int|
            0 <= i < chunks(bytes, limit).len() ==> 0 < (#[trigger] chunks(bytes, limit)[i]).len()
                <= limit,
        chunks(bytes, limit).len() == (bytes.len() + limit - 1) / limit as int,
    decreases bytes.len(),
{
    let all = chunks(bytes, limit);
    if bytes.len() == 0 {
        assert(joined(all) =~= bytes);
        assert((limit - 1) / limit as int == 0) by (nonlinear_arith)
            requires
                limit > 0,
        ;
    } else if bytes.len() <= limit {
        assert(all.skip(1) =~= Seq::empty());
        assert(joined(all.skip(1)) =~= Seq::empty());
        assert(joined(all) =~= bytes);
        let n = bytes.len();
        assert((n + limit - 1) / limit as int == 1) by (nonlinear_arith)
            requires
                0 < n <= limit,
        ;
    } else {
        let rest = bytes.skip(limit as int);
        law_chunks(rest, limit);
        assert(all.skip(1) =~= chunks(rest, limit));
        assert(joined(all) =~= bytes);
        assert forall|i: int| 0 <= i < all.len() implies 0 < (#[trigger] all[i]).len() <= limit by {
            if i > 0 {
                assert(all[i] == chunks(rest, limit)[i - 1]);
            }
        }
        let n = bytes.len();
        assert((n + limit - 1) / limit as int == (n - limit + limit - 1) / limit as int + 1)
            by (nonlinear_arith)
            requires
                n > limit > 0,
        ;
    }
}

/// Borrowed fragments of a payload, one after the other.
pub struct Chunker<'a> {
    pub payload: OutboundPlain<'a>,
    pub limit: usize,
}

impl<'a> Chunker<'a> {
    /// The payload can be cut.
    pub open spec fn wf(&self) -> bool {
        self.payload.wf() && self.limit > 0
    }

    /// The fragments still to come.
    pub open spec fn pending(&self) -> Seq<Seq<u8>> {
        chunks(self.payload@, self.limit as nat)
    }

    pub fn new(payload: OutboundPlain<'a>, limit: usize) -> (r: Self)
        ensures
            r.payload == payload,
            r.limit == limit,
    {
        Chunker { payload, limit }
    }

    /// The next fragment, if anything is left.
    pub fn next(&mut self) -> (r: Option<OutboundPlain<'a>>)
        requires
            old(self).wf(),
        ensures
            final(self).wf(),
            final(self).limit == old(self).limit,
            final(self).payload is Single <==> old(self).payload is Single,
            r is None <==> old(self).pending().len() == 0,
            r is None ==> final(self).pending() == old(self).pending(),
            r matches Some(chunk) ==> {
                &&& chunk.wf()
                &&& chunk is Single <==> old(self).payload is Single
                &&& chunk@ == old(self).pending()[0]
                &&& final(self).pending() == old(self).pending().skip(1)
                &&& final(self).payload@.len() == old(self).payload@.len() - chunk@.len()
                &&& 0 < chunk@.len() <= old(self).limit
            },
    {
        if self.payload.is_empty() {
            return None;
        }
        let ghost before = self.payload@;
        let (chunk, after) = self.payload.split_at(self.limit);
        self.payload = after;
        proof {
            if before.len() <= self.limit {
                assert(before.take(before.len() as int) =~= before);
                assert(self.payload@ =~= Seq::empty());
                assert(self.pending() =~= chunks(before, self.limit as nat).skip(1));
            } else {
                assert(chunks(before, self.limit as nat).skip(1) =~= self.pending());
            }
        }
        Some(chunk)
    }

    /// The number of fragments still to come.
    pub fn len(&self) -> (r: usize)
        requires
            self.wf(),
        ensures
            r == self.pending().len(),
    {
        let n: usize = self.payload.len();
        let whole: usize = n / self.limit;
        proof {
            law_chunks(self.payload@, self.limit as nat);
            let limit = self.limit as int;
            let m = n as int;
            assert((m + limit - 1) / limit == m / limit + (if m % limit == 0 {
                0int
            } else {
                1int
            })) by (nonlinear_arith)
                requires
                    m >= 0,
                    limit > 0,
            ;
            assert(m % limit != 0 ==> m / limit < m) by (nonlinear_arith)
                requires
                    m >= 0,
                    limit > 0,
            ;
        }
        if n % self.limit == 0 {
            whole
        } else {
            whole + 1
        }
    }
}

impl MessageFragmenter {
    /// The maximum size of a record, header included.
    pub closed spec fn max(&self) -> int {
        self.max_frag as int
    }

    /// Maximum sizes are neither too small for headers nor larger than allowed.
    #[verifier::type_invariant]
    spec fn inv(self) -> bool {
        MIN_FRAGMENT_SIZE <= self.max_frag <= MAX_FRAGMENT_SIZE
    }

    /// How much payload a record of the given version can hold.
    pub open spec fn payload_max(&self, version: ProtocolVersion) -> int {
        match version {
            ProtocolVersion::DTLSv1_2 | ProtocolVersion::DTLSv1_3 => self.max()
                - DTLS_HEADER_SIZE,
            _ => self.max() - HEADER_SIZE,
        }
    }

    /// Take `msg` and fragment it into new messages with the same type and version.
    ///
    /// Each returned message size is no more than the maximum fragment size.
    ///
    /// Payloads are borrowed from `msg`.
    ///
    /// Should not be used for DTLS messages. See
    /// [`Self::fragment_dtls_handshake_message`].
    pub fn fragment_message<'a>(&self, msg: &'a EncodedMessage<Payload<'_>>) -> (r: Vec<
        EncodedMessage<OutboundPlain<'a>>,
    >)
        requires
            !msg.version.is_datagram(),
        ensures
            ({
                let pieces = chunks(msg.payload@, self.payload_max(msg.version) as nat);
                &&& r@.len() == pieces.len()
                &&& forall|i: int|
                    0 <= i < pieces.len() ==> {
                        &&& (#[trigger] r@[i]).typ == msg.typ
                        &&& r@[i].version == msg.version
                        &&& r@[i].epoch_and_sequence is None
                        &&& r@[i].payload.wf()
                        &&& r@[i].payload@ == pieces[i]
                    }
            }),
    {
        self.fragment_payload(
            msg.typ,
            msg.version,
            None,
            OutboundPlain::Single(msg.payload.bytes()),
        )
    }

    /// Take `payload` and fragment it into new messages with given type and version.
    ///
    /// Each returned message size is no more than the maximum fragment size.
    ///
    /// Payloads are borrowed from `payload`.
    pub fn fragment_payload<'a>(
        &self,
        typ: ContentType,
        version: ProtocolVersion,
        epoch_and_sequence: Option<EpochAndSequence>,
        payload: OutboundPlain<'a>,
    ) -> (r: Vec<EncodedMessage<OutboundPlain<'a>>>)
        requires
            !version.is_datagram(),
            payload.wf(),
            epoch_and_sequence matches Some(es) ==> es.sequence + chunks(
                payload@,
                self.payload_max(version) as nat,
            ).len() <= u64::MAX + 1,
        ensures
            ({
                let pieces = chunks(payload@, self.payload_max(version) as nat);
                &&& r@.len() == pieces.len()
                &&& forall|i: int|
                    0 <= i < pieces.len() ==> {
                        &&& (#[trigger] r@[i]).typ == typ
                        &&& r@[i].version == version
                        &&& r@[i].epoch_and_sequence == (match epoch_and_sequence {
                            Some(es) => Some(es.plus(i)),
                            None => None,
                        })
                        &&& r@[i].payload.wf()
                        &&& r@[i].payload@ == pieces[i]
                    }
            }),
    {
        proof {
            use_type_invariant(self);
        }
        let mut messages: Vec<EncodedMessage<OutboundPlain<'a>>> = Vec::new();
        let mut chunker = Chunker::new(payload, self.max_fragment_size(version));
        let ghost pieces = chunker.pending();
        let count: usize = chunker.len();
        let mut sequence: usize = 0;
        assert(pieces.skip(0) =~= pieces);
        while sequence < count
            invariant
                chunker.wf(),
                count == pieces.len(),
                sequence <= count,
                sequence == messages@.len(),
                chunker.pending() == pieces.skip(sequence as int),
                epoch_and_sequence matches Some(es) ==> es.sequence + pieces.len() <= u64::MAX
                    + 1,
                forall|i: int|
                    0 <= i < sequence ==> {
                        &&& (#[trigger] messages@[i]).typ == typ
                        &&& messages@[i].version == version
                        &&& messages@[i].epoch_and_sequence == (match epoch_and_sequence {
                            Some(es) => Some(es.plus(i)),
                            None => None,
                        })
                        &&& messages@[i].payload.wf()
                        &&& messages@[i].payload@ == pieces[i]
                    },
            decreases count - sequence,
        {
            let chunk = chunker.next().unwrap();
            let es = match epoch_and_sequence {
                Some(es) => Some(es.add_sequence_increment(sequence as u64)),
                None => None,
            };
            assert(chunker.pending() =~= pieces.skip(sequence + 1));
            messages.push(EncodedMessage { typ, version, epoch_and_sequence: es, payload: chunk });
            sequence = sequence + 1;
        }
        messages
    }

    /// Set the maximum fragment size that will be produced.
    ///
    /// This includes overhead. A `max_fragment_size` of 10 will produce TLS fragments
    /// up to 10 bytes long.
    ///
    /// A `max_fragment_size` of `None` sets the highest allowable fragment size.
    ///
    /// Returns BadMaxFragmentSize if the size is smaller than 32 or larger than
    /// 16389.
    pub fn set_max_fragment_size(&mut self, max_fragment_size: Option<usize>) -> (r: Result<
        (),
        Error,
    >)
        ensures
            match max_fragment_size {
                None => r is Ok && final(self).max() == MAX_FRAGMENT_SIZE && final(self).max() == 16389,
                Some(size) => if 32 <= size <= 16389 {
                    r is Ok && final(self).max() == size
                } else {
                    r == Err::<(), Error>(Error::BadMaxFragmentSize) && final(self).max()
                        == old(self).max()
                },
            },
    {
        let max_frag: usize = match max_fragment_size {
            Some(size) => {
                if size < MIN_FRAGMENT_SIZE || size > MAX_FRAGMENT_SIZE {
                    return Err(Error::BadMaxFragmentSize);
                }
                size
            },
            None => MAX_FRAGMENT_SIZE,
        };
        self.max_frag = max_frag;
        Ok(())
    }

    /// How much payload a record of the given version can hold.
    fn max_fragment_size(&self, version: ProtocolVersion) -> (r: usize)
        ensures
            r == self.payload_max(version),
            r >= MIN_FRAGMENT_SIZE - DTLS_HEADER_SIZE,
            r <= MAX_FRAGMENT_SIZE,
    {
        proof {
            use_type_invariant(self);
        }
        match version {
            ProtocolVersion::DTLSv1_2 | ProtocolVersion::DTLSv1_3 => self.max_frag
                - DTLS_HEADER_SIZE,
            _ => self.max_frag - HEADER_SIZE,
        }
    }
}

/// The fragment of `n` bytes of a handshake message that begins at `offset`.
pub open spec fn fragment_at(
    msg_type: HandshakeType,
    message_seq: HandshakeSequenceNumber,
    message: Seq<u8>,
    offset: int,
    n: int,
) -> HandshakeFragment {
    HandshakeFragment {
        msg_type,
        length: message.len() as u32,
        message_seq,
        fragment_offset: offset as u32,
        fragment_length: n as u32,
        fragment: message.subrange(offset, offset + n),
    }
}

/// The smaller of two numbers.
pub open spec fn smaller(a: int, b: int) -> int {
    if a < b {
        a
    } else {
        b
    }
}

/// The fragments of a handshake message from `offset` on, each as large as it
/// may be.
pub open spec fn dtls_fragments(
    msg_type: HandshakeType,
    message_seq: HandshakeSequenceNumber,
    message: Seq<u8>,
    offset: int,
    limit: int,
) -> Seq<HandshakeFragment>
    decreases message.len() - offset,
{
    if offset >= message.len() || limit <= 0 {
        Seq::empty()
    } else {
        let n = smaller(limit, message.len() - offset);
        seq![fragment_at(msg_type, message_seq, message, offset, n)] + dtls_fragments(
            msg_type,
            message_seq,
            message,
            offset + n,
            limit,
        )
    }
}

/// The encodings of all fragments, one behind the other.
pub open spec fn encodings(fragments: Seq<HandshakeFragment>) -> Seq<u8>
    decreases fragments.len(),
{
    if fragments.len() == 0 {
        Seq::empty()
    } else {
        encodings(fragments.drop_last()) + fragments.last().encoding()
    }
}

/// The body of a message of a flight, without the TLS handshake header that it
/// was encoded with.
pub open spec fn flight_body(messages: Seq<(HandshakeType, Vec<u8>)>, idx: int) -> Seq<u8> {
    messages[idx].1@.skip(4)
}

/// The records that a flight of handshake messages goes into, each given by its
/// fragments, from the byte at `offset` of the message `idx` on. `current` has
/// been put into the next record already.
///
/// Records are filled one after the other. A record is finished when it is full,
/// when what is left of it has no room for a fragment, and with the last byte of
/// the last message. One that is not finished is left out, which happens only if
/// the last message is empty.
pub open spec fn flight_records(
    capacity: int,
    first_seq: int,
    messages: Seq<(HandshakeType, Vec<u8>)>,
    idx: int,
    offset: int,
    current: Seq<HandshakeFragment>,
) -> Seq<Seq<HandshakeFragment>>
    decreases messages.len() - idx, flight_body(messages, idx).len() - offset,
{
    if idx < 0 || idx >= messages.len() || capacity <= DTLS_HANDSHAKE_HEADER_SIZE {
        Seq::empty()
    } else {
        let body = flight_body(messages, idx);
        if offset >= body.len() {
            flight_records(capacity, first_seq, messages, idx + 1, 0, current)
        } else {
            let no_room = capacity - encodings(current).len() <= DTLS_HANDSHAKE_HEADER_SIZE;
            let base = if no_room {
                Seq::empty()
            } else {
                current
            };
            let room = if no_room {
                capacity - DTLS_HANDSHAKE_HEADER_SIZE
            } else {
                capacity - encodings(current).len() - DTLS_HANDSHAKE_HEADER_SIZE
            };
            let n = smaller(room, body.len() - offset);
            let grown = base.push(
                fragment_at(messages[idx].0, (first_seq + idx) as u16, body, offset, n),
            );
            let finished = n == room || (idx + 1 == messages.len() && offset + n == body.len());
            let before = if no_room {
                seq![current]
            } else {
                Seq::empty()
            };
            if finished {
                before + seq![grown] + flight_records(
                    capacity,
                    first_seq,
                    messages,
                    idx,
                    offset + n,
                    Seq::empty(),
                )
            } else {
                before + flight_records(capacity, first_seq, messages, idx, offset + n, grown)
            }
        }
    }
}

/// A record with some finished handshake fragments.
fn finished_record(epoch_and_sequence: EpochAndSequence, payload: Vec<u8>) -> (r: EncodedMessage<
    Payload<'static>,
>)
    ensures
        r.typ == ContentType::Handshake,
        r.version == ProtocolVersion::DTLSv1_2,
        r.epoch_and_sequence == Some(epoch_and_sequence),
        r.payload@ == payload@,
{
    EncodedMessage {
        typ: ContentType::Handshake,
        version: ProtocolVersion::DTLSv1_2,
        epoch_and_sequence: Some(epoch_and_sequence),
        payload: Payload::new(payload),
    }
}

/// `records` are the encodings of the fragments in `expected`, numbered from
/// `first` on.
pub open spec fn are_records(
    records: Seq<EncodedMessage<Payload<'static>>>,
    expected: Seq<Seq<HandshakeFragment>>,
    first: EpochAndSequence,
) -> bool {
    &&& records.len() == expected.len()
    &&& forall|i: int|
        0 <= i < expected.len() ==> {
            &&& (#[trigger] records[i]).typ == ContentType::Handshake
            &&& records[i].version == ProtocolVersion::DTLSv1_2
            &&& records[i].epoch_and_sequence == Some(first.plus(i))
            &&& records[i].payload@ == encodings(expected[i])
        }
}

impl MessageFragmenter {
    /// Take a DTLS handshake message and fragment it into multiple unencrypted
    /// outbound messages, each consisting of a DTLSPlaintext. Other DTLS messages
    /// may not be fragmented.
    pub fn fragment_dtls_handshake_message<'a>(
        &self,
        epoch_and_sequence: EpochAndSequence,
        msg_type: HandshakeType,
        handshake_sequence_number: u16,
        handshake_payload: &'a [u8],
    ) -> (r: Vec<EncodedMessage<DtlsHandshakeFragment<'a>>>)
        requires
            4 <= handshake_payload@.len() <= 4 + U24_MAX,
            epoch_and_sequence.sequence + dtls_fragments(
                msg_type,
                handshake_sequence_number,
                handshake_payload@.skip(4),
                0,
                self.payload_max(ProtocolVersion::DTLSv1_2) - DTLS_HANDSHAKE_HEADER_SIZE,
            ).len() <= u64::MAX + 1,
        ensures
            ({
                let fragments = dtls_fragments(
                    msg_type,
                    handshake_sequence_number,
                    handshake_payload@.skip(4),
                    0,
                    self.payload_max(ProtocolVersion::DTLSv1_2) - DTLS_HANDSHAKE_HEADER_SIZE,
                );
                &&& r@.len() == fragments.len()
                &&& forall|i: int|
                    0 <= i < fragments.len() ==> {
                        &&& (#[trigger] r@[i]).typ == ContentType::Handshake
                        &&& r@[i].version == ProtocolVersion::DTLSv1_2
                        &&& r@[i].epoch_and_sequence == Some(epoch_and_sequence.plus(i))
                        &&& r@[i].payload@ == fragments[i]
                    }
            }),
    {
        // handshake_payload will have been encoded as a TLS handshake message, so we discard the
        // front 4 bytes (1 byte of handshake type plus 3 bytes of length) so that we can re-encode
        // as a DTLS handshake fragment.
        let message: &'a [u8] = vstd::slice::slice_subrange(
            handshake_payload,
            4,
            handshake_payload.len(),
        );
        assert(message@ =~= handshake_payload@.skip(4));
        let limit: usize = self.max_fragment_size(ProtocolVersion::DTLSv1_2)
            - DTLS_HANDSHAKE_HEADER_SIZE;
        let length = U24(message.len() as u32);
        let ghost fragments = dtls_fragments(
            msg_type,
            handshake_sequence_number,
            message@,
            0,
            limit as int,
        );
        let mut messages: Vec<EncodedMessage<DtlsHandshakeFragment<'a>>> = Vec::new();
        let mut sequence: u64 = 0;
        let mut offset: usize = 0;
        assert(fragments.skip(0) =~= fragments);
        while offset < message.len()
            invariant
                0 < limit,
                offset <= message@.len() <= U24_MAX,
                length.0 == message@.len(),
                sequence == messages@.len(),
                sequence <= offset,
                messages@.len() <= fragments.len(),
                fragments.skip(messages@.len() as int) == dtls_fragments(
                    msg_type,
                    handshake_sequence_number,
                    message@,
                    offset as int,
                    limit as int,
                ),
                epoch_and_sequence.sequence + fragments.len() <= u64::MAX + 1,
                forall|i: int|
                    0 <= i < messages@.len() ==> {
                        &&& (#[trigger] messages@[i]).typ == ContentType::Handshake
                        &&& messages@[i].version == ProtocolVersion::DTLSv1_2
                        &&& messages@[i].epoch_and_sequence == Some(epoch_and_sequence.plus(i))
                        &&& messages@[i].payload@ == fragments[i]
                    },
            decreases message@.len() - offset,
        {
            let n: usize = if limit < message.len() - offset {
                limit
            } else {
                message.len() - offset
            };
            let piece: &'a [u8] = vstd::slice::slice_subrange(message, offset, offset + n);
            let fragment = DtlsHandshakeFragment {
                msg_type,
                length,
                message_seq: handshake_sequence_number,
                fragment_offset: U24(offset as u32),
                fragment_length: U24(n as u32),
                fragment: Payload::Borrowed(piece),
            };
            proof {
                let k = messages@.len() as int;
                assert(fragments.skip(k).len() > 0);
                assert(fragments[k] == fragments.skip(k)[0]);
                assert(fragments.skip(k + 1) =~= fragments.skip(k).skip(1));
                assert(fragments.skip(k).skip(1) =~= dtls_fragments(
                    msg_type,
                    handshake_sequence_number,
                    message@,
                    offset + n,
                    limit as int,
                ));
                assert(fragment@ == fragments[k]);
            }
            messages.push(
                EncodedMessage {
                    typ: ContentType::Handshake,
                    version: ProtocolVersion::DTLSv1_2,
                    epoch_and_sequence: Some(epoch_and_sequence.add_sequence_increment(sequence)),
                    payload: fragment,
                },
            );
            offset = offset + n;
            sequence = sequence + 1;
        }
        messages
    }

    /// Fragment a flight of DTLS handshake messages into as few unencrypted records
    /// as they fit into.
    ///
    /// `handshake_sequence_number` is the sequence number for the first message in
    /// this flight, and `handshake_messages` is the handshake message type and
    /// encoded handshake message.
    ///
    /// Messages without a body have no fragments. If the last message is one of them, a
    /// record that is still being filled is left out, with all that it has of earlier
    /// messages: what is left in the end is only finished with the last byte of the last
    /// message.
    pub fn fragment_dtls_handshake_message_flight(
        &self,
        epoch_and_sequence: EpochAndSequence,
        handshake_sequence_number: u16,
        handshake_messages: &[(HandshakeType, Vec<u8>)],
    ) -> (r: Vec<EncodedMessage<Payload<'static>>>)
        requires
            forall|i: int|
                0 <= i < handshake_messages@.len() ==> 4 <= (
                #[trigger] handshake_messages@[i]).1@.len() <= 4 + U24_MAX,
            handshake_sequence_number + handshake_messages@.len() <= u16::MAX,
            epoch_and_sequence.sequence + flight_records(
                self.payload_max(ProtocolVersion::DTLSv1_2),
                handshake_sequence_number as int,
                handshake_messages@,
                0,
                0,
                Seq::empty(),
            ).len() <= u64::MAX,
        ensures
            are_records(
                r@,
                flight_records(
                    self.payload_max(ProtocolVersion::DTLSv1_2),
                    handshake_sequence_number as int,
                    handshake_messages@,
                    0,
                    0,
                    Seq::empty(),
                ),
                epoch_and_sequence,
            ),
            forall|i: int|
                0 <= i < r@.len() ==> {
                    &&& (#[trigger] r@[i]).typ.code() == 22
                    &&& r@[i].version.code() == 0xfefd
                    &&& r@[i].epoch_and_sequence matches Some(es)
                    &&& es.epoch == epoch_and_sequence.epoch
                    &&& es.sequence == epoch_and_sequence.sequence + i
                },
    {
        // How much a record can hold, not counting the record header.
        let capacity: usize = self.max_fragment_size(ProtocolVersion::DTLSv1_2);
        let ghost messages = handshake_messages@;
        let ghost first_seq = handshake_sequence_number as int;
        let ghost expected = flight_records(
            capacity as int,
            first_seq,
            messages,
            0,
            0,
            Seq::empty(),
        );
        let mut records: Vec<EncodedMessage<Payload<'static>>> = Vec::new();
        let ghost mut done: Seq<Seq<HandshakeFragment>> = Seq::empty();
        // The current record we are packing with the handshake flight. Does not include record
        // header.
        let mut curr_record: Vec<u8> = Vec::new();
        let ghost mut current: Seq<HandshakeFragment> = Seq::empty();
        let mut next_number = epoch_and_sequence;
        let mut idx: usize = 0;
        assert(done + expected =~= expected);
        assert(epoch_and_sequence == epoch_and_sequence.plus(0));
        while idx < handshake_messages.len()
            invariant
                idx <= messages.len(),
                messages == handshake_messages@,
                first_seq == handshake_sequence_number,
                first_seq + messages.len() <= u16::MAX,
                forall|i: int|
                    0 <= i < messages.len() ==> 4 <= (#[trigger] messages[i]).1@.len() <= 4
                        + U24_MAX,
                DTLS_HANDSHAKE_HEADER_SIZE < capacity <= MAX_FRAGMENT_SIZE,
                curr_record@ == encodings(current),
                curr_record@.len() <= capacity,
                done + flight_records(
                    capacity as int,
                    first_seq,
                    messages,
                    idx as int,
                    0,
                    current,
                ) == expected,
                are_records(records@, done, epoch_and_sequence),
                epoch_and_sequence.sequence + expected.len() <= u64::MAX,
                next_number == epoch_and_sequence.plus(done.len() as int),
            decreases messages.len() - idx,
        {
            let handshake_type = handshake_messages[idx].0;
            // handshake_payload will have been encoded as a TLS handshake message, so we discard the
            // front 4 bytes (1 byte of handshake type plus 3 bytes of length) so that we can
            // re-encode as a DTLS handshake fragment.
            let handshake_payload: &[u8] = vstd::slice::slice_subrange(
                handshake_messages[idx].1.as_slice(),
                4,
                handshake_messages[idx].1.len(),
            );
            let length = U24(handshake_payload.len() as u32);
            let message_seq: u16 = handshake_sequence_number + idx as u16;
            let ghost body = flight_body(messages, idx as int);
            assert(handshake_payload@ =~= body);
            let mut fragment_offset: usize = 0;
            while fragment_offset < handshake_payload.len()
                invariant
                    idx < handshake_messages.len(),
                    messages == handshake_messages@,
                    handshake_type == messages[idx as int].0,
                    handshake_payload@ == body,
                    body == flight_body(messages, idx as int),
                    body.len() <= U24_MAX,
                    length.0 == body.len(),
                    message_seq == first_seq + idx,
                    fragment_offset <= body.len(),
                    DTLS_HANDSHAKE_HEADER_SIZE < capacity <= MAX_FRAGMENT_SIZE,
                    curr_record@ == encodings(current),
                    curr_record@.len() <= capacity,
                    done + flight_records(
                        capacity as int,
                        first_seq,
                        messages,
                        idx as int,
                        fragment_offset as int,
                        current,
                    ) == expected,
                    are_records(records@, done, epoch_and_sequence),
                    epoch_and_sequence.sequence + expected.len() <= u64::MAX,
                    next_number == epoch_and_sequence.plus(done.len() as int),
                decreases body.len() - fragment_offset,
            {
                let ghost all = flight_records(
                    capacity as int,
                    first_seq,
                    messages,
                    idx as int,
                    fragment_offset as int,
                    current,
                );
                let ghost was_done = done;
                let no_room: bool = capacity - curr_record.len() <= DTLS_HANDSHAKE_HEADER_SIZE;
                if no_room {
                    // There's no room left in the current record for a handshake fragment. Start a
                    // new record.
                    assert(expected.len() == done.len() + all.len());
                    records.push(finished_record(next_number, curr_record));
                    next_number = next_number.add_sequence_increment(1);
                    curr_record = Vec::new();
                    proof {
                        done = done.push(current);
                        current = Seq::empty();
                        assert(curr_record@ =~= encodings(current));
                    }
                }
                // Fill fragment with either remainder of the handshake payload or the remaining
                // capacity of the record.
                let room: usize = capacity - curr_record.len() - DTLS_HANDSHAKE_HEADER_SIZE;
                let fragment_length: usize = if room < handshake_payload.len() - fragment_offset {
                    room
                } else {
                    handshake_payload.len() - fragment_offset
                };
                let fragment = DtlsHandshakeFragment {
                    msg_type: handshake_type,
                    length,
                    message_seq,
                    fragment_offset: U24(fragment_offset as u32),
                    fragment_length: U24(fragment_length as u32),
                    fragment: Payload::Borrowed(
                        vstd::slice::slice_subrange(
                            handshake_payload,
                            fragment_offset,
                            fragment_offset + fragment_length,
                        ),
                    ),
                };
                let ghost start = fragment_offset as int;
                fragment.encode(&mut curr_record);
                proof {
                    let piece = fragment_at(
                        handshake_type,
                        message_seq,
                        body,
                        start,
                        fragment_length as int,
                    );
                    assert(fragment@ == piece);
                    lemma_handshake_header_len(piece);
                    let before = current;
                    current = before.push(piece);
                    assert(current.drop_last() =~= before);
                    assert(curr_record@ =~= encodings(current));
                }
                fragment_offset = fragment_offset + fragment_length;
                // If we have filled the current record or if this is the last fragment of the last
                // handshake message, construct a record
                if curr_record.len() == capacity || (idx + 1 == handshake_messages.len()
                    && fragment_offset == handshake_payload.len()) {
                    assert(expected.len() == was_done.len() + all.len());
                    records.push(finished_record(next_number, curr_record));
                    next_number = next_number.add_sequence_increment(1);
                    curr_record = Vec::new();
                    proof {
                        done = done.push(current);
                        current = Seq::empty();
                        assert(curr_record@ =~= encodings(current));
                    }
                }
                proof {
                    assert(done + flight_records(
                        capacity as int,
                        first_seq,
                        messages,
                        idx as int,
                        fragment_offset as int,
                        current,
                    ) =~= was_done + all);
                }
            }
            idx = idx + 1;
        }
        assert(done =~= expected);
        records
    }
}

} // verus!
