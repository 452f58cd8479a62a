//! What fragmentation promises: records are no larger than allowed, and the
//! fragments in them make up the messages again.

use vstd::prelude::*;

use crate::enums::{HandshakeType, ProtocolVersion};
use crate::epoch::EpochAndSequence;
use crate::msgs::codec::{lemma_pow256_values, U24_MAX};
use crate::msgs::deframer::input_spans;
use crate::msgs::dtls::{
    law_handshake_fragment_round_trip, lemma_handshake_header_len, HandshakeFragment,
    HandshakeSequenceNumber, DTLS_HANDSHAKE_HEADER_SIZE,
};
use crate::msgs::fragmenter::{
    are_records, chunks, dtls_fragments, encodings, flight_body, flight_records, fragment_at, smaller,
    MessageFragmenter,
};
use crate::msgs::message::{EncodedMessage, Payload};
use crate::msgs::reassembly::{contents, reassembled, SpanContent};
use crate::msgs::reassembly_laws::{
    all_items, has_byte, has_message, has_start, holds_message, holds_messages, is_fragment_of,
    is_whole, later, law_complete_message_is_reassembled, law_complete_messages_are_reassembled,
    law_message_is_completed_later, law_messages_are_completed_step_by_step, left_over,
    left_over_after,
};

verus! {

/// What a span refers to that was read from the encoding of a fragment.
pub open spec fn content_of(fragment: HandshakeFragment, version: ProtocolVersion) -> SpanContent {
    SpanContent {
        version,
        size: Some(fragment.length as usize),
        seq: fragment.message_seq,
        offset: fragment.fragment_offset as int,
        length: fragment.fragment_length as int,
        bytes: fragment.encoding(),
    }
}

/// `fragment` is a piece of the message with the given type, sequence number and
/// body, of at least one byte.
pub open spec fn is_piece(
    fragment: HandshakeFragment,
    msg_type: HandshakeType,
    message_seq: HandshakeSequenceNumber,
    message: Seq<u8>,
) -> bool {
    &&& fragment.msg_type == msg_type
    &&& fragment.length == message.len()
    &&& fragment.message_seq == message_seq
    &&& fragment.fragment_length > 0
    &&& fragment.fragment_offset + fragment.fragment_length <= message.len()
    &&& fragment.fragment == message.subrange(
        fragment.fragment_offset as int,
        fragment.fragment_offset + fragment.fragment_length,
    )
}

/// `fragment` has the byte at `position` of its message.
pub open spec fn has_position(fragment: HandshakeFragment, position: int) -> bool {
    fragment.fragment_offset <= position < fragment.fragment_offset + fragment.fragment_length
}

/// Some of `fragments` has the byte at `position`.
pub open spec fn some_has_position(fragments: Seq<HandshakeFragment>, position: int) -> bool {
    exists|i: int| 0 <= i < fragments.len() && has_position(#[trigger] fragments[i], position)
}

/// The pieces of a message are valid fragments.
proof fn lemma_piece_is_valid(
    fragment: HandshakeFragment,
    msg_type: HandshakeType,
    message_seq: HandshakeSequenceNumber,
    message: Seq<u8>,
)
    requires
        is_piece(fragment, msg_type, message_seq, message),
        message.len() <= U24_MAX,
    ensures
        msg_type.is_canonical() ==> fragment.is_valid(),
        fragment.encoding().len() == DTLS_HANDSHAKE_HEADER_SIZE + fragment.fragment_length,
        is_fragment_of(
            content_of(fragment, ProtocolVersion::DTLSv1_2),
            message_seq,
            message,
        ),
{
    lemma_pow256_values();
    lemma_handshake_header_len(fragment);
    assert(fragment.encoding().skip(12) =~= fragment.fragment);
}

/// The fragments of a handshake message are pieces of it that are at most `limit`
/// bytes long, and together they have every byte from `offset` on.
pub proof fn law_dtls_fragments(
    msg_type: HandshakeType,
    message_seq: HandshakeSequenceNumber,
    message: Seq<u8>,
    offset: int,
    limit: int,
)
    requires
        0 <= offset,
        0 < limit,
        message.len() <= U24_MAX,
    ensures
        ({
            let fragments = dtls_fragments(msg_type, message_seq, message, offset, limit);
            &&& forall|i: int|
                0 <= i < fragments.len() ==> is_piece(
                    #[trigger] fragments[i],
                    msg_type,
                    message_seq,
                    message,
                ) && fragments[i].encoding().len() <= DTLS_HANDSHAKE_HEADER_SIZE + limit
            &&& forall|p: int|
                offset <= p < message.len() ==> #[trigger] some_has_position(fragments, p)
        }),
    decreases message.len() - offset,
{
    let fragments = dtls_fragments(msg_type, message_seq, message, offset, limit);
    if offset < message.len() {
        let n = smaller(limit, message.len() - offset);
        let rest = dtls_fragments(msg_type, message_seq, message, offset + n, limit);
        law_dtls_fragments(msg_type, message_seq, message, offset + n, limit);
        assert forall|i: int| 0 <= i < fragments.len() implies is_piece(
            #[trigger] fragments[i],
            msg_type,
            message_seq,
            message,
        ) && fragments[i].encoding().len() <= DTLS_HANDSHAKE_HEADER_SIZE + limit by {
            if i == 0 {
                lemma_piece_is_valid(fragments[0], msg_type, message_seq, message);
            } else {
                assert(fragments[i] == rest[i - 1]);
            }
        }
        assert forall|p: int| offset <= p < message.len() implies #[trigger] some_has_position(
            fragments,
            p,
        ) by {
            if p < offset + n {
                assert(has_position(fragments[0], p));
            } else {
                assert(some_has_position(rest, p));
                let i = choose|i: int| 0 <= i < rest.len() && has_position(#[trigger] rest[i], p);
                assert(fragments[i + 1] == rest[i]);
            }
        }
    }
}

/// `items` are the contents of all fragments of a handshake message, in whatever order
/// and however often, and of fragments of later messages.
pub open spec fn are_message_items(
    items: Seq<SpanContent>,
    fragments: Seq<HandshakeFragment>,
    message_seq: HandshakeSequenceNumber,
) -> bool {
    &&& forall|i: int|
        0 <= i < fragments.len() ==> items.contains(
            content_of(#[trigger] fragments[i], ProtocolVersion::DTLSv1_2),
        )
    &&& forall|j: int|
        0 <= j < items.len() ==> (#[trigger] items[j]).seq > message_seq || exists|i: int|
            0 <= i < fragments.len() && items[j] == content_of(
                #[trigger] fragments[i],
                ProtocolVersion::DTLSv1_2,
            )
}

/// All fragments of a handshake message hold the message.
proof fn lemma_fragments_hold_message(
    msg_type: HandshakeType,
    message_seq: HandshakeSequenceNumber,
    message: Seq<u8>,
    limit: int,
    items: Seq<SpanContent>,
)
    requires
        0 < limit,
        0 < message.len() <= U24_MAX,
        are_message_items(
            items,
            dtls_fragments(msg_type, message_seq, message, 0, limit),
            message_seq,
        ),
    ensures
        holds_message(items, message_seq, message),
{
    let fragments = dtls_fragments(msg_type, message_seq, message, 0, limit);
    law_dtls_fragments(msg_type, message_seq, message, 0, limit);
    assert forall|j: int| 0 <= j < items.len() implies (#[trigger] items[j]).seq >= message_seq && (
    items[j].seq == message_seq ==> is_fragment_of(items[j], message_seq, message)) by {
        if items[j].seq <= message_seq {
            let i = choose|i: int|
                0 <= i < fragments.len() && items[j] == content_of(
                    #[trigger] fragments[i],
                    ProtocolVersion::DTLSv1_2,
                );
            lemma_piece_is_valid(fragments[i], msg_type, message_seq, message);
        }
    }
    assert forall|p: int| 0 <= p < message.len() implies #[trigger] has_byte(
        items,
        message_seq,
        p,
    ) by {
        assert(some_has_position(fragments, p));
        let i = choose|i: int|
            0 <= i < fragments.len() && has_position(#[trigger] fragments[i], p);
        let item = content_of(fragments[i], ProtocolVersion::DTLSv1_2);
        assert(items.contains(item));
        let j = items.index_of(item);
        assert(items[j] == item);
    }
    assert(has_byte(items, message_seq, 0));
    let j = choose|i: int|
        #![trigger items[i]]
        0 <= i < items.len() && items[i].seq == message_seq && items[i].offset <= 0
            < items[i].offset + items[i].length;
    assert(is_fragment_of(items[j], message_seq, message));
    assert(has_start(items, message_seq));
}

/// A handshake message that was fragmented is reassembled, in whatever order its
/// fragments arrive and however often, and whatever else has arrived of later
/// messages.
pub proof fn law_fragmented_message_is_reassembled(
    msg_type: HandshakeType,
    message_seq: HandshakeSequenceNumber,
    message: Seq<u8>,
    limit: int,
    items: Seq<SpanContent>,
)
    requires
        0 < limit,
        0 < message.len() <= U24_MAX,
        are_message_items(
            items,
            dtls_fragments(msg_type, message_seq, message, 0, limit),
            message_seq,
        ),
    ensures
        ({
            let (messages, waiting) = reassembled(items);
            &&& messages.len() > 0
            &&& is_whole(messages[0], message_seq, message)
            &&& (messages.skip(1), waiting) == reassembled(later(items, message_seq))
        }),
{
    lemma_fragments_hold_message(msg_type, message_seq, message, limit, items);
    law_complete_message_is_reassembled(items, message_seq, message);
}

/// A handshake message that was fragmented is also reassembled if some of the fragments
/// were coalesced before the others have arrived.
pub proof fn law_fragmented_message_is_completed_later(
    msg_type: HandshakeType,
    message_seq: HandshakeSequenceNumber,
    message: Seq<u8>,
    limit: int,
    items: Seq<SpanContent>,
    more: Seq<SpanContent>,
)
    requires
        0 < limit,
        0 < message.len() <= U24_MAX,
        are_message_items(
            items + more,
            dtls_fragments(msg_type, message_seq, message, 0, limit),
            message_seq,
        ),
    ensures
        ({
            let (messages, _) = reassembled(left_over(items) + more);
            &&& messages.len() > 0
            &&& is_whole(messages[0], message_seq, message)
        }),
{
    lemma_fragments_hold_message(msg_type, message_seq, message, limit, items + more);
    law_message_is_completed_later(items, more, message_seq, message);
}

/// `fragment` is a piece of one of the messages of a flight.
pub open spec fn is_flight_piece(
    fragment: HandshakeFragment,
    first_seq: int,
    messages: Seq<(HandshakeType, Vec<u8>)>,
) -> bool {
    let i = fragment.message_seq - first_seq;
    &&& 0 <= i < messages.len()
    &&& is_piece(fragment, messages[i].0, fragment.message_seq, flight_body(messages, i))
}

/// `fragment` is in one of `records`.
pub open spec fn occurs(records: Seq<Seq<HandshakeFragment>>, fragment: HandshakeFragment) -> bool {
    exists|r: int, k: int|
        0 <= r < records.len() && 0 <= k < records[r].len() && #[trigger] records[r][k] == fragment
}

/// One of `records` has the byte at `position` of the message with index `i`.
pub open spec fn records_have(
    records: Seq<Seq<HandshakeFragment>>,
    first_seq: int,
    i: int,
    position: int,
) -> bool {
    exists|fragment: HandshakeFragment| #[trigger]
        occurs(records, fragment) && fragment.message_seq == first_seq + i && has_position(
            fragment,
            position,
        )
}

/// The messages of a flight are numbered and of a length that can be encoded.
pub open spec fn is_flight(first_seq: int, messages: Seq<(HandshakeType, Vec<u8>)>) -> bool {
    &&& 0 <= first_seq
    &&& first_seq + messages.len() <= u16::MAX
    &&& forall|i: int|
        0 <= i < messages.len() ==> 4 <= (#[trigger] messages[i]).1@.len() <= 4 + U24_MAX
}

/// What is in one of the parts is in the whole.
proof fn lemma_occurs_in_parts(
    before: Seq<Seq<HandshakeFragment>>,
    behind: Seq<Seq<HandshakeFragment>>,
    fragment: HandshakeFragment,
)
    ensures
        occurs(before + behind, fragment) <==> occurs(before, fragment) || occurs(behind, fragment),
{
    let all = before + behind;
    let n = before.len() as int;
    if occurs(before, fragment) {
        let (r, k) = choose|r: int, k: int|
            0 <= r < before.len() && 0 <= k < before[r].len() && #[trigger] before[r][k]
                == fragment;
        assert(all[r][k] == fragment);
    }
    if occurs(behind, fragment) {
        let (r, k) = choose|r: int, k: int|
            0 <= r < behind.len() && 0 <= k < behind[r].len() && #[trigger] behind[r][k]
                == fragment;
        assert(all[r + n][k] == fragment);
    }
    if occurs(all, fragment) {
        let (r, k) = choose|r: int, k: int|
            0 <= r < all.len() && 0 <= k < all[r].len() && #[trigger] all[r][k] == fragment;
        if r < n {
            assert(before[r][k] == fragment);
        } else {
            assert(behind[r - n][k] == fragment);
        }
    }
}

/// What is in a list of one record is in that record.
proof fn lemma_occurs_in_one(record: Seq<HandshakeFragment>, fragment: HandshakeFragment)
    ensures
        occurs(seq![record], fragment) <==> record.contains(fragment),
{
    if record.contains(fragment) {
        let k = record.index_of(fragment);
        assert(seq![record][0][k] == fragment);
    }
    if occurs(seq![record], fragment) {
        let (r, k) = choose|r: int, k: int|
            0 <= r < 1 && 0 <= k < seq![record][r].len() && #[trigger] seq![record][r][k]
                == fragment;
        assert(record[k] == fragment);
    }
}

/// Adding a fragment to a record adds its encoding.
proof fn lemma_encodings_push(fragments: Seq<HandshakeFragment>, fragment: HandshakeFragment)
    ensures
        encodings(fragments.push(fragment)) == encodings(fragments) + fragment.encoding(),
{
    assert(fragments.push(fragment).drop_last() =~= fragments);
}

/// What holds of the records of a flight from some point on.
proof fn lemma_flight(
    capacity: int,
    first_seq: int,
    messages: Seq<(HandshakeType, Vec<u8>)>,
    idx: int,
    offset: int,
    current: Seq<HandshakeFragment>,
)
    requires
        DTLS_HANDSHAKE_HEADER_SIZE < capacity,
        is_flight(first_seq, messages),
        0 <= idx <= messages.len(),
        0 <= offset,
        idx < messages.len() ==> offset <= flight_body(messages, idx).len(),
        messages.len() > 0,
        flight_body(messages, messages.len() - 1).len() > 0,
        encodings(current).len() <= capacity,
        idx == messages.len() ==> current.len() == 0,
        idx == messages.len() - 1 && offset == flight_body(messages, idx).len() ==> current.len()
            == 0,
    ensures
        ({
            let records = flight_records(capacity, first_seq, messages, idx, offset, current);
            &&& forall|f: HandshakeFragment|
                current.contains(f) ==> #[trigger] occurs(records, f)
            &&& forall|f: HandshakeFragment| #[trigger]
                occurs(records, f) ==> current.contains(f) || is_flight_piece(
                    f,
                    first_seq,
                    messages,
                )
            &&& forall|i: int, p: int|
                idx <= i < messages.len() && 0 <= p < flight_body(messages, i).len() && (i > idx
                    || p >= offset) ==> #[trigger] records_have(records, first_seq, i, p)
            &&& forall|r: int|
                0 <= r < records.len() ==> encodings(#[trigger] records[r]).len() <= capacity
        }),
    decreases messages.len() - idx, flight_body(messages, idx).len() - offset,
{
    let records = flight_records(capacity, first_seq, messages, idx, offset, current);
    if idx < messages.len() {
        let body = flight_body(messages, idx);
        if offset >= body.len() {
            lemma_flight(capacity, first_seq, messages, idx + 1, 0, current);
            assert(records == flight_records(capacity, first_seq, messages, idx + 1, 0, current));
        } else {
            let no_room = capacity - encodings(current).len() <= DTLS_HANDSHAKE_HEADER_SIZE;
            let base = if no_room {
                Seq::empty()
            } else {
                current
            };
            let room = if no_room {
                capacity - DTLS_HANDSHAKE_HEADER_SIZE
            } else {
                capacity - encodings(current).len() - DTLS_HANDSHAKE_HEADER_SIZE
            };
            let n = smaller(room, body.len() - offset);
            let piece = fragment_at(messages[idx].0, (first_seq + idx) as u16, body, offset, n);
            let grown = base.push(piece);
            let finished = n == room || (idx + 1 == messages.len() && offset + n == body.len());
            let before = if no_room {
                seq![current]
            } else {
                Seq::empty()
            };
            let next: Seq<HandshakeFragment> = if finished {
                Seq::empty()
            } else {
                grown
            };
            let rest = flight_records(capacity, first_seq, messages, idx, offset + n, next);
            let middle = if finished {
                seq![grown]
            } else {
                Seq::empty()
            };
            assert(is_flight_piece(piece, first_seq, messages));
            lemma_piece_is_valid(piece, messages[idx].0, piece.message_seq, body);
            lemma_encodings_push(base, piece);
            lemma_flight(capacity, first_seq, messages, idx, offset + n, next);
            assert(records =~= before + (middle + rest));
            assert(grown[base.len() as int] == piece);
            assert(grown.contains(piece));
            assert(grown.drop_last() =~= base);
            assert forall|f: HandshakeFragment| current.contains(f) implies #[trigger] occurs(
                records,
                f,
            ) by {
                lemma_flight_parts(before, middle, rest, current, base, grown, no_room, finished, f);
            }
            assert forall|f: HandshakeFragment| #[trigger] occurs(
                records,
                f,
            ) implies current.contains(f) || is_flight_piece(f, first_seq, messages) by {
                lemma_flight_parts(before, middle, rest, current, base, grown, no_room, finished, f);
                if grown.contains(f) {
                    let k = grown.index_of(f);
                    if k < base.len() {
                        assert(base[k] == f);
                        assert(base.contains(f));
                    }
                }
            }
            assert forall|i: int, p: int|
                idx <= i < messages.len() && 0 <= p < flight_body(messages, i).len() && (i > idx || p
                    >= offset) implies #[trigger] records_have(records, first_seq, i, p) by {
                if i == idx && p < offset + n {
                    lemma_flight_parts(
                        before,
                        middle,
                        rest,
                        current,
                        base,
                        grown,
                        no_room,
                        finished,
                        piece,
                    );
                    assert(occurs(records, piece));
                } else {
                    assert(records_have(rest, first_seq, i, p));
                    let f = choose|f: HandshakeFragment| #[trigger]
                        occurs(rest, f) && f.message_seq == first_seq + i && has_position(f, p);
                    lemma_flight_parts(
                        before,
                        middle,
                        rest,
                        current,
                        base,
                        grown,
                        no_room,
                        finished,
                        f,
                    );
                    assert(occurs(records, f));
                }
            }
            assert forall|r: int| 0 <= r < records.len() implies encodings(
                #[trigger] records[r],
            ).len() <= capacity by {
                let a = before.len() as int;
                let b = middle.len() as int;
                if r < a {
                    assert(records[r] == current);
                } else if r < a + b {
                    assert(records[r] == grown);
                } else {
                    assert(records[r] == rest[r - a - b]);
                }
            }
        }
    } else {
        assert(records =~= Seq::empty());
    }
}

/// Where a fragment is that is in the records from one point on.
proof fn lemma_flight_parts(
    before: Seq<Seq<HandshakeFragment>>,
    middle: Seq<Seq<HandshakeFragment>>,
    rest: Seq<Seq<HandshakeFragment>>,
    current: Seq<HandshakeFragment>,
    base: Seq<HandshakeFragment>,
    grown: Seq<HandshakeFragment>,
    no_room: bool,
    finished: bool,
    f: HandshakeFragment,
)
    requires
        no_room ==> before == seq![current] && base.len() == 0,
        !no_room ==> before.len() == 0 && base == current,
        finished ==> middle == seq![grown],
        !finished ==> middle.len() == 0,
        grown.len() == base.len() + 1,
        grown.drop_last() == base,
        !finished && grown.contains(f) ==> occurs(rest, f),
    ensures
        current.contains(f) ==> occurs(before + (middle + rest), f),
        grown.contains(f) ==> occurs(before + (middle + rest), f),
        occurs(rest, f) ==> occurs(before + (middle + rest), f),
        occurs(before + (middle + rest), f) ==> current.contains(f) || grown.contains(f) || occurs(
            rest,
            f,
        ),
{
    lemma_occurs_in_parts(before, middle + rest, f);
    lemma_occurs_in_parts(middle, rest, f);
    if no_room {
        lemma_occurs_in_one(current, f);
    } else if current.contains(f) {
        let k = current.index_of(f);
        assert(grown.drop_last()[k] == f);
        assert(grown[k] == f);
    }
    if finished {
        lemma_occurs_in_one(grown, f);
    }
}

/// The records of a flight are no larger than allowed. Every fragment in them is
/// a piece of one of the messages, and together they have every byte of every
/// message, as long as the last message is not empty.
pub proof fn law_flight_records(
    capacity: int,
    first_seq: int,
    messages: Seq<(HandshakeType, Vec<u8>)>,
)
    requires
        DTLS_HANDSHAKE_HEADER_SIZE < capacity,
        is_flight(first_seq, messages),
        messages.len() > 0,
        flight_body(messages, messages.len() - 1).len() > 0,
    ensures
        ({
            let records = flight_records(capacity, first_seq, messages, 0, 0, Seq::empty());
            &&& forall|f: HandshakeFragment| #[trigger]
                occurs(records, f) ==> is_flight_piece(f, first_seq, messages)
            &&& forall|i: int, p: int|
                0 <= i < messages.len() && 0 <= p < flight_body(messages, i).len()
                    ==> #[trigger] records_have(records, first_seq, i, p)
            &&& forall|r: int|
                0 <= r < records.len() ==> encodings(#[trigger] records[r]).len() <= capacity
        }),
{
    lemma_flight(capacity, first_seq, messages, 0, 0, Seq::empty());
}

/// `fragments` are cut from the messages of a flight one after the other, from the
/// byte at `offset` of the message `idx` on: every fragment begins where the one
/// before it ends, and none is empty.
pub open spec fn are_cut_from(
    fragments: Seq<HandshakeFragment>,
    first_seq: int,
    messages: Seq<(HandshakeType, Vec<u8>)>,
    idx: int,
    offset: int,
) -> bool
    decreases messages.len() - idx, flight_body(messages, idx).len() - offset,
{
    if fragments.len() == 0 {
        true
    } else if idx < 0 || idx >= messages.len() {
        false
    } else {
        let body = flight_body(messages, idx);
        let n = fragments[0].fragment_length as int;
        if offset >= body.len() {
            are_cut_from(fragments, first_seq, messages, idx + 1, 0)
        } else {
            &&& 0 < n <= body.len() - offset
            &&& fragments[0] == fragment_at(
                messages[idx].0,
                (first_seq + idx) as u16,
                body,
                offset,
                n,
            )
            &&& are_cut_from(fragments.skip(1), first_seq, messages, idx, offset + n)
        }
    }
}

/// The fragments of all records, in order.
pub open spec fn all_fragments(records: Seq<Seq<HandshakeFragment>>) -> Seq<HandshakeFragment>
    decreases records.len(),
{
    if records.len() == 0 {
        Seq::empty()
    } else {
        records[0] + all_fragments(records.skip(1))
    }
}

/// The next record and the rest of them.
proof fn lemma_all_fragments(
    record: Seq<HandshakeFragment>,
    records: Seq<Seq<HandshakeFragment>>,
)
    ensures
        all_fragments(seq![record] + records) == record + all_fragments(records),
{
    assert((seq![record] + records).skip(1) =~= records);
}

/// Records are filled with consecutive fragments from some point on.
#[verifier::rlimit(30)]
proof fn lemma_flight_in_order(
    capacity: int,
    first_seq: int,
    messages: Seq<(HandshakeType, Vec<u8>)>,
    idx: int,
    offset: int,
    current: Seq<HandshakeFragment>,
)
    requires
        DTLS_HANDSHAKE_HEADER_SIZE < capacity,
        is_flight(first_seq, messages),
        0 <= idx <= messages.len(),
        0 <= offset,
        idx < messages.len() ==> offset <= flight_body(messages, idx).len(),
        encodings(current).len() <= capacity,
    ensures
        ({
            let records = flight_records(capacity, first_seq, messages, idx, offset, current);
            let fragments = all_fragments(records);
            let k = current.len() as int;
            &&& records.len() > 0 ==> {
                &&& k <= fragments.len()
                &&& fragments.take(k) == current
                &&& are_cut_from(fragments.skip(k), first_seq, messages, idx, offset)
            }
            &&& forall|r: int| 0 <= r < records.len() ==> (#[trigger] records[r]).len() > 0
            &&& forall|r: int|
                0 <= r < records.len() - 1 ==> capacity - encodings(#[trigger] records[r]).len()
                    <= DTLS_HANDSHAKE_HEADER_SIZE
        }),
    decreases messages.len() - idx, flight_body(messages, idx).len() - offset,
{
    let records = flight_records(capacity, first_seq, messages, idx, offset, current);
    if idx < messages.len() {
        let body = flight_body(messages, idx);
        if offset >= body.len() {
            lemma_flight_in_order(capacity, first_seq, messages, idx + 1, 0, current);
        } else {
            let no_room = capacity - encodings(current).len() <= DTLS_HANDSHAKE_HEADER_SIZE;
            let base = if no_room {
                Seq::empty()
            } else {
                current
            };
            let room = if no_room {
                capacity - DTLS_HANDSHAKE_HEADER_SIZE
            } else {
                capacity - encodings(current).len() - DTLS_HANDSHAKE_HEADER_SIZE
            };
            let n = smaller(room, body.len() - offset);
            let piece = fragment_at(messages[idx].0, (first_seq + idx) as u16, body, offset, n);
            let grown = base.push(piece);
            let finished = n == room || (idx + 1 == messages.len() && offset + n == body.len());
            let next: Seq<HandshakeFragment> = if finished {
                Seq::empty()
            } else {
                grown
            };
            let rest = flight_records(capacity, first_seq, messages, idx, offset + n, next);
            assert(messages[idx].1@.len() <= 4 + U24_MAX);
            lemma_piece_is_valid(piece, messages[idx].0, piece.message_seq, body);
            lemma_encodings_push(base, piece);
            lemma_flight_in_order(capacity, first_seq, messages, idx, offset + n, next);
            if finished && n < room {
                assert(flight_records(capacity, first_seq, messages, idx + 1, 0, next).len() == 0);
                assert(rest.len() == 0);
            }
            // The records without the one that had no room any more.
            let filled = if finished {
                seq![grown] + rest
            } else {
                rest
            };
            let fragments = all_fragments(filled);
            let b = base.len() as int;
            lemma_all_fragments(grown, rest);
            if filled.len() > 0 {
                let behind = all_fragments(rest).skip(next.len() as int);
                if rest.len() == 0 {
                    assert(behind =~= Seq::empty());
                } else {
                    assert(all_fragments(rest) =~= next + behind);
                }
                assert(fragments =~= grown + behind);
                assert(fragments.skip(b) =~= seq![piece] + behind);
                assert(fragments.skip(b).skip(1) =~= behind);
                assert(fragments.take(b) =~= base);
                assert(are_cut_from(behind, first_seq, messages, idx, offset + n));
                assert(are_cut_from(fragments.skip(b), first_seq, messages, idx, offset));
            }
            assert forall|r: int| 0 <= r < filled.len() implies (#[trigger] filled[r]).len() > 0
                && (r < filled.len() - 1 ==> capacity - encodings(filled[r]).len()
                <= DTLS_HANDSHAKE_HEADER_SIZE) by {
                if finished && r > 0 {
                    assert(filled[r] == rest[r - 1]);
                }
            }
            if no_room {
                lemma_all_fragments(current, filled);
                assert(records =~= seq![current] + filled);
                assert(all_fragments(records).take(current.len() as int) =~= current);
                assert(all_fragments(records).skip(current.len() as int) =~= fragments);
                assert(fragments.skip(0) =~= fragments);
                assert forall|r: int| 0 <= r < records.len() implies (#[trigger] records[r]).len()
                    > 0 && (r < records.len() - 1 ==> capacity - encodings(records[r]).len()
                    <= DTLS_HANDSHAKE_HEADER_SIZE) by {
                    if r > 0 {
                        assert(records[r] == filled[r - 1]);
                    }
                }
            } else {
                assert(records =~= filled);
            }
        }
    }
}

/// The records of a flight hold the messages one after the other: the fragments of
/// a message are consecutive and in order, without a gap or an overlap, and those of
/// the next message follow.
pub proof fn law_flight_fragments_are_consecutive(
    capacity: int,
    first_seq: int,
    messages: Seq<(HandshakeType, Vec<u8>)>,
)
    requires
        DTLS_HANDSHAKE_HEADER_SIZE < capacity,
        is_flight(first_seq, messages),
    ensures
        are_cut_from(
            all_fragments(flight_records(capacity, first_seq, messages, 0, 0, Seq::empty())),
            first_seq,
            messages,
            0,
            0,
        ),
{
    lemma_flight_in_order(capacity, first_seq, messages, 0, 0, Seq::empty());
    let fragments = all_fragments(
        flight_records(capacity, first_seq, messages, 0, 0, Seq::empty()),
    );
    assert(fragments.skip(0) =~= fragments);
}

/// A fragment that follows another one in a flight either continues its message
/// where the other one ends, or is the start of a later message and the other one is
/// the end of its own.
pub proof fn law_fragments_follow_each_other(
    fragments: Seq<HandshakeFragment>,
    first_seq: int,
    messages: Seq<(HandshakeType, Vec<u8>)>,
    idx: int,
    offset: int,
    k: int,
)
    requires
        is_flight(first_seq, messages),
        0 <= idx,
        0 <= offset,
        are_cut_from(fragments, first_seq, messages, idx, offset),
        0 <= k < fragments.len() - 1,
    ensures
        ({
            let this = fragments[k];
            let next = fragments[k + 1];
            let end = this.fragment_offset + this.fragment_length;
            &&& this.fragment_length > 0 && next.fragment_length > 0
            &&& if next.message_seq == this.message_seq {
                next.fragment_offset == end
            } else {
                &&& next.message_seq > this.message_seq
                &&& next.fragment_offset == 0
                &&& end == this.length
            }
        }),
    decreases messages.len() - idx, flight_body(messages, idx).len() - offset,
{
    let body = flight_body(messages, idx);
    assert(messages[idx].1@.len() <= 4 + U24_MAX);
    if offset >= body.len() {
        law_fragments_follow_each_other(fragments, first_seq, messages, idx + 1, 0, k);
    } else {
        let n = fragments[0].fragment_length as int;
        let rest = fragments.skip(1);
        if k > 0 {
            law_fragments_follow_each_other(rest, first_seq, messages, idx, offset + n, k - 1);
            assert(rest[k - 1] == fragments[k]);
            assert(rest[k] == fragments[k + 1]);
        } else {
            assert(rest[0] == fragments[1]);
            lemma_cut_front(rest, first_seq, messages, idx, offset + n);
        }
    }
}

/// Where the first of the fragments that are cut from some point on begins.
proof fn lemma_cut_front(
    fragments: Seq<HandshakeFragment>,
    first_seq: int,
    messages: Seq<(HandshakeType, Vec<u8>)>,
    idx: int,
    offset: int,
)
    requires
        is_flight(first_seq, messages),
        0 <= idx < messages.len(),
        0 <= offset <= flight_body(messages, idx).len(),
        are_cut_from(fragments, first_seq, messages, idx, offset),
        fragments.len() > 0,
    ensures
        fragments[0].fragment_length > 0,
        if fragments[0].message_seq == first_seq + idx {
            fragments[0].fragment_offset == offset
        } else {
            &&& fragments[0].message_seq > first_seq + idx
            &&& fragments[0].fragment_offset == 0
            &&& offset == flight_body(messages, idx).len()
        },
    decreases messages.len() - idx,
{
    assert(messages[idx].1@.len() <= 4 + U24_MAX);
    if offset >= flight_body(messages, idx).len() {
        assert(are_cut_from(fragments, first_seq, messages, idx + 1, 0));
        lemma_cut_front(fragments, first_seq, messages, idx + 1, 0);
    }
}

/// Records of a flight are filled: every one but the last leaves no room for a
/// fragment, and none is empty.
pub proof fn law_flight_records_are_filled(
    capacity: int,
    first_seq: int,
    messages: Seq<(HandshakeType, Vec<u8>)>,
)
    requires
        DTLS_HANDSHAKE_HEADER_SIZE < capacity,
        is_flight(first_seq, messages),
    ensures
        ({
            let records = flight_records(capacity, first_seq, messages, 0, 0, Seq::empty());
            &&& forall|r: int| 0 <= r < records.len() ==> (#[trigger] records[r]).len() > 0
            &&& forall|r: int|
                0 <= r < records.len() - 1 ==> capacity - encodings(#[trigger] records[r]).len()
                    <= DTLS_HANDSHAKE_HEADER_SIZE
        }),
{
    lemma_flight_in_order(capacity, first_seq, messages, 0, 0, Seq::empty());
}

/// `items` are the contents of all fragments of a flight, in whatever order and however
/// often.
pub open spec fn are_flight_items(
    items: Seq<SpanContent>,
    records: Seq<Seq<HandshakeFragment>>,
) -> bool {
    &&& forall|f: HandshakeFragment| #[trigger]
        occurs(records, f) ==> items.contains(content_of(f, ProtocolVersion::DTLSv1_2))
    &&& forall|j: int|
        0 <= j < items.len() ==> exists|f: HandshakeFragment| #[trigger]
            occurs(records, f) && #[trigger] items[j] == content_of(f, ProtocolVersion::DTLSv1_2)
}

/// The sequence numbers of the messages of a flight.
pub open spec fn flight_seqs(
    first_seq: int,
    flight: Seq<(HandshakeType, Vec<u8>)>,
) -> Seq<HandshakeSequenceNumber> {
    Seq::new(flight.len(), |i: int| (first_seq + i) as u16)
}

/// The bodies of the messages of a flight.
pub open spec fn flight_bodies(flight: Seq<(HandshakeType, Vec<u8>)>) -> Seq<Seq<u8>> {
    Seq::new(flight.len(), |i: int| flight_body(flight, i))
}

/// The messages of a flight, one after the other.
pub open spec fn are_flight_messages(
    messages: Seq<SpanContent>,
    first_seq: int,
    flight: Seq<(HandshakeType, Vec<u8>)>,
) -> bool {
    &&& messages.len() == flight.len()
    &&& forall|i: int|
        0 <= i < messages.len() ==> is_whole(
            #[trigger] messages[i],
            (first_seq + i) as u16,
            flight_body(flight, i),
        )
}

/// The fragments of a flight hold one of its messages.
proof fn lemma_flight_has_message(
    capacity: int,
    first_seq: int,
    flight: Seq<(HandshakeType, Vec<u8>)>,
    items: Seq<SpanContent>,
    k: int,
)
    requires
        DTLS_HANDSHAKE_HEADER_SIZE < capacity,
        is_flight(first_seq, flight),
        forall|i: int| 0 <= i < flight.len() ==> #[trigger] flight_body(flight, i).len() > 0,
        are_flight_items(
            items,
            flight_records(capacity, first_seq, flight, 0, 0, Seq::empty()),
        ),
        0 <= k < flight.len(),
    ensures
        has_message(items, (first_seq + k) as u16, flight_body(flight, k)),
{
    let records = flight_records(capacity, first_seq, flight, 0, 0, Seq::empty());
    let seq = (first_seq + k) as u16;
    let message = flight_body(flight, k);
    assert(message.len() > 0);
    assert(flight[k].1@.len() <= 4 + U24_MAX);
    assert(flight_body(flight, flight.len() - 1).len() > 0);
    law_flight_records(capacity, first_seq, flight);
    assert forall|j: int| 0 <= j < items.len() && (#[trigger] items[j]).seq == seq implies
        is_fragment_of(items[j], seq, message) by {
        let f = choose|f: HandshakeFragment| #[trigger]
            occurs(records, f) && items[j] == content_of(f, ProtocolVersion::DTLSv1_2);
        assert(is_flight_piece(f, first_seq, flight));
        lemma_piece_is_valid(f, flight[k].0, seq, message);
    }
    assert forall|p: int| 0 <= p < message.len() implies #[trigger] has_byte(items, seq, p) by {
        assert(records_have(records, first_seq, k, p));
        let f = choose|f: HandshakeFragment| #[trigger]
            occurs(records, f) && f.message_seq == first_seq + k && has_position(f, p);
        let item = content_of(f, ProtocolVersion::DTLSv1_2);
        assert(items.contains(item));
        assert(items[items.index_of(item)] == item);
    }
    assert(has_byte(items, seq, 0));
    let j = choose|i: int|
        #![trigger items[i]]
        0 <= i < items.len() && items[i].seq == seq && items[i].offset <= 0 < items[i].offset
            + items[i].length;
    assert(is_fragment_of(items[j], seq, message));
}

/// The fragments of a flight hold its messages and nothing else.
proof fn lemma_flight_holds_messages(
    capacity: int,
    first_seq: int,
    flight: Seq<(HandshakeType, Vec<u8>)>,
    items: Seq<SpanContent>,
)
    requires
        DTLS_HANDSHAKE_HEADER_SIZE < capacity,
        is_flight(first_seq, flight),
        forall|i: int| 0 <= i < flight.len() ==> #[trigger] flight_body(flight, i).len() > 0,
        flight.len() > 0,
        are_flight_items(
            items,
            flight_records(capacity, first_seq, flight, 0, 0, Seq::empty()),
        ),
    ensures
        holds_messages(items, flight_seqs(first_seq, flight), flight_bodies(flight)),
{
    let records = flight_records(capacity, first_seq, flight, 0, 0, Seq::empty());
    let seqs = flight_seqs(first_seq, flight);
    let bodies = flight_bodies(flight);
    assert forall|k: int| 0 <= k < seqs.len() implies has_message(
        items,
        #[trigger] seqs[k],
        bodies[k],
    ) by {
        lemma_flight_has_message(capacity, first_seq, flight, items, k);
    }
    assert(flight_body(flight, flight.len() - 1).len() > 0);
    law_flight_records(capacity, first_seq, flight);
    assert forall|j: int| 0 <= j < items.len() implies seqs.contains((#[trigger] items[j]).seq) by {
        let f = choose|f: HandshakeFragment| #[trigger]
            occurs(records, f) && items[j] == content_of(f, ProtocolVersion::DTLSv1_2);
        assert(is_flight_piece(f, first_seq, flight));
        assert(seqs[f.message_seq - first_seq] == items[j].seq);
    }
}

/// All messages of a flight are reassembled, in the order of the flight, once all
/// of its records have arrived, in whatever order, if no message is empty.
pub proof fn law_flight_is_reassembled(
    capacity: int,
    first_seq: int,
    flight: Seq<(HandshakeType, Vec<u8>)>,
    items: Seq<SpanContent>,
)
    requires
        DTLS_HANDSHAKE_HEADER_SIZE < capacity,
        is_flight(first_seq, flight),
        forall|i: int| 0 <= i < flight.len() ==> #[trigger] flight_body(flight, i).len() > 0,
        flight.len() > 0,
        are_flight_items(
            items,
            flight_records(capacity, first_seq, flight, 0, 0, Seq::empty()),
        ),
    ensures
        are_flight_messages(reassembled(items).0, first_seq, flight),
        reassembled(items).1.len() == 0,
{
    let seqs = flight_seqs(first_seq, flight);
    let bodies = flight_bodies(flight);
    lemma_flight_holds_messages(capacity, first_seq, flight, items);
    law_complete_messages_are_reassembled(items, seqs, bodies);
    let messages = reassembled(items).0;
    assert forall|i: int| 0 <= i < messages.len() implies is_whole(
        #[trigger] messages[i],
        (first_seq + i) as u16,
        flight_body(flight, i),
    ) by {
        assert(is_whole(messages[i], seqs[i], bodies[i]));
    }
}

/// All messages of a flight are left in the order of the flight if the records arrive
/// in batches and are coalesced after each, such as after every record.
pub proof fn law_flight_is_completed_step_by_step(
    capacity: int,
    first_seq: int,
    flight: Seq<(HandshakeType, Vec<u8>)>,
    batches: Seq<Seq<SpanContent>>,
)
    requires
        DTLS_HANDSHAKE_HEADER_SIZE < capacity,
        is_flight(first_seq, flight),
        forall|i: int| 0 <= i < flight.len() ==> #[trigger] flight_body(flight, i).len() > 0,
        flight.len() > 0,
        are_flight_items(
            all_items(batches),
            flight_records(capacity, first_seq, flight, 0, 0, Seq::empty()),
        ),
    ensures
        are_flight_messages(left_over_after(batches), first_seq, flight),
{
    let seqs = flight_seqs(first_seq, flight);
    let bodies = flight_bodies(flight);
    lemma_flight_holds_messages(capacity, first_seq, flight, all_items(batches));
    law_messages_are_completed_step_by_step(batches, seqs, bodies);
    let messages = left_over_after(batches);
    assert forall|i: int| 0 <= i < messages.len() implies is_whole(
        #[trigger] messages[i],
        (first_seq + i) as u16,
        flight_body(flight, i),
    ) by {
        assert(is_whole(messages[i], seqs[i], bodies[i]));
    }
}

/// The first of several encodings.
proof fn lemma_encodings_first(fragments: Seq<HandshakeFragment>)
    requires
        fragments.len() > 0,
    ensures
        encodings(fragments) == fragments[0].encoding() + encodings(fragments.skip(1)),
    decreases fragments.len(),
{
    if fragments.len() == 1 {
        assert(fragments.drop_last() =~= Seq::empty());
        assert(fragments.skip(1) =~= Seq::empty());
        assert(encodings(fragments) =~= fragments[0].encoding() + encodings(fragments.skip(1)));
    } else {
        lemma_encodings_first(fragments.drop_last());
        assert(fragments.drop_last().skip(1) =~= fragments.skip(1).drop_last());
        assert(encodings(fragments) =~= fragments[0].encoding() + encodings(fragments.skip(1)));
    }
}

/// A record payload that consists of encoded fragments is taken apart into
/// exactly those fragments.
pub proof fn law_record_payload_is_taken_apart(
    fragments: Seq<HandshakeFragment>,
    version: ProtocolVersion,
    start: int,
    end: int,
    buf: Seq<u8>,
)
    requires
        forall|i: int| 0 <= i < fragments.len() ==> (#[trigger] fragments[i]).is_valid(),
        0 <= start,
        start + encodings(fragments).len() <= end <= buf.len() <= usize::MAX,
        buf.subrange(start, start + encodings(fragments).len()) == encodings(fragments),
    ensures
        ({
            let (spans, error) = input_spans(version, start, end, encodings(fragments));
            &&& error is None
            &&& contents(spans, buf) == fragments.map_values(
                |f: HandshakeFragment| content_of(f, version),
            )
        }),
    decreases fragments.len(),
{
    let payload = encodings(fragments);
    let (spans, error) = input_spans(version, start, end, payload);
    let expected = fragments.map_values(|f: HandshakeFragment| content_of(f, version));
    if fragments.len() == 0 {
        assert(contents(spans, buf) =~= expected);
    } else {
        let first = fragments[0];
        let rest = fragments.skip(1);
        lemma_encodings_first(fragments);
        lemma_handshake_header_len(first);
        law_handshake_fragment_round_trip(first, encodings(rest));
        let len = first.encoding().len() as int;
        assert(payload.skip(len) =~= encodings(rest));
        assert(buf.subrange(start, start + len) =~= buf.subrange(
            start,
            start + payload.len(),
        ).take(len));
        assert(payload.take(len) =~= first.encoding());
        assert(buf.subrange(start + len, start + len + encodings(rest).len()) =~= buf.subrange(
            start,
            start + payload.len(),
        ).skip(len));
        law_record_payload_is_taken_apart(rest, version, start + len, end, buf);
        let (more, _) = input_spans(version, start + len, end, encodings(rest));
        let others = rest.map_values(|f: HandshakeFragment| content_of(f, version));
        assert(contents(spans, buf) =~= seq![content_of(first, version)] + contents(more, buf));
        assert(expected =~= seq![content_of(first, version)] + others);
    }
}

/// Where the pieces lie that bytes are cut into: the first one begins at the first byte,
/// every one but the last is as long as the limit, and the next one begins where it ends.
pub proof fn law_where_pieces_lie(bytes: Seq<u8>, limit: nat, i: int)
    requires
        limit > 0,
        0 <= i < chunks(bytes, limit).len(),
    ensures
        ({
            let pieces = chunks(bytes, limit);
            &&& i * limit < bytes.len()
            &&& i < pieces.len() - 1 ==> (i + 1) * limit < bytes.len() && pieces[i]
                == bytes.subrange(i * limit, (i + 1) * limit)
            &&& i == pieces.len() - 1 ==> bytes.len() <= (i + 1) * limit && pieces[i]
                == bytes.subrange(i * limit, bytes.len() as int)
        }),
    decreases bytes.len(),
{
    let pieces = chunks(bytes, limit);
    let l = limit as int;
    assert(0 * l == 0 && (0 + 1) * l == l) by (nonlinear_arith);
    if bytes.len() <= limit {
        assert(pieces[0] =~= bytes.subrange(0, bytes.len() as int));
    } else {
        let rest = bytes.skip(l);
        let others = chunks(rest, limit);
        assert(pieces =~= seq![bytes.take(l)] + others);
        if i == 0 {
            assert(pieces[0] =~= bytes.subrange(0, l));
            assert(others.len() > 0);
        } else {
            law_where_pieces_lie(rest, limit, i - 1);
            assert(pieces[i] == others[i - 1]);
            assert(i * l == (i - 1) * l + l && (i + 1) * l == (i - 1 + 1) * l + l)
                by (nonlinear_arith);
            if i < pieces.len() - 1 {
                assert(rest.subrange((i - 1) * l, (i - 1 + 1) * l) =~= bytes.subrange(
                    i * l,
                    (i + 1) * l,
                ));
            } else {
                assert(rest.subrange((i - 1) * l, rest.len() as int) =~= bytes.subrange(
                    i * l,
                    bytes.len() as int,
                ));
            }
        }
    }
}

/// Where the fragments of a handshake message lie in it. They are cut like any other bytes,
/// and every one says which message it is of, how long that is, and what part it is.
pub proof fn law_where_fragments_lie(
    msg_type: HandshakeType,
    message_seq: HandshakeSequenceNumber,
    message: Seq<u8>,
    offset: int,
    limit: int,
)
    requires
        0 <= offset,
        0 < limit,
        message.len() <= U24_MAX,
    ensures
        ({
            let fragments = dtls_fragments(msg_type, message_seq, message, offset, limit);
            let pieces = if offset < message.len() {
                chunks(message.skip(offset), limit as nat)
            } else {
                Seq::empty()
            };
            &&& fragments.len() == pieces.len()
            &&& forall|i: int|
                0 <= i < fragments.len() ==> {
                    &&& (#[trigger] fragments[i]).msg_type == msg_type
                    &&& fragments[i].message_seq == message_seq
                    &&& fragments[i].length == message.len()
                    &&& fragments[i].fragment_offset == offset + i * limit
                    &&& fragments[i].fragment_length == pieces[i].len()
                    &&& fragments[i].fragment == pieces[i]
                }
        }),
    decreases message.len() - offset,
{
    let fragments = dtls_fragments(msg_type, message_seq, message, offset, limit);
    if offset < message.len() {
        let left = message.skip(offset);
        let pieces = chunks(left, limit as nat);
        let n = smaller(limit, message.len() - offset);
        let rest = dtls_fragments(msg_type, message_seq, message, offset + n, limit);
        law_where_fragments_lie(msg_type, message_seq, message, offset + n, limit);
        assert(fragments =~= seq![fragments[0]] + rest);
        assert(0 * limit == 0) by (nonlinear_arith);
        if left.len() <= limit {
            assert(rest.len() == 0);
            assert(pieces =~= seq![left]);
            assert(message.subrange(offset, offset + n) =~= left);
        } else {
            assert(left.skip(limit) =~= message.skip(offset + n));
            assert(pieces =~= seq![left.take(limit)] + chunks(left.skip(limit), limit as nat));
            assert(message.subrange(offset, offset + n) =~= left.take(limit));
            assert forall|i: int| 0 <= i < fragments.len() implies {
                &&& (#[trigger] fragments[i]).msg_type == msg_type
                &&& fragments[i].message_seq == message_seq
                &&& fragments[i].length == message.len()
                &&& fragments[i].fragment_offset == offset + i * limit
                &&& fragments[i].fragment_length == pieces[i].len()
                &&& fragments[i].fragment == pieces[i]
            } by {
                if i > 0 {
                    assert(fragments[i] == rest[i - 1]);
                    assert(i * limit == (i - 1) * limit + limit) by (nonlinear_arith);
                }
            }
        }
    }
}

/// How much payload fits into a record besides its header: 13 bytes for Datagram TLS, or 5.
pub proof fn law_record_capacity(fragmenter: MessageFragmenter)
    ensures
        fragmenter.payload_max(ProtocolVersion::DTLSv1_2) == fragmenter.max() - 13,
        fragmenter.payload_max(ProtocolVersion::DTLSv1_3) == fragmenter.max() - 13,
        forall|version: ProtocolVersion| #[trigger]
            fragmenter.payload_max(version) == fragmenter.max() - if version is DTLSv1_2
                || version is DTLSv1_3 {
                13int
            } else {
                5
            },
{
}

/// A fragment reaches the end of its message.
pub open spec fn ends_message(fragment: HandshakeFragment) -> bool {
    fragment.fragment_offset + fragment.fragment_length == fragment.length
}

/// Messages are cut only where a record is full: every fragment reaches the end of its
/// message, but for the last one in a record that has no room left at all.
pub open spec fn is_cut_when_full(record: Seq<HandshakeFragment>, capacity: int) -> bool {
    forall|k: int|
        0 <= k < record.len() ==> ends_message(#[trigger] record[k]) || k == record.len() - 1
            && encodings(record).len() == capacity
}

/// Messages are cut only where a record is full, from some point on.
proof fn lemma_cut_when_full(
    capacity: int,
    first_seq: int,
    messages: Seq<(HandshakeType, Vec<u8>)>,
    idx: int,
    offset: int,
    current: Seq<HandshakeFragment>,
)
    requires
        DTLS_HANDSHAKE_HEADER_SIZE < capacity,
        is_flight(first_seq, messages),
        0 <= idx <= messages.len(),
        0 <= offset,
        encodings(current).len() <= capacity,
        forall|k: int| 0 <= k < current.len() ==> ends_message(#[trigger] current[k]),
    ensures
        ({
            let records = flight_records(capacity, first_seq, messages, idx, offset, current);
            forall|r: int|
                0 <= r < records.len() ==> is_cut_when_full(#[trigger] records[r], capacity)
        }),
    decreases messages.len() - idx, flight_body(messages, idx).len() - offset,
{
    let records = flight_records(capacity, first_seq, messages, idx, offset, current);
    if idx < messages.len() {
        let body = flight_body(messages, idx);
        if offset >= body.len() {
            lemma_cut_when_full(capacity, first_seq, messages, idx + 1, 0, current);
            assert(records == flight_records(capacity, first_seq, messages, idx + 1, 0, current));
        } else {
            let no_room = capacity - encodings(current).len() <= DTLS_HANDSHAKE_HEADER_SIZE;
            let base = if no_room {
                Seq::empty()
            } else {
                current
            };
            let room = if no_room {
                capacity - DTLS_HANDSHAKE_HEADER_SIZE
            } else {
                capacity - encodings(current).len() - DTLS_HANDSHAKE_HEADER_SIZE
            };
            let n = smaller(room, body.len() - offset);
            let piece = fragment_at(messages[idx].0, (first_seq + idx) as u16, body, offset, n);
            let grown = base.push(piece);
            let finished = n == room || (idx + 1 == messages.len() && offset + n == body.len());
            let next: Seq<HandshakeFragment> = if finished {
                Seq::empty()
            } else {
                grown
            };
            let rest = flight_records(capacity, first_seq, messages, idx, offset + n, next);
            assert(messages[idx].1@.len() <= 4 + U24_MAX);
            lemma_piece_is_valid(piece, messages[idx].0, piece.message_seq, body);
            lemma_encodings_push(base, piece);
            assert(n < room ==> ends_message(piece));
            lemma_cut_when_full(capacity, first_seq, messages, idx, offset + n, next);
            assert(is_cut_when_full(current, capacity));
            if finished {
                assert(is_cut_when_full(grown, capacity));
            }
            assert forall|r: int| 0 <= r < records.len() implies is_cut_when_full(
                #[trigger] records[r],
                capacity,
            ) by {
                let before = if no_room {
                    seq![current]
                } else {
                    Seq::empty()
                };
                let own = if finished {
                    seq![grown]
                } else {
                    Seq::empty()
                };
                assert(records =~= before + own + rest);
                let front = before + own;
                if r >= front.len() {
                    assert(records[r] == rest[r - front.len()]);
                } else {
                    assert(records[r] == current || records[r] == grown);
                }
            }
        }
    }
}

/// Messages of a flight are not cut needlessly: a message that does not fit into the rest of
/// a record takes all of that rest, to the last byte, and goes on in the next record.
pub proof fn law_messages_are_cut_when_records_are_full(
    capacity: int,
    first_seq: int,
    messages: Seq<(HandshakeType, Vec<u8>)>,
    r: int,
)
    requires
        12 < capacity,
        is_flight(first_seq, messages),
        0 <= r < flight_records(capacity, first_seq, messages, 0, 0, Seq::empty()).len(),
    ensures
        ({
            let record = flight_records(capacity, first_seq, messages, 0, 0, Seq::empty())[r];
            let last = record.last();
            &&& record.len() > 0
            &&& forall|k: int|
                0 <= k < record.len() - 1 ==> (#[trigger] record[k]).fragment_offset
                    + record[k].fragment_length == record[k].length
            &&& last.fragment_offset + last.fragment_length < last.length ==> encodings(
                record,
            ).len() == capacity
        }),
{
    lemma_cut_when_full(capacity, first_seq, messages, 0, 0, Seq::empty());
    lemma_flight_in_order(capacity, first_seq, messages, 0, 0, Seq::empty());
    let record = flight_records(capacity, first_seq, messages, 0, 0, Seq::empty())[r];
    assert(is_cut_when_full(record, capacity));
    assert forall|k: int| 0 <= k < record.len() - 1 implies (#[trigger] record[k]).fragment_offset
        + record[k].fragment_length == record[k].length by {
        assert(ends_message(record[k]));
    }
    assert(record.last() == record[record.len() - 1]);
    assert(ends_message(record[record.len() - 1]) || encodings(record).len() == capacity);
}

/// A flight of one message is that message, cut so that every fragment has a record of its
/// own.
proof fn lemma_single_message_flight(
    capacity: int,
    first_seq: int,
    messages: Seq<(HandshakeType, Vec<u8>)>,
    offset: int,
)
    requires
        12 < capacity,
        is_flight(first_seq, messages),
        messages.len() == 1,
        0 <= offset,
    ensures
        ({
            let records = flight_records(capacity, first_seq, messages, 0, offset, Seq::empty());
            let fragments = dtls_fragments(
                messages[0].0,
                first_seq as u16,
                messages[0].1@.skip(4),
                offset,
                capacity - 12,
            );
            &&& records.len() == fragments.len()
            &&& forall|i: int|
                0 <= i < records.len() ==> #[trigger] records[i] == seq![fragments[i]]
        }),
    decreases messages[0].1@.len() - 4 - offset,
{
    let body = flight_body(messages, 0);
    let records = flight_records(capacity, first_seq, messages, 0, offset, Seq::empty());
    let limit = capacity - 12;
    let fragments = dtls_fragments(messages[0].0, first_seq as u16, body, offset, limit);
    assert(messages[0].1@.len() >= 4);
    if offset >= body.len() {
        assert(flight_records(capacity, first_seq, messages, 1, 0, Seq::empty()).len() == 0);
    } else {
        let n = smaller(limit, body.len() - offset);
        let piece = fragment_at(messages[0].0, first_seq as u16, body, offset, n);
        assert(encodings(Seq::<HandshakeFragment>::empty()).len() == 0);
        lemma_single_message_flight(capacity, first_seq, messages, offset + n);
        let rest = flight_records(capacity, first_seq, messages, 0, offset + n, Seq::empty());
        let others = dtls_fragments(messages[0].0, first_seq as u16, body, offset + n, limit);
        let grown = Seq::<HandshakeFragment>::empty().push(piece);
        assert(grown =~= seq![piece]);
        assert(records =~= seq![grown] + rest);
        assert(fragments =~= seq![piece] + others);
        assert forall|i: int| 0 <= i < records.len() implies #[trigger] records[i]
            == seq![fragments[i]] by {
            if i > 0 {
                assert(records[i] == rest[i - 1]);
                assert(fragments[i] == others[i - 1]);
            }
        }
    }
}

/// A flight of one message is fragmented like the message by itself: every fragment has a
/// record of its own, and is as large as the record allows.
pub proof fn law_flight_of_one_message(
    capacity: int,
    first_seq: int,
    messages: Seq<(HandshakeType, Vec<u8>)>,
    i: int,
)
    requires
        12 < capacity,
        is_flight(first_seq, messages),
        messages.len() == 1,
    ensures
        ({
            let records = flight_records(capacity, first_seq, messages, 0, 0, Seq::empty());
            let fragments = dtls_fragments(
                messages[0].0,
                first_seq as u16,
                messages[0].1@.skip(4),
                0,
                capacity - 12,
            );
            &&& records.len() == fragments.len()
            &&& 0 <= i < records.len() ==> records[i] == seq![fragments[i]]
        }),
{
    lemma_single_message_flight(capacity, first_seq, messages, 0);
}

/// The records of a flight are handshake records of DTLS 1.2, numbered one after the other
/// from the first number on, in the epoch that was given. Their payload is the encodings of
/// the fragments, one behind the other.
pub proof fn law_records_are_numbered(
    records: Seq<EncodedMessage<Payload<'static>>>,
    expected: Seq<Seq<HandshakeFragment>>,
    first: EpochAndSequence,
    i: int,
)
    requires
        are_records(records, expected, first),
        0 <= i < expected.len(),
        first.sequence + expected.len() <= u64::MAX,
    ensures
        records.len() == expected.len(),
        records[i].typ.code() == 22,
        records[i].version.code() == 0xfefd,
        records[i].epoch_and_sequence is Some,
        records[i].epoch_and_sequence->Some_0.epoch == first.epoch,
        records[i].epoch_and_sequence->Some_0.sequence == first.sequence + i,
        records[i].payload@ == encodings(expected[i]),
{
    assert(records[i].payload@ == encodings(expected[i]));
}

/// Encodings stand one behind the other: one fragment is its own encoding, and more of them
/// come behind.
pub proof fn law_encodings_are_put_in_order(
    fragments: Seq<HandshakeFragment>,
    fragment: HandshakeFragment,
)
    ensures
        encodings(fragments + seq![fragment]) == encodings(fragments) + fragment.encoding(),
        encodings(seq![fragment]) == fragment.encoding(),
{
    lemma_encodings_push(fragments, fragment);
    assert(fragments.push(fragment) =~= fragments + seq![fragment]);
    let none = Seq::<HandshakeFragment>::empty();
    lemma_encodings_push(none, fragment);
    assert(none.push(fragment) =~= seq![fragment]);
    assert(encodings(seq![fragment]) =~= fragment.encoding());
}

} // verus!
