//! What reassembly promises: once all fragments of a message are there, in
//! whatever order and however they overlap, the message comes out.

use vstd::prelude::*;

use crate::msgs::dtls::HandshakeSequenceNumber;
use crate::msgs::reassembly::{
    coalesced, contents, extended, inserted, not_after, ordered, packed, reassembled, spans_fit,
    FragmentSpan, SpanContent,
};

verus! {

/// `item` is a fragment of the message with the given sequence number and body.
pub open spec fn is_fragment_of(
    item: SpanContent,
    seq: HandshakeSequenceNumber,
    message: Seq<u8>,
) -> bool {
    &&& item.seq == seq
    &&& item.version.is_datagram()
    &&& item.size == Some(message.len() as usize)
    &&& 0 <= item.offset
    &&& 0 <= item.length
    &&& item.offset + item.length <= message.len()
    &&& item.bytes.len() == 12 + item.length
    &&& item.bytes.skip(12) == message.subrange(item.offset, item.offset + item.length)
}

/// Some fragment of the message `seq` among `items` has the byte at `position`.
pub open spec fn has_byte(
    items: Seq<SpanContent>,
    seq: HandshakeSequenceNumber,
    position: int,
) -> bool {
    exists|i: int|
        #![trigger items[i]]
        0 <= i < items.len() && items[i].seq == seq && items[i].offset <= position < items[i].offset
            + items[i].length
}

/// Some fragment of the message `seq` among `items` is a first fragment.
pub open spec fn has_start(items: Seq<SpanContent>, seq: HandshakeSequenceNumber) -> bool {
    exists|i: int|
        #![trigger items[i]]
        0 <= i < items.len() && items[i].seq == seq && items[i].offset == 0
}

/// All of `items` that belong to the message `seq` are fragments of it.
pub open spec fn agree_with(
    items: Seq<SpanContent>,
    seq: HandshakeSequenceNumber,
    message: Seq<u8>,
) -> bool {
    forall|i: int|
        0 <= i < items.len() && (#[trigger] items[i]).seq == seq ==> is_fragment_of(
            items[i],
            seq,
            message,
        )
}

/// `items` hold all of the message with the given sequence number and body, in
/// fragments that agree with it.
pub open spec fn has_message(
    items: Seq<SpanContent>,
    seq: HandshakeSequenceNumber,
    message: Seq<u8>,
) -> bool {
    &&& message.len() <= usize::MAX
    &&& agree_with(items, seq, message)
    &&& has_start(items, seq)
    &&& forall|p: int| 0 <= p < message.len() ==> #[trigger] has_byte(items, seq, p)
}

/// `items` hold all of the message with the given sequence number and body, and
/// nothing of earlier messages.
pub open spec fn holds_message(
    items: Seq<SpanContent>,
    seq: HandshakeSequenceNumber,
    message: Seq<u8>,
) -> bool {
    &&& has_message(items, seq, message)
    &&& forall|i: int| 0 <= i < items.len() ==> (#[trigger] items[i]).seq >= seq
}

/// `items` hold all of the messages with the given sequence numbers and bodies, and
/// nothing else.
pub open spec fn holds_messages(
    items: Seq<SpanContent>,
    seqs: Seq<HandshakeSequenceNumber>,
    bodies: Seq<Seq<u8>>,
) -> bool {
    &&& seqs.len() == bodies.len()
    &&& forall|j: int, k: int|
        #![trigger seqs[j], seqs[k]]
        0 <= j < k < seqs.len() ==> seqs[j] < seqs[k]
    &&& forall|k: int|
        0 <= k < seqs.len() ==> has_message(items, #[trigger] seqs[k], bodies[k])
    &&& forall|i: int| 0 <= i < items.len() ==> seqs.contains((#[trigger] items[i]).seq)
}

/// `header` is the handshake header of a first fragment of the message `seq`.
pub open spec fn has_header(
    items: Seq<SpanContent>,
    seq: HandshakeSequenceNumber,
    header: Seq<u8>,
) -> bool {
    exists|i: int|
        #![trigger items[i]]
        0 <= i < items.len() && items[i].seq == seq && items[i].offset == 0
            && items[i].bytes.take(12) == header
}

/// `item` is the message with the given sequence number and body, up to
/// `item.length`.
pub open spec fn is_front_of(
    item: SpanContent,
    seq: HandshakeSequenceNumber,
    message: Seq<u8>,
) -> bool {
    &&& item.seq == seq
    &&& item.version.is_datagram()
    &&& item.size == Some(message.len() as usize)
    &&& 0 <= item.length <= message.len()
    &&& item.bytes.len() == 12 + item.length
    &&& item.bytes.skip(12) == message.take(item.length)
}

/// `item` is the whole message with the given sequence number and body: a
/// handshake header and then the body.
pub open spec fn is_whole(
    item: SpanContent,
    seq: HandshakeSequenceNumber,
    message: Seq<u8>,
) -> bool {
    &&& item.seq == seq
    &&& item.version.is_datagram()
    &&& item.size == Some(message.len() as usize)
    &&& item.length == message.len()
    &&& item.bytes.len() == 12 + message.len()
    &&& item.bytes.skip(12) == message
}

/// The fragments of messages behind the one with sequence number `seq`.
pub open spec fn later(items: Seq<SpanContent>, seq: HandshakeSequenceNumber) -> Seq<SpanContent>
    decreases items.len(),
{
    if items.len() == 0 {
        Seq::empty()
    } else if items[0].seq > seq {
        seq![items[0]] + later(items.skip(1), seq)
    } else {
        later(items.skip(1), seq)
    }
}

/// `items` are in the order in which they are reassembled.
pub open spec fn is_ordered(items: Seq<SpanContent>) -> bool {
    forall|i: int, j: int|
        #![trigger items[i], items[j]]
        0 <= i < j < items.len() ==> not_after(items[i], items[j])
}

/// Inserting adds one item and keeps the order.
proof fn lemma_inserted(sorted: Seq<SpanContent>, item: SpanContent)
    requires
        is_ordered(sorted),
    ensures
        is_ordered(inserted(sorted, item)),
        inserted(sorted, item).len() == sorted.len() + 1,
        forall|x: SpanContent| #[trigger]
            inserted(sorted, item).contains(x) <==> x == item || sorted.contains(x),
    decreases sorted.len(),
{
    let all = inserted(sorted, item);
    if sorted.len() == 0 || not_after(item, sorted[0]) {
        assert(all == seq![item] + sorted);
        assert forall|i: int, j: int|
            #![trigger all[i], all[j]]
            0 <= i < j < all.len() implies not_after(all[i], all[j]) by {
            if i > 0 {
                assert(not_after(sorted[i - 1], sorted[j - 1]));
            } else if j > 1 {
                assert(not_after(sorted[0], sorted[j - 1]));
            }
        }
        assert forall|x: SpanContent| #[trigger] all.contains(x) <==> x == item || sorted.contains(
            x,
        ) by {
            if sorted.contains(x) {
                let i = sorted.index_of(x);
                assert(all[i + 1] == x);
            }
            if x == item {
                assert(all[0] == x);
            }
            if all.contains(x) {
                let i = all.index_of(x);
                if i > 0 {
                    assert(sorted[i - 1] == x);
                }
            }
        }
    } else {
        let tail = sorted.skip(1);
        lemma_inserted(tail, item);
        let rest = inserted(tail, item);
        assert(all == seq![sorted[0]] + rest);
        assert forall|i: int, j: int|
            #![trigger all[i], all[j]]
            0 <= i < j < all.len() implies not_after(all[i], all[j]) by {
            if i > 0 {
                assert(not_after(rest[i - 1], rest[j - 1]));
            } else {
                let x = rest[j - 1];
                assert(rest.contains(x));
                if x != item {
                    let k = tail.index_of(x);
                    assert(tail.contains(x));
                    assert(sorted[k + 1] == x);
                    assert(not_after(sorted[0], sorted[k + 1]));
                }
            }
        }
        assert forall|x: SpanContent| #[trigger] all.contains(x) <==> x == item || sorted.contains(
            x,
        ) by {
            if all.contains(x) {
                let i = all.index_of(x);
                if i > 0 {
                    assert(rest[i - 1] == x);
                    assert(rest.contains(x));
                    if x != item {
                        let k = tail.index_of(x);
                        assert(sorted[k + 1] == x);
                    }
                } else {
                    assert(sorted[0] == x);
                }
            }
            if x == item || sorted.contains(x) {
                if x != item {
                    let k = sorted.index_of(x);
                    if k == 0 {
                        assert(all[0] == x);
                    } else {
                        assert(tail[k - 1] == x);
                        assert(tail.contains(x));
                        assert(rest.contains(x));
                        let i = rest.index_of(x);
                        assert(all[i + 1] == x);
                    }
                } else {
                    assert(rest.contains(x));
                    let i = rest.index_of(x);
                    assert(all[i + 1] == x);
                }
            }
        }
    }
}

/// Sorting loses nothing, adds nothing and puts everything in order.
pub proof fn law_ordered(items: Seq<SpanContent>)
    ensures
        is_ordered(ordered(items)),
        ordered(items).len() == items.len(),
        forall|x: SpanContent| #[trigger] ordered(items).contains(x) <==> items.contains(x),
    decreases items.len(),
{
    if items.len() > 0 {
        let tail = items.skip(1);
        law_ordered(tail);
        lemma_inserted(ordered(tail), items[0]);
        assert forall|x: SpanContent| #[trigger] ordered(items).contains(x) <==> items.contains(
            x,
        ) by {
            if items.contains(x) {
                let i = items.index_of(x);
                if i > 0 {
                    assert(tail[i - 1] == x);
                    assert(tail.contains(x));
                }
            }
            if tail.contains(x) {
                let i = tail.index_of(x);
                assert(items[i + 1] == x);
            }
            if x == items[0] {
                assert(items.contains(x));
            }
        }
    }
}

/// Taking out the earlier messages and inserting can be done in either order.
proof fn lemma_later_inserted(
    sorted: Seq<SpanContent>,
    item: SpanContent,
    seq: HandshakeSequenceNumber,
)
    requires
        is_ordered(sorted),
    ensures
        later(inserted(sorted, item), seq) == if item.seq > seq {
            inserted(later(sorted, seq), item)
        } else {
            later(sorted, seq)
        },
    decreases sorted.len(),
{
    let all = inserted(sorted, item);
    if sorted.len() == 0 || not_after(item, sorted[0]) {
        assert(all.skip(1) =~= sorted);
        if item.seq > seq {
            if sorted.len() > 0 {
                assert(sorted[0].seq > seq);
                assert(later(sorted, seq)[0] == sorted[0]);
            }
        }
    } else {
        let tail = sorted.skip(1);
        lemma_later_inserted(tail, item, seq);
        assert(all.skip(1) =~= inserted(tail, item));
        assert(all[0] == sorted[0]);
        if sorted[0].seq > seq {
            let front = later(sorted, seq);
            assert(front == seq![sorted[0]] + later(tail, seq));
            assert(front.skip(1) =~= later(tail, seq));
            assert(item.seq > seq);
        } else if item.seq > seq {
            assert(later(sorted, seq) == later(tail, seq));
        }
    }
}

/// Taking out the earlier messages and sorting can be done in either order.
proof fn lemma_later_ordered(items: Seq<SpanContent>, seq: HandshakeSequenceNumber)
    ensures
        later(ordered(items), seq) == ordered(later(items, seq)),
    decreases items.len(),
{
    if items.len() > 0 {
        let tail = items.skip(1);
        lemma_later_ordered(tail, seq);
        law_ordered(tail);
        lemma_later_inserted(ordered(tail), items[0], seq);
        if items[0].seq > seq {
            assert(later(items, seq).skip(1) =~= later(tail, seq));
        }
    }
}

/// In order, the fragments of the first message come first.
proof fn lemma_first_message(
    sorted: Seq<SpanContent>,
    seq: HandshakeSequenceNumber,
) -> (k: int)
    requires
        is_ordered(sorted),
        forall|i: int| 0 <= i < sorted.len() ==> (#[trigger] sorted[i]).seq >= seq,
    ensures
        0 <= k <= sorted.len(),
        forall|i: int| 0 <= i < k ==> (#[trigger] sorted[i]).seq == seq,
        forall|i: int| k <= i < sorted.len() ==> (#[trigger] sorted[i]).seq > seq,
        sorted.skip(k) == later(sorted, seq),
    decreases sorted.len(),
{
    if sorted.len() == 0 {
        assert(sorted.skip(0) =~= later(sorted, seq));
        0
    } else if sorted[0].seq > seq {
        let tail = sorted.skip(1);
        let k = lemma_first_message(tail, seq);
        assert forall|i: int| 0 <= i < sorted.len() implies (#[trigger] sorted[i]).seq > seq by {
            if i > 0 {
                assert(not_after(sorted[0], sorted[i]));
            }
        }
        if k > 0 {
            assert(tail[0] == sorted[1]);
        }
        assert(tail.skip(0) =~= tail);
        assert(sorted.skip(0) =~= seq![sorted[0]] + tail);
        0
    } else {
        let tail = sorted.skip(1);
        let k = lemma_first_message(tail, seq);
        assert forall|i: int| 0 <= i < k + 1 implies (#[trigger] sorted[i]).seq == seq by {
            if i > 0 {
                assert(tail[i - 1] == sorted[i]);
            }
        }
        assert forall|i: int| k + 1 <= i < sorted.len() implies (#[trigger] sorted[i]).seq > seq by {
            assert(tail[i - 1] == sorted[i]);
        }
        assert(sorted.skip(k + 1) =~= tail.skip(k));
        k + 1
    }
}

/// A message that has its front grows to the whole as its fragments follow in
/// order.
proof fn lemma_growing(
    into: SpanContent,
    rest: Seq<SpanContent>,
    k: int,
    seq: HandshakeSequenceNumber,
    message: Seq<u8>,
) -> (whole: SpanContent)
    requires
        message.len() <= usize::MAX,
        0 <= k <= rest.len(),
        is_front_of(into, seq, message),
        is_ordered(rest),
        forall|i: int| 0 <= i < k ==> is_fragment_of(#[trigger] rest[i], seq, message),
        forall|p: int|
            into.length <= p < message.len() ==> #[trigger] has_byte(rest.take(k), seq, p),
    ensures
        is_whole(whole, seq, message),
        whole.bytes.take(12) == into.bytes.take(12),
        coalesced(seq![into], rest) == coalesced(seq![whole], rest.skip(k)),
    decreases k,
{
    if k == 0 {
        if into.length < message.len() {
            assert(has_byte(rest.take(0), seq, into.length));
        }
        assert(message.take(message.len() as int) =~= message);
        assert(rest.skip(0) =~= rest);
        into
    } else {
        let next = rest[0];
        if next.offset > into.length {
            let p = into.length;
            assert(has_byte(rest.take(k), seq, p));
            let i = choose|i: int|
                #![trigger rest.take(k)[i]]
                0 <= i < k && rest.take(k)[i].seq == seq && rest.take(k)[i].offset <= p
                    < rest.take(k)[i].offset + rest.take(k)[i].length;
            assert(rest.take(k)[i] == rest[i]);
            if i > 0 {
                assert(not_after(rest[0], rest[i]));
            }
            assert(false);
        }
        let grown = extended(into, next);
        let overlap = into.length - next.offset;
        if overlap <= next.length {
            let added = next.bytes.skip(12 + overlap);
            assert(added =~= next.bytes.skip(12).skip(overlap));
            assert(added =~= message.subrange(into.length, next.offset + next.length));
            assert(grown.bytes.skip(12) =~= into.bytes.skip(12) + added);
            assert(grown.bytes.skip(12) =~= message.take(grown.length));
        }
        assert(is_front_of(grown, seq, message));
        assert(grown.bytes.take(12) =~= into.bytes.take(12));
        let tail = rest.skip(1);
        assert forall|p: int| grown.length <= p < message.len() implies #[trigger] has_byte(
            tail.take(k - 1),
            seq,
            p,
        ) by {
            assert(has_byte(rest.take(k), seq, p));
            let i = choose|i: int|
                #![trigger rest.take(k)[i]]
                0 <= i < k && rest.take(k)[i].seq == seq && rest.take(k)[i].offset <= p
                    < rest.take(k)[i].offset + rest.take(k)[i].length;
            assert(i > 0);
            assert(tail.take(k - 1)[i - 1] == rest.take(k)[i]);
        }
        assert forall|i: int| 0 <= i < k - 1 implies is_fragment_of(
            #[trigger] tail[i],
            seq,
            message,
        ) by {
            assert(tail[i] == rest[i + 1]);
        }
        let whole = lemma_growing(grown, tail, k - 1, seq, message);
        assert(seq![into].drop_last().push(grown) =~= seq![grown]);
        assert(tail.skip(k - 1) =~= rest.skip(k));
        whole
    }
}

/// Messages that are coalesced do not matter to those behind them.
proof fn lemma_coalesced_behind(
    front: Seq<SpanContent>,
    done: Seq<SpanContent>,
    rest: Seq<SpanContent>,
)
    requires
        done.len() > 0 || rest.len() == 0 || front.len() == 0 || rest[0].seq > front.last().seq,
    ensures
        coalesced(front + done, rest) == (
            front + coalesced(done, rest).0,
            coalesced(done, rest).1,
        ),
    decreases rest.len(),
{
    let all = front + done;
    if rest.len() > 0 {
        if done.len() > 0 {
            assert(all.last() == done.last());
        }
        if done.len() == 0 || rest[0].seq > done.last().seq {
            if rest[0].offset <= 0 {
                lemma_coalesced_behind(front, done.push(rest[0]), rest.skip(1));
                assert(all.push(rest[0]) =~= front + done.push(rest[0]));
            }
        } else if rest[0].offset <= done.last().length {
            let grown = done.drop_last().push(extended(done.last(), rest[0]));
            lemma_coalesced_behind(front, grown, rest.skip(1));
            assert(all.drop_last().push(extended(all.last(), rest[0])) =~= front + grown);
        }
    }
}

/// Once all fragments of the first message are there, in whatever order and
/// however they overlap, it is the first message to come out. What comes out
/// behind it is what the fragments of the later messages give by themselves.
pub proof fn law_complete_message_is_reassembled(
    items: Seq<SpanContent>,
    seq: HandshakeSequenceNumber,
    message: Seq<u8>,
)
    requires
        holds_message(items, seq, message),
    ensures
        ({
            let (messages, waiting) = reassembled(items);
            &&& messages.len() > 0
            &&& is_whole(messages[0], seq, message)
            &&& has_header(items, seq, messages[0].bytes.take(12))
            &&& (messages.skip(1), waiting) == reassembled(later(items, seq))
        }),
{
    let sorted = ordered(items);
    law_ordered(items);
    assert forall|i: int| 0 <= i < sorted.len() implies (#[trigger] sorted[i]).seq >= seq && (
    sorted[i].seq == seq ==> is_fragment_of(sorted[i], seq, message)) by {
        assert(sorted.contains(sorted[i]));
        let j = items.index_of(sorted[i]);
        assert(items[j] == sorted[i]);
    }
    let k = lemma_first_message(sorted, seq);
    lemma_later_ordered(items, seq);
    let start = choose|i: int|
        #![trigger items[i]]
        0 <= i < items.len() && items[i].seq == seq && items[i].offset == 0;
    assert(items.contains(items[start]));
    assert(sorted.contains(items[start]));
    let at = sorted.index_of(items[start]);
    assert(sorted[at] == items[start]);
    assert(k > 0);
    if at > 0 {
        assert(not_after(sorted[0], sorted[at]));
    }
    let first = sorted[0];
    assert(is_fragment_of(first, seq, message));
    assert(first.offset == 0);
    assert(sorted.contains(first));
    assert(items[items.index_of(first)] == first);
    let rest = sorted.skip(1);
    assert forall|i: int| 0 <= i < k - 1 implies is_fragment_of(#[trigger] rest[i], seq, message) by {
        assert(rest[i] == sorted[i + 1]);
    }
    assert forall|p: int| first.length <= p < message.len() implies #[trigger] has_byte(
        rest.take(k - 1),
        seq,
        p,
    ) by {
        assert(has_byte(items, seq, p));
        let i = choose|i: int|
            #![trigger items[i]]
            0 <= i < items.len() && items[i].seq == seq && items[i].offset <= p < items[i].offset
                + items[i].length;
        assert(items.contains(items[i]));
        assert(sorted.contains(items[i]));
        let j = sorted.index_of(items[i]);
        assert(sorted[j] == items[i]);
        assert(j < k);
        assert(j > 0);
        assert(rest.take(k - 1)[j - 1] == sorted[j]);
    }
    assert(message.subrange(0, first.length) =~= message.take(first.length));
    let whole = lemma_growing(first, rest, k - 1, seq, message);
    assert(Seq::<SpanContent>::empty().push(first) =~= seq![first]);
    assert(coalesced(Seq::empty(), sorted) == coalesced(seq![first], rest));
    assert(rest.skip(k - 1) =~= sorted.skip(k));
    let behind = sorted.skip(k);
    if behind.len() > 0 {
        assert(behind[0] == sorted[k]);
    }
    lemma_coalesced_behind(seq![whole], Seq::empty(), behind);
    assert(seq![whole] + Seq::<SpanContent>::empty() =~= seq![whole]);
    let (messages, waiting) = reassembled(items);
    let (more, _) = coalesced(Seq::empty(), behind);
    assert(messages == seq![whole] + more);
    assert(messages.skip(1) =~= more);
}

/// The later messages are those with higher sequence numbers.
proof fn lemma_later_contains(items: Seq<SpanContent>, seq: HandshakeSequenceNumber)
    ensures
        forall|x: SpanContent| #[trigger]
            later(items, seq).contains(x) <==> items.contains(x) && x.seq > seq,
    decreases items.len(),
{
    if items.len() > 0 {
        let tail = items.skip(1);
        let more = later(tail, seq);
        lemma_later_contains(tail, seq);
        assert(items =~= seq![items[0]] + tail);
        assert forall|x: SpanContent| #[trigger]
            later(items, seq).contains(x) <==> items.contains(x) && x.seq > seq by {
            if tail.contains(x) {
                assert(items[tail.index_of(x) + 1] == x);
            }
            if items.contains(x) && x != items[0] {
                assert(tail[items.index_of(x) - 1] == x);
            }
            if items[0].seq > seq {
                let all = later(items, seq);
                assert(all =~= seq![items[0]] + more);
                assert(all[0] == items[0]);
                if more.contains(x) {
                    assert(all[more.index_of(x) + 1] == x);
                }
                if all.contains(x) && x != items[0] {
                    assert(more[all.index_of(x) - 1] == x);
                }
            }
        }
    }
}

/// A message behind others is still all there without them.
proof fn lemma_later_has_message(
    items: Seq<SpanContent>,
    seq: HandshakeSequenceNumber,
    behind: HandshakeSequenceNumber,
    message: Seq<u8>,
)
    requires
        seq < behind,
        has_message(items, behind, message),
    ensures
        has_message(later(items, seq), behind, message),
{
    let more = later(items, seq);
    lemma_later_contains(items, seq);
    assert forall|i: int| 0 <= i < more.len() && (#[trigger] more[i]).seq == behind implies
        is_fragment_of(more[i], behind, message) by {
        assert(more.contains(more[i]));
        assert(items[items.index_of(more[i])] == more[i]);
    }
    let start = choose|i: int|
        #![trigger items[i]]
        0 <= i < items.len() && items[i].seq == behind && items[i].offset == 0;
    assert(items.contains(items[start]));
    assert(more.contains(items[start]));
    assert(more[more.index_of(items[start])] == items[start]);
    assert forall|p: int| 0 <= p < message.len() implies #[trigger] has_byte(more, behind, p) by {
        assert(has_byte(items, behind, p));
        let i = choose|i: int|
            #![trigger items[i]]
            0 <= i < items.len() && items[i].seq == behind && items[i].offset <= p
                < items[i].offset + items[i].length;
        assert(items.contains(items[i]));
        assert(more.contains(items[i]));
        assert(more[more.index_of(items[i])] == items[i]);
    }
}

/// Once all fragments of all messages are there, every message comes out, ordered by
/// the handshake sequence number, and nothing waits. A message consists of the
/// handshake header of a first fragment and the whole body.
pub proof fn law_complete_messages_are_reassembled(
    items: Seq<SpanContent>,
    seqs: Seq<HandshakeSequenceNumber>,
    bodies: Seq<Seq<u8>>,
)
    requires
        holds_messages(items, seqs, bodies),
    ensures
        ({
            let (messages, waiting) = reassembled(items);
            &&& waiting.len() == 0
            &&& messages.len() == seqs.len()
            &&& forall|k: int|
                0 <= k < seqs.len() ==> is_whole(#[trigger] messages[k], seqs[k], bodies[k])
                    && has_header(items, seqs[k], messages[k].bytes.take(12))
        }),
    decreases seqs.len(),
{
    if seqs.len() == 0 {
        if items.len() > 0 {
            assert(seqs.contains(items[0].seq));
        }
        assert(items =~= Seq::empty());
    } else {
        let seq = seqs[0];
        assert forall|i: int| 0 <= i < items.len() implies (#[trigger] items[i]).seq >= seq by {
            let k = seqs.index_of(items[i].seq);
            assert(seqs.contains(items[i].seq));
            if k > 0 {
                assert(seqs[0] < seqs[k]);
            }
        }
        law_complete_message_is_reassembled(items, seq, bodies[0]);
        let more = later(items, seq);
        lemma_later_contains(items, seq);
        assert forall|k: int| 0 <= k < seqs.skip(1).len() implies has_message(
            more,
            #[trigger] seqs.skip(1)[k],
            bodies.skip(1)[k],
        ) by {
            assert(seqs[0] < seqs[k + 1]);
            lemma_later_has_message(items, seq, seqs[k + 1], bodies[k + 1]);
        }
        assert forall|i: int| 0 <= i < more.len() implies seqs.skip(1).contains(
            (#[trigger] more[i]).seq,
        ) by {
            assert(more.contains(more[i]));
            assert(items[items.index_of(more[i])] == more[i]);
            assert(seqs.contains(more[i].seq));
            let k = seqs.index_of(more[i].seq);
            assert(seqs.skip(1)[k - 1] == more[i].seq);
        }
        law_complete_messages_are_reassembled(more, seqs.skip(1), bodies.skip(1));
        let (messages, _) = reassembled(items);
        assert forall|k: int| 0 <= k < seqs.len() implies is_whole(
            #[trigger] messages[k],
            seqs[k],
            bodies[k],
        ) && has_header(items, seqs[k], messages[k].bytes.take(12)) by {
            if k > 0 {
                let message = messages.skip(1)[k - 1];
                assert(messages[k] == message);
                let header = message.bytes.take(12);
                assert(has_header(more, seqs.skip(1)[k - 1], header));
                let i = choose|i: int|
                    #![trigger more[i]]
                    0 <= i < more.len() && more[i].seq == seqs[k] && more[i].offset == 0
                        && more[i].bytes.take(12) == header;
                assert(more.contains(more[i]));
                assert(items[items.index_of(more[i])] == more[i]);
            }
        }
    }
}

/// The spans lie one behind the other from the front of the buffer on.
pub open spec fn consecutive(spans: Seq<FragmentSpan>) -> bool {
    forall|k: int|
        0 <= k < spans.len() ==> (#[trigger] spans[k]).bounds.start == if k == 0 {
            0
        } else {
            spans[k - 1].bounds.end as int
        }
}

/// Packed spans are consecutive.
proof fn lemma_packed_consecutive(spans: Seq<FragmentSpan>, n: int, k: int)
    requires
        packed(spans, n),
        0 <= k < n <= spans.len(),
    ensures
        spans[k].bounds.start == if k == 0 {
            0
        } else {
            spans[k - 1].bounds.end as int
        },
    decreases n,
{
    if k < n - 1 {
        lemma_packed_consecutive(spans, n - 1, k);
    }
}

/// If a buffer contains all the fragments of one or more handshake messages,
/// coalescing leaves exactly one span for each, complete, ordered by the handshake
/// sequence number and one behind the other from the front of the buffer on.
pub proof fn law_complete_messages_are_coalesced(
    spans: Seq<FragmentSpan>,
    buf: Seq<u8>,
    new_spans: Seq<FragmentSpan>,
    new_buf: Seq<u8>,
    seqs: Seq<HandshakeSequenceNumber>,
    bodies: Seq<Seq<u8>>,
)
    requires
        holds_messages(contents(spans, buf), seqs, bodies),
        spans_fit(new_spans, new_buf.len() as int),
        contents(new_spans, new_buf) == reassembled(contents(spans, buf)).0 + reassembled(
            contents(spans, buf),
        ).1,
        packed(new_spans, reassembled(contents(spans, buf)).0.len() as int),
    ensures
        new_spans.len() == seqs.len(),
        consecutive(new_spans),
        forall|k: int|
            0 <= k < seqs.len() ==> {
                let message = (#[trigger] new_spans[k]).content(new_buf);
                &&& new_spans[k].complete()
                &&& is_whole(message, seqs[k], bodies[k])
                &&& has_header(contents(spans, buf), seqs[k], message.bytes.take(12))
            },
{
    let items = contents(spans, buf);
    law_complete_messages_are_reassembled(items, seqs, bodies);
    let (messages, waiting) = reassembled(items);
    assert(messages + waiting =~= messages);
    assert forall|k: int| 0 <= k < seqs.len() implies {
        let message = (#[trigger] new_spans[k]).content(new_buf);
        &&& new_spans[k].complete()
        &&& is_whole(message, seqs[k], bodies[k])
        &&& has_header(items, seqs[k], message.bytes.take(12))
    } by {
        assert(contents(new_spans, new_buf)[k] == messages[k]);
        assert(new_spans[k].fits(new_buf.len() as int));
    }
    assert forall|k: int| 0 <= k < new_spans.len() implies (#[trigger] new_spans[k]).bounds.start
        == if k == 0 {
        0
    } else {
        new_spans[k - 1].bounds.end as int
    } by {
        lemma_packed_consecutive(new_spans, new_spans.len() as int, k);
    }
}

/// Fragments with the same sequence number and offset are the same.
pub open spec fn no_ties(items: Seq<SpanContent>) -> bool {
    forall|i: int, j: int|
        #![trigger items[i], items[j]]
        0 <= i < items.len() && 0 <= j < items.len() && items[i].seq == items[j].seq
            && items[i].offset == items[j].offset ==> items[i] == items[j]
}

/// Inserting adds one item.
proof fn lemma_inserted_multiset(sorted: Seq<SpanContent>, item: SpanContent)
    ensures
        inserted(sorted, item).to_multiset() == sorted.to_multiset().insert(item),
    decreases sorted.len(),
{
    if sorted.len() == 0 || not_after(item, sorted[0]) {
        assert(seq![item] + sorted =~= sorted.insert(0, item));
        vstd::seq_lib::to_multiset_insert(sorted, 0, item);
    } else {
        let tail = sorted.skip(1);
        lemma_inserted_multiset(tail, item);
        let more = inserted(tail, item);
        assert(seq![sorted[0]] + more =~= more.insert(0, sorted[0]));
        assert(sorted =~= tail.insert(0, sorted[0]));
        vstd::seq_lib::to_multiset_insert(more, 0, sorted[0]);
        vstd::seq_lib::to_multiset_insert(tail, 0, sorted[0]);
        assert(tail.to_multiset().insert(item).insert(sorted[0]) =~= tail.to_multiset().insert(
            sorted[0],
        ).insert(item));
    }
}

/// Sorting keeps what there is, and how often.
pub proof fn lemma_ordered_multiset(items: Seq<SpanContent>)
    ensures
        ordered(items).to_multiset() == items.to_multiset(),
    decreases items.len(),
{
    if items.len() == 0 {
        assert(ordered(items) =~= items);
    } else {
        let tail = items.skip(1);
        lemma_ordered_multiset(tail);
        lemma_inserted_multiset(ordered(tail), items[0]);
        assert(items =~= tail.insert(0, items[0]));
        vstd::seq_lib::to_multiset_insert(tail, 0, items[0]);
    }
}

/// There is only one way to put fragments in order if there are no ties.
proof fn lemma_order_is_unique(a: Seq<SpanContent>, b: Seq<SpanContent>)
    requires
        is_ordered(a),
        is_ordered(b),
        no_ties(a),
        a.to_multiset() == b.to_multiset(),
    ensures
        a == b,
    decreases a.len(),
{
    a.to_multiset_ensures();
    b.to_multiset_ensures();
    if a.len() > 0 {
        assert(a.contains(a[0]));
        assert(a.to_multiset().count(a[0]) > 0);
        assert(b.contains(a[0]));
        let j = b.index_of(a[0]);
        if j > 0 {
            assert(not_after(b[0], b[j]));
        }
        assert(b.contains(b[0]));
        assert(b.to_multiset().count(b[0]) > 0);
        assert(a.contains(b[0]));
        let i = a.index_of(b[0]);
        if i > 0 {
            assert(not_after(a[0], a[i]));
        }
        assert(a[0] == a[i]);
        let a1 = a.skip(1);
        let b1 = b.skip(1);
        assert(a1 =~= a.remove(0));
        assert(b1 =~= b.remove(0));
        lemma_order_is_unique(a1, b1);
        assert(a =~= seq![a[0]] + a1);
        assert(b =~= seq![b[0]] + b1);
    } else {
        assert(a =~= b);
    }
}

/// It does not matter in which order fragments arrive: the same fragments give the
/// same messages and leave the same fragments waiting. Where two of them begin at
/// the same offset of the same message, they have to be the same for that.
pub proof fn law_order_of_arrival_does_not_matter(
    items: Seq<SpanContent>,
    reordered: Seq<SpanContent>,
)
    requires
        items.to_multiset() == reordered.to_multiset(),
        no_ties(items),
    ensures
        reassembled(items) == reassembled(reordered),
{
    law_ordered(items);
    law_ordered(reordered);
    lemma_ordered_multiset(items);
    lemma_ordered_multiset(reordered);
    let sorted = ordered(items);
    assert forall|i: int, j: int|
        #![trigger sorted[i], sorted[j]]
        0 <= i < sorted.len() && 0 <= j < sorted.len() && sorted[i].seq == sorted[j].seq
            && sorted[i].offset == sorted[j].offset implies sorted[i] == sorted[j] by {
        assert(sorted.contains(sorted[i]) && sorted.contains(sorted[j]));
        let x = items.index_of(sorted[i]);
        let y = items.index_of(sorted[j]);
        assert(items[x] == sorted[i] && items[y] == sorted[j]);
    }
    lemma_order_is_unique(ordered(items), ordered(reordered));
}

/// Two buffers that refer to the same messages at the front are the same there.
pub proof fn law_messages_lie_alike(
    spans: Seq<FragmentSpan>,
    buf: Seq<u8>,
    other_spans: Seq<FragmentSpan>,
    other_buf: Seq<u8>,
    n: int,
)
    requires
        0 <= n <= spans.len(),
        n <= other_spans.len(),
        spans_fit(spans, buf.len() as int),
        spans_fit(other_spans, other_buf.len() as int),
        packed(spans, n),
        packed(other_spans, n),
        contents(spans, buf).take(n) == contents(other_spans, other_buf).take(n),
    ensures
        forall|k: int| 0 <= k < n ==> (#[trigger] spans[k]).bounds == other_spans[k].bounds,
        n > 0 ==> buf.take(spans[n - 1].bounds.end as int) == other_buf.take(
            spans[n - 1].bounds.end as int,
        ),
    decreases n,
{
    if n > 0 {
        assert(contents(spans, buf).take(n - 1) =~= contents(spans, buf).take(n).take(n - 1));
        assert(contents(other_spans, other_buf).take(n - 1) =~= contents(
            other_spans,
            other_buf,
        ).take(n).take(n - 1));
        law_messages_lie_alike(spans, buf, other_spans, other_buf, n - 1);
        let a = spans[n - 1];
        let b = other_spans[n - 1];
        assert(a.fits(buf.len() as int) && b.fits(other_buf.len() as int));
        assert(contents(spans, buf).take(n)[n - 1] == a.content(buf));
        assert(contents(other_spans, other_buf).take(n)[n - 1] == b.content(other_buf));
        assert(a.content(buf).bytes == b.content(other_buf).bytes);
        if n > 1 {
            assert(spans[n - 2].bounds == other_spans[n - 2].bounds);
        }
        let start = a.bounds.start as int;
        let end = a.bounds.end as int;
        assert(a.content(buf).bytes.len() == end - start);
        assert(b.content(other_buf).bytes.len() == b.bounds.end - b.bounds.start);
        assert(buf.take(end) =~= buf.take(start) + buf.subrange(start, end));
        assert(other_buf.take(end) =~= other_buf.take(start) + other_buf.subrange(start, end));
        if n == 1 {
            assert(buf.take(0) =~= other_buf.take(0));
        }
    }
}

/// `left` has the same bytes of the message `seq` as `items`, with the header of one
/// of its first fragments where there is one.
pub open spec fn keeps(
    left: Seq<SpanContent>,
    items: Seq<SpanContent>,
    seq: HandshakeSequenceNumber,
    message: Seq<u8>,
) -> bool {
    &&& agree_with(left, seq, message)
    &&& has_start(left, seq) <==> has_start(items, seq)
    &&& forall|p: int| #[trigger] has_byte(left, seq, p) <==> has_byte(items, seq, p)
    &&& forall|header: Seq<u8>| #[trigger]
        has_header(left, seq, header) ==> has_header(items, seq, header)
}

/// Some of `items` belong to the message `seq`.
pub open spec fn mentions(items: Seq<SpanContent>, seq: HandshakeSequenceNumber) -> bool {
    exists|i: int| 0 <= i < items.len() && (#[trigger] items[i]).seq == seq
}

/// What reassembly leaves: the coalesced messages and then the fragments that wait.
pub open spec fn left_over(items: Seq<SpanContent>) -> Seq<SpanContent> {
    reassembled(items).0 + reassembled(items).1
}

/// A fragment that begins the message, with a following one appended, has the bytes of
/// both.
proof fn lemma_extended(
    into: SpanContent,
    next: SpanContent,
    seq: HandshakeSequenceNumber,
    message: Seq<u8>,
)
    requires
        is_fragment_of(into, seq, message),
        is_fragment_of(next, seq, message),
        into.offset == 0,
        next.offset <= into.length,
    ensures
        is_fragment_of(extended(into, next), seq, message),
        extended(into, next).offset == 0,
        extended(into, next).bytes.take(12) == into.bytes.take(12),
        into.length <= extended(into, next).length,
        next.offset + next.length <= extended(into, next).length,
        extended(into, next).length == into.length || extended(into, next).length == next.offset
            + next.length,
{
    let grown = extended(into, next);
    let overlap = into.length - next.offset;
    if overlap <= next.length {
        let added = next.bytes.skip(12 + overlap);
        assert(added =~= next.bytes.skip(12).skip(overlap));
        assert(added =~= message.subrange(into.length, next.offset + next.length));
        assert(grown.bytes.skip(12) =~= into.bytes.skip(12) + added);
        assert(grown.bytes.skip(12) =~= message.subrange(0, grown.length));
    }
    assert(grown.bytes.take(12) =~= into.bytes.take(12));
}

/// Appending one fragment to the last coalesced message loses nothing.
proof fn lemma_append_keeps(
    done: Seq<SpanContent>,
    rest: Seq<SpanContent>,
    seq: HandshakeSequenceNumber,
    message: Seq<u8>,
)
    requires
        done.len() > 0,
        rest.len() > 0,
        done.last().offset <= 0,
        rest[0].seq == done.last().seq,
        rest[0].offset <= done.last().length,
        agree_with(done + rest, seq, message),
    ensures
        keeps(
            done.drop_last().push(extended(done.last(), rest[0])) + rest.skip(1),
            done + rest,
            seq,
            message,
        ),
{
    let before = done + rest;
    let into = done.last();
    let next = rest[0];
    let grown = extended(into, next);
    let after = done.drop_last().push(grown) + rest.skip(1);
    let n = done.len() as int;
    assert(before[n - 1] == into);
    assert(before[n] == next);
    assert(after[n - 1] == grown);
    assert(grown.seq == into.seq);
    if into.seq == seq {
        lemma_extended(into, next, seq, message);
    }
    assert forall|i: int| 0 <= i < after.len() && i != n - 1 implies #[trigger] after[i]
        == before[if i < n {
        i
    } else {
        i + 1
    }] by {}
    assert forall|i: int| 0 <= i < before.len() && i != n - 1 && i != n implies #[trigger] before[i]
        == after[if i < n {
        i
    } else {
        i - 1
    }] by {}
    if has_start(before, seq) {
        let i = choose|i: int|
            #![trigger before[i]]
            0 <= i < before.len() && before[i].seq == seq && before[i].offset == 0;
        let j = if i < n {
            i
        } else {
            i - 1
        };
        assert(after[j].seq == seq && after[j].offset == 0);
    }
    assert forall|header: Seq<u8>| #[trigger] has_header(after, seq, header) implies has_header(
        before,
        seq,
        header,
    ) by {
        let i = choose|i: int|
            #![trigger after[i]]
            0 <= i < after.len() && after[i].seq == seq && after[i].offset == 0
                && after[i].bytes.take(12) == header;
        let j = if i < n {
            i
        } else {
            i + 1
        };
        assert(before[j].seq == seq && before[j].offset == 0 && before[j].bytes.take(12) == header);
    }
    if has_start(after, seq) {
        let i = choose|i: int|
            #![trigger after[i]]
            0 <= i < after.len() && after[i].seq == seq && after[i].offset == 0;
        let j = if i < n {
            i
        } else {
            i + 1
        };
        assert(before[j].seq == seq && before[j].offset == 0);
    }
    assert forall|p: int| #[trigger] has_byte(after, seq, p) <==> has_byte(before, seq, p) by {
        if has_byte(before, seq, p) {
            let i = choose|i: int|
                #![trigger before[i]]
                0 <= i < before.len() && before[i].seq == seq && before[i].offset <= p
                    < before[i].offset + before[i].length;
            let j = if i < n {
                i
            } else {
                i - 1
            };
            assert(after[j].seq == seq && after[j].offset <= p < after[j].offset + after[j].length);
        }
        if has_byte(after, seq, p) {
            let i = choose|i: int|
                #![trigger after[i]]
                0 <= i < after.len() && after[i].seq == seq && after[i].offset <= p
                    < after[i].offset + after[i].length;
            let j = if i < n - 1 || i == n - 1 && p < into.length {
                i
            } else {
                i + 1
            };
            assert(before[j].seq == seq && before[j].offset <= p < before[j].offset
                + before[j].length);
        }
    }
}

/// Coalescing in order loses nothing and adds nothing.
proof fn lemma_coalesced_keeps(
    done: Seq<SpanContent>,
    rest: Seq<SpanContent>,
    seq: HandshakeSequenceNumber,
    message: Seq<u8>,
)
    requires
        is_ordered(rest),
        done.len() > 0 && rest.len() > 0 ==> rest[0].seq >= done.last().seq,
        forall|i: int| 0 <= i < done.len() ==> (#[trigger] done[i]).offset <= 0,
        agree_with(done + rest, seq, message),
    ensures
        keeps(coalesced(done, rest).0 + coalesced(done, rest).1, done + rest, seq, message),
    decreases rest.len(),
{
    if rest.len() > 0 {
        let next = rest[0];
        let tail = rest.skip(1);
        if tail.len() > 0 {
            assert(not_after(rest[0], rest[1]));
        }
        if done.len() == 0 || next.seq > done.last().seq {
            if next.offset <= 0 {
                assert(done.push(next) + tail =~= done + rest);
                lemma_coalesced_keeps(done.push(next), tail, seq, message);
            }
        } else if next.offset <= done.last().length {
            let grown = done.drop_last().push(extended(done.last(), next));
            lemma_append_keeps(done, rest, seq, message);
            lemma_coalesced_keeps(grown, tail, seq, message);
        }
    }
}

/// Coalescing gives nothing of messages of which there was nothing.
proof fn lemma_coalesced_mentions(
    done: Seq<SpanContent>,
    rest: Seq<SpanContent>,
    seq: HandshakeSequenceNumber,
)
    requires
        mentions(coalesced(done, rest).0 + coalesced(done, rest).1, seq),
    ensures
        mentions(done + rest, seq),
    decreases rest.len(),
{
    if rest.len() > 0 {
        let next = rest[0];
        let tail = rest.skip(1);
        if done.len() == 0 || next.seq > done.last().seq {
            if next.offset <= 0 {
                lemma_coalesced_mentions(done.push(next), tail, seq);
                assert(done.push(next) + tail =~= done + rest);
            }
        } else if next.offset <= done.last().length {
            let grown = done.drop_last().push(extended(done.last(), next));
            lemma_coalesced_mentions(grown, tail, seq);
            let after = grown + tail;
            let before = done + rest;
            let i = choose|i: int| 0 <= i < after.len() && (#[trigger] after[i]).seq == seq;
            if i < done.len() {
                assert(before[i].seq == seq);
            } else {
                assert(before[i + 1].seq == seq);
            }
        }
    }
}

/// The same fragments in another order have the same bytes.
proof fn lemma_same_items_keep(
    a: Seq<SpanContent>,
    b: Seq<SpanContent>,
    seq: HandshakeSequenceNumber,
    message: Seq<u8>,
)
    requires
        forall|x: SpanContent| #[trigger] a.contains(x) <==> b.contains(x),
        agree_with(b, seq, message),
    ensures
        keeps(a, b, seq, message),
        mentions(a, seq) ==> mentions(b, seq),
{
    assert forall|i: int| 0 <= i < a.len() implies exists|j: int|
        0 <= j < b.len() && #[trigger] b[j] == #[trigger] a[i] by {
        assert(a.contains(a[i]));
        assert(b[b.index_of(a[i])] == a[i]);
    }
    assert forall|i: int| 0 <= i < b.len() implies exists|j: int|
        0 <= j < a.len() && #[trigger] a[j] == #[trigger] b[i] by {
        assert(b.contains(b[i]));
        assert(a.contains(b[i]));
        assert(a[a.index_of(b[i])] == b[i]);
    }
}

/// Coalescing loses nothing: what it leaves has every byte of a message that was there
/// before and no other, in fragments that agree with the message, and the start of the
/// message if it was there. A header in it is that of a first fragment.
pub proof fn law_coalescing_loses_nothing(
    items: Seq<SpanContent>,
    seq: HandshakeSequenceNumber,
    message: Seq<u8>,
)
    requires
        agree_with(items, seq, message),
    ensures
        keeps(left_over(items), items, seq, message),
{
    let sorted = ordered(items);
    law_ordered(items);
    lemma_same_items_keep(sorted, items, seq, message);
    assert(Seq::<SpanContent>::empty() + sorted =~= sorted);
    lemma_coalesced_keeps(Seq::empty(), sorted, seq, message);
}

/// Coalescing leaves nothing of messages of which there was nothing.
proof fn lemma_left_over_mentions(items: Seq<SpanContent>, seq: HandshakeSequenceNumber)
    requires
        mentions(left_over(items), seq),
    ensures
        mentions(items, seq),
{
    let sorted = ordered(items);
    law_ordered(items);
    assert(Seq::<SpanContent>::empty() + sorted =~= sorted);
    lemma_coalesced_mentions(Seq::empty(), sorted, seq);
    let i = choose|i: int| 0 <= i < sorted.len() && (#[trigger] sorted[i]).seq == seq;
    assert(sorted.contains(sorted[i]));
    assert(items[items.index_of(sorted[i])] == sorted[i]);
}

/// What is in the whole is in one of the parts.
proof fn lemma_parts(a: Seq<SpanContent>, b: Seq<SpanContent>, seq: HandshakeSequenceNumber)
    ensures
        has_start(a + b, seq) <==> has_start(a, seq) || has_start(b, seq),
        mentions(a + b, seq) <==> mentions(a, seq) || mentions(b, seq),
        forall|p: int| #[trigger]
            has_byte(a + b, seq, p) <==> has_byte(a, seq, p) || has_byte(b, seq, p),
        forall|header: Seq<u8>| #[trigger]
            has_header(a + b, seq, header) <==> has_header(a, seq, header) || has_header(
                b,
                seq,
                header,
            ),
        forall|message: Seq<u8>| #[trigger]
            agree_with(a + b, seq, message) <==> agree_with(a, seq, message) && agree_with(
                b,
                seq,
                message,
            ),
{
    let all = a + b;
    let n = a.len() as int;
    assert forall|i: int| 0 <= i < all.len() implies if i < n {
        #[trigger] all[i] == a[i]
    } else {
        all[i] == b[i - n]
    } by {}
    assert forall|i: int| 0 <= i < n implies #[trigger] a[i] == all[i] by {}
    assert forall|i: int| 0 <= i < b.len() implies #[trigger] b[i] == all[i + n] by {}
}

/// If more fragments are added, the bytes that were kept are kept together with them.
proof fn lemma_more_keeps(
    left: Seq<SpanContent>,
    items: Seq<SpanContent>,
    more: Seq<SpanContent>,
    seq: HandshakeSequenceNumber,
    message: Seq<u8>,
)
    requires
        keeps(left, items, seq, message),
        agree_with(more, seq, message),
    ensures
        keeps(left + more, items + more, seq, message),
{
    lemma_parts(left, more, seq);
    lemma_parts(items, more, seq);
    assert forall|header: Seq<u8>| #[trigger]
        has_header(left + more, seq, header) implies has_header(items + more, seq, header) by {}
    assert forall|p: int| #[trigger]
        has_byte(left + more, seq, p) <==> has_byte(items + more, seq, p) by {
        assert(has_byte(left, seq, p) <==> has_byte(items, seq, p));
    }
}

/// More fragments may be added after coalescing: as soon as those from before and those
/// after it hold all of the first message, it comes out.
pub proof fn law_message_is_completed_later(
    items: Seq<SpanContent>,
    more: Seq<SpanContent>,
    seq: HandshakeSequenceNumber,
    message: Seq<u8>,
)
    requires
        holds_message(items + more, seq, message),
    ensures
        holds_message(left_over(items) + more, seq, message),
        ({
            let (messages, _) = reassembled(left_over(items) + more);
            &&& messages.len() > 0
            &&& is_whole(messages[0], seq, message)
            &&& has_header(items + more, seq, messages[0].bytes.take(12))
        }),
{
    let left = left_over(items);
    lemma_parts(items, more, seq);
    law_coalescing_loses_nothing(items, seq, message);
    lemma_more_keeps(left, items, more, seq, message);
    assert forall|p: int| 0 <= p < message.len() implies #[trigger] has_byte(
        left + more,
        seq,
        p,
    ) by {
        assert(has_byte(items + more, seq, p));
    }
    assert forall|i: int| 0 <= i < (left + more).len() implies (#[trigger] (left + more)[i]).seq
        >= seq by {
        let other = (left + more)[i].seq;
        assert(mentions(left + more, other));
        lemma_parts(left, more, other);
        lemma_parts(items, more, other);
        if mentions(left, other) {
            lemma_left_over_mentions(items, other);
        }
        let j = choose|j: int|
            0 <= j < (items + more).len() && (#[trigger] (items + more)[j]).seq == other;
        assert((items + more)[j].seq >= seq);
    }
    law_complete_message_is_reassembled(left + more, seq, message);
}

/// All fragments of several batches.
pub open spec fn all_items(batches: Seq<Seq<SpanContent>>) -> Seq<SpanContent>
    decreases batches.len(),
{
    if batches.len() == 0 {
        Seq::empty()
    } else {
        all_items(batches.drop_last()) + batches.last()
    }
}

/// What is left of several batches of fragments if they are coalesced after each.
pub open spec fn left_over_after(batches: Seq<Seq<SpanContent>>) -> Seq<SpanContent>
    decreases batches.len(),
{
    if batches.len() == 0 {
        Seq::empty()
    } else {
        left_over(left_over_after(batches.drop_last()) + batches.last())
    }
}

/// Coalescing after each of several batches of fragments loses nothing.
pub proof fn law_repeated_coalescing_loses_nothing(
    batches: Seq<Seq<SpanContent>>,
    seq: HandshakeSequenceNumber,
    message: Seq<u8>,
)
    requires
        agree_with(all_items(batches), seq, message),
    ensures
        keeps(left_over_after(batches), all_items(batches), seq, message),
    decreases batches.len(),
{
    if batches.len() > 0 {
        let before = batches.drop_last();
        let more = batches.last();
        lemma_parts(all_items(before), more, seq);
        law_repeated_coalescing_loses_nothing(before, seq, message);
        lemma_more_keeps(left_over_after(before), all_items(before), more, seq, message);
        law_coalescing_loses_nothing(left_over_after(before) + more, seq, message);
    }
}

/// Nothing is left of messages of which there was nothing.
proof fn lemma_left_over_after_mentions(
    batches: Seq<Seq<SpanContent>>,
    seq: HandshakeSequenceNumber,
)
    requires
        mentions(left_over_after(batches), seq),
    ensures
        mentions(all_items(batches), seq),
    decreases batches.len(),
{
    if batches.len() > 0 {
        let before = batches.drop_last();
        let more = batches.last();
        lemma_left_over_mentions(left_over_after(before) + more, seq);
        lemma_parts(left_over_after(before), more, seq);
        lemma_parts(all_items(before), more, seq);
        if mentions(left_over_after(before), seq) {
            lemma_left_over_after_mentions(before, seq);
        }
    }
}

/// It does not matter how often fragments are coalesced while they arrive: once all
/// fragments of all messages have arrived, in batches that are coalesced one after the
/// other, exactly the messages are left, ordered by the handshake sequence number.
pub proof fn law_messages_are_completed_step_by_step(
    batches: Seq<Seq<SpanContent>>,
    seqs: Seq<HandshakeSequenceNumber>,
    bodies: Seq<Seq<u8>>,
)
    requires
        holds_messages(all_items(batches), seqs, bodies),
    ensures
        ({
            let messages = left_over_after(batches);
            &&& messages.len() == seqs.len()
            &&& forall|k: int|
                0 <= k < seqs.len() ==> is_whole(#[trigger] messages[k], seqs[k], bodies[k])
                    && has_header(all_items(batches), seqs[k], messages[k].bytes.take(12))
        }),
{
    if batches.len() == 0 {
        if seqs.len() > 0 {
            assert(has_message(all_items(batches), seqs[0], bodies[0]));
        }
    } else {
        let all = all_items(batches);
        let before = batches.drop_last();
        let more = batches.last();
        let arrived = left_over_after(before) + more;
        assert forall|k: int| 0 <= k < seqs.len() implies has_message(
            arrived,
            #[trigger] seqs[k],
            bodies[k],
        ) && keeps(arrived, all, seqs[k], bodies[k]) by {
            lemma_parts(all_items(before), more, seqs[k]);
            assert(has_message(all, seqs[k], bodies[k]));
            assert(agree_with(all, seqs[k], bodies[k]));
            law_repeated_coalescing_loses_nothing(before, seqs[k], bodies[k]);
            lemma_more_keeps(
                left_over_after(before),
                all_items(before),
                more,
                seqs[k],
                bodies[k],
            );
            assert forall|p: int| 0 <= p < bodies[k].len() implies #[trigger] has_byte(
                arrived,
                seqs[k],
                p,
            ) by {
                assert(has_byte(all, seqs[k], p));
            }
        }
        assert forall|i: int| 0 <= i < arrived.len() implies seqs.contains(
            (#[trigger] arrived[i]).seq,
        ) by {
            let other = arrived[i].seq;
            assert(mentions(arrived, other));
            lemma_parts(left_over_after(before), more, other);
            lemma_parts(all_items(before), more, other);
            if mentions(left_over_after(before), other) {
                lemma_left_over_after_mentions(before, other);
            }
            let j = choose|j: int| 0 <= j < all.len() && (#[trigger] all[j]).seq == other;
            assert(seqs.contains(all[j].seq));
        }
        law_complete_messages_are_reassembled(arrived, seqs, bodies);
        let (messages, waiting) = reassembled(arrived);
        assert(messages + waiting =~= messages);
        assert forall|k: int| 0 <= k < seqs.len() implies has_header(
            all,
            seqs[k],
            #[trigger] messages[k].bytes.take(12),
        ) by {
            assert(keeps(arrived, all, seqs[k], bodies[k]));
            assert(is_whole(messages[k], seqs[k], bodies[k]));
        }
    }
}

/// Once the first message is complete it may be taken out: nothing of it is left then,
/// and nothing of the others is lost.
pub proof fn law_taken_message_leaves_the_others(
    items: Seq<SpanContent>,
    seq: HandshakeSequenceNumber,
    message: Seq<u8>,
    other_seq: HandshakeSequenceNumber,
    other: Seq<u8>,
)
    requires
        holds_message(items, seq, message),
        other_seq != seq,
        agree_with(items, other_seq, other),
    ensures
        left_over(items).len() > 0,
        is_whole(left_over(items)[0], seq, message),
        !mentions(left_over(items).skip(1), seq),
        keeps(left_over(items).skip(1), items, other_seq, other),
{
    let left = left_over(items);
    let rest = left.skip(1);
    law_complete_message_is_reassembled(items, seq, message);
    law_coalescing_loses_nothing(items, other_seq, other);
    assert(left =~= seq![left[0]] + rest);
    lemma_parts(seq![left[0]], rest, other_seq);
    assert forall|p: int| #[trigger] has_byte(rest, other_seq, p) <==> has_byte(
        items,
        other_seq,
        p,
    ) by {
        assert(has_byte(left, other_seq, p) <==> has_byte(items, other_seq, p));
    }
    assert forall|header: Seq<u8>| #[trigger] has_header(rest, other_seq, header) implies has_header(
        items,
        other_seq,
        header,
    ) by {
        assert(has_header(left, other_seq, header));
    }
    assert(agree_with(left, other_seq, other));
    let behind = later(items, seq);
    assert(rest =~= left_over(behind));
    if mentions(rest, seq) {
        lemma_left_over_mentions(behind, seq);
        let i = choose|i: int| 0 <= i < behind.len() && (#[trigger] behind[i]).seq == seq;
        lemma_later_contains(items, seq);
        assert(behind.contains(behind[i]));
    }
}

/// A message does not grow past a byte that no fragment has.
proof fn lemma_stays_short(
    done: Seq<SpanContent>,
    rest: Seq<SpanContent>,
    seq: HandshakeSequenceNumber,
    message: Seq<u8>,
    missing: int,
)
    requires
        0 <= missing < message.len() <= usize::MAX,
        done.len() > 0,
        is_front_of(done[0], seq, message),
        done[0].length <= missing,
        done.len() > 1 ==> done.last().seq > seq,
        is_ordered(rest),
        rest.len() > 0 ==> rest[0].seq >= done.last().seq,
        forall|i: int|
            0 <= i < rest.len() && (#[trigger] rest[i]).seq == seq ==> is_fragment_of(
                rest[i],
                seq,
                message,
            ) && !(rest[i].offset <= missing < rest[i].offset + rest[i].length),
    ensures
        coalesced(done, rest).0.len() > 0,
        is_front_of(coalesced(done, rest).0[0], seq, message),
        coalesced(done, rest).0[0].length <= missing,
    decreases rest.len(),
{
    if rest.len() > 0 {
        let next = rest[0];
        let tail = rest.skip(1);
        if tail.len() > 0 {
            assert(not_after(rest[0], rest[1]));
        }
        assert forall|i: int| 0 <= i < tail.len() && (#[trigger] tail[i]).seq == seq implies
            is_fragment_of(tail[i], seq, message) && !(tail[i].offset <= missing < tail[i].offset
            + tail[i].length) by {
            assert(tail[i] == rest[i + 1]);
        }
        if next.seq > done.last().seq {
            if next.offset <= 0 {
                lemma_stays_short(done.push(next), tail, seq, message, missing);
            }
        } else if next.offset <= done.last().length {
            let into = done.last();
            let grown = extended(into, next);
            if done.len() == 1 {
                assert(is_fragment_of(next, seq, message));
                let overlap = into.length - next.offset;
                if overlap <= next.length {
                    let added = next.bytes.skip(12 + overlap);
                    assert(added =~= next.bytes.skip(12).skip(overlap));
                    assert(added =~= message.subrange(into.length, next.offset + next.length));
                    assert(grown.bytes.skip(12) =~= into.bytes.skip(12) + added);
                    assert(grown.bytes.skip(12) =~= message.take(grown.length));
                }
            }
            lemma_stays_short(done.drop_last().push(grown), tail, seq, message, missing);
        }
    }
}

/// As long as a byte of the first message is missing, no complete message comes
/// out: either nothing is coalesced, or the first thing that is, is the front of
/// that message and ends before the missing byte.
pub proof fn law_incomplete_message_waits(
    items: Seq<SpanContent>,
    seq: HandshakeSequenceNumber,
    message: Seq<u8>,
    missing: int,
)
    requires
        message.len() <= usize::MAX,
        0 <= missing < message.len(),
        exists|i: int| 0 <= i < items.len() && (#[trigger] items[i]).seq == seq,
        forall|i: int| 0 <= i < items.len() ==> (#[trigger] items[i]).seq >= seq,
        forall|i: int|
            0 <= i < items.len() && (#[trigger] items[i]).seq == seq ==> is_fragment_of(
                items[i],
                seq,
                message,
            ),
        !has_byte(items, seq, missing),
    ensures
        ({
            let (messages, _) = reassembled(items);
            messages.len() == 0 || (is_front_of(messages[0], seq, message) && messages[0].length
                <= missing)
        }),
{
    let sorted = ordered(items);
    law_ordered(items);
    assert forall|i: int| 0 <= i < sorted.len() implies (#[trigger] sorted[i]).seq >= seq && (
    sorted[i].seq == seq ==> is_fragment_of(sorted[i], seq, message) && !(sorted[i].offset
        <= missing < sorted[i].offset + sorted[i].length)) by {
        assert(sorted.contains(sorted[i]));
        let j = items.index_of(sorted[i]);
        assert(items[j] == sorted[i]);
    }
    let some = choose|i: int| 0 <= i < items.len() && (#[trigger] items[i]).seq == seq;
    assert(items.contains(items[some]));
    assert(sorted.contains(items[some]));
    let at = sorted.index_of(items[some]);
    assert(sorted[at] == items[some]);
    if at > 0 {
        assert(not_after(sorted[0], sorted[at]));
    }
    let first = sorted[0];
    assert(first.seq == seq);
    if first.offset <= 0 {
        let rest = sorted.skip(1);
        assert(message.subrange(0, first.length) =~= message.take(first.length));
        if rest.len() > 0 {
            assert(not_after(sorted[0], sorted[1]));
        }
        assert(Seq::<SpanContent>::empty().push(first)[0] == first);
        lemma_stays_short(Seq::empty().push(first), rest, seq, message, missing);
    }
}

} // verus!
