//! How fragments are put in order and coalesced, one by one.

use vstd::prelude::*;

use crate::msgs::deframer::FutureEpochDeframed;
use crate::msgs::dtls::HandshakeSequenceNumber;
use crate::msgs::reassembly::{
    coalesced, contents, extended, inserted, lemma_sorted_contents, not_after, ordered, packed,
    reassembled, records_kept, sorted_spans, FragmentSpan, SpanContent,
};
use crate::msgs::reassembly_laws::{law_ordered, lemma_ordered_multiset};

verus! {

/// What spans refer to: the bytes between their bounds, and what their headers say.
pub proof fn law_contents_of_spans(spans: Seq<FragmentSpan>, buf: Seq<u8>, i: int)
    requires
        0 <= i < spans.len(),
        spans[i].bounds.start <= spans[i].bounds.end <= buf.len(),
        spans[i].dtls_fragment_fields is Some,
    ensures
        ({
            let content = contents(spans, buf)[i];
            let span = spans[i];
            &&& contents(spans, buf).len() == spans.len()
            &&& content.version == span.version
            &&& content.size == span.size
            &&& span.dtls_fragment_fields matches Some((seq, offset, length))
            &&& content.seq == seq
            &&& content.offset == offset.0
            &&& content.length == length.0
            &&& content.bytes.len() == span.bounds.end - span.bounds.start
            &&& forall|k: int|
                0 <= k < content.bytes.len() ==> #[trigger] content.bytes[k]
                    == buf[span.bounds.start + k]
        }),
{
}

/// A span is complete if and only if it has as many bytes as a handshake header of its
/// version and the whole message take.
pub proof fn law_complete_spans(span: FragmentSpan)
    ensures
        span.complete() <==> {
            &&& span.size is Some
            &&& span.bounds.end - span.bounds.start == span.size->Some_0 + if span.version
                is DTLSv1_0 || span.version is DTLSv1_2 || span.version is DTLSv1_3 {
                12int
            } else {
                4
            }
        },
{
}

/// Fragments are ordered by message, and within a message by where they begin. Each comes as
/// often as before.
pub proof fn law_fragments_are_sorted(items: Seq<SpanContent>, i: int, j: int)
    requires
        0 <= i < j < items.len(),
    ensures
        ({
            let sorted = ordered(items);
            &&& sorted.len() == items.len()
            &&& sorted.to_multiset() == items.to_multiset()
            &&& sorted[i].seq <= sorted[j].seq
            &&& sorted[i].seq == sorted[j].seq ==> sorted[i].offset <= sorted[j].offset
        }),
{
    law_ordered(items);
    lemma_ordered_multiset(items);
    let a = ordered(items)[i];
    let b = ordered(items)[j];
    assert(not_after(a, b));
}

/// Sorting spans sorts what they refer to, in any buffer.
pub proof fn law_spans_are_sorted(spans: Seq<FragmentSpan>, buf: Seq<u8>)
    ensures
        contents(sorted_spans(spans), buf) == ordered(contents(spans, buf)),
{
    lemma_sorted_contents(spans, buf);
}

/// Those of `items` that begin at `offset` of the message `seq`.
pub open spec fn beginning_at(
    items: Seq<SpanContent>,
    seq: HandshakeSequenceNumber,
    offset: int,
) -> Seq<SpanContent>
    decreases items.len(),
{
    if items.len() == 0 {
        Seq::empty()
    } else if items[0].seq == seq && items[0].offset == offset {
        seq![items[0]] + beginning_at(items.skip(1), seq, offset)
    } else {
        beginning_at(items.skip(1), seq, offset)
    }
}

/// An item is inserted in front of those that begin where it begins.
proof fn lemma_inserted_in_front(
    sorted: Seq<SpanContent>,
    item: SpanContent,
    seq: HandshakeSequenceNumber,
    offset: int,
)
    ensures
        beginning_at(inserted(sorted, item), seq, offset) == if item.seq == seq && item.offset
            == offset {
            seq![item] + beginning_at(sorted, seq, offset)
        } else {
            beginning_at(sorted, seq, offset)
        },
    decreases sorted.len(),
{
    let all = inserted(sorted, item);
    if sorted.len() == 0 || item.seq < sorted[0].seq || (item.seq == sorted[0].seq && item.offset
        <= sorted[0].offset) {
        assert(all == seq![item] + sorted);
        assert(all.skip(1) =~= sorted);
    } else {
        let tail = sorted.skip(1);
        lemma_inserted_in_front(tail, item, seq, offset);
        assert(all == seq![sorted[0]] + inserted(tail, item));
        assert(all.skip(1) =~= inserted(tail, item));
    }
}

/// Fragments that begin at the same place of the same message keep the order in which they
/// have arrived.
pub proof fn law_ties_keep_their_order(
    items: Seq<SpanContent>,
    seq: HandshakeSequenceNumber,
    offset: int,
)
    ensures
        beginning_at(ordered(items), seq, offset) == beginning_at(items, seq, offset),
    decreases items.len(),
{
    if items.len() > 0 {
        let tail = items.skip(1);
        law_ties_keep_their_order(tail, seq, offset);
        lemma_inserted_in_front(ordered(tail), items[0], seq, offset);
    }
}

/// Of a fragment that is appended, only what goes beyond the message so far is taken: what
/// was there stays, byte for byte, even where the two disagree, and the end of the fragment
/// comes behind it.
pub proof fn law_only_new_bytes_are_appended(into: SpanContent, next: SpanContent)
    requires
        next.version.is_datagram(),
        0 <= next.offset <= into.length,
        0 <= next.length,
        next.bytes.len() == 12 + next.length,
    ensures
        ({
            let grown = extended(into, next);
            let end = next.offset + next.length;
            let added = if end > into.length {
                end - into.length
            } else {
                0
            };
            &&& grown.seq == into.seq
            &&& grown.version == into.version
            &&& grown.size == into.size
            &&& grown.offset == into.offset
            &&& grown.length == into.length + added
            &&& grown.bytes.len() == into.bytes.len() + added
            &&& grown.bytes.take(into.bytes.len() as int) == into.bytes
            &&& grown.bytes.skip(into.bytes.len() as int) == next.bytes.skip(
                next.bytes.len() - added,
            )
        }),
{
    let grown = extended(into, next);
    let n = into.bytes.len() as int;
    assert(grown.bytes.take(n) =~= into.bytes);
    let end = next.offset + next.length;
    if end > into.length {
        assert(grown.bytes.skip(n) =~= next.bytes.skip(next.bytes.len() - (end - into.length)));
    } else {
        assert(grown.bytes.skip(n) =~= next.bytes.skip(next.bytes.len() as int));
    }
}

/// Fragments are coalesced one at a time. A first fragment of a later message begins that
/// message. One that begins within what there is of the last message, or right behind it,
/// is appended to it. Anything else has to wait, and everything behind it too.
pub proof fn law_fragments_are_coalesced_one_at_a_time(
    done: Seq<SpanContent>,
    rest: Seq<SpanContent>,
)
    requires
        rest.len() > 0,
        rest[0].offset >= 0,
    ensures
        ({
            let next = rest[0];
            let others = rest.skip(1);
            let begins = done.len() == 0 || next.seq > done[done.len() - 1].seq;
            let result = coalesced(done, rest);
            &&& begins && next.offset == 0 ==> result == coalesced(done + seq![next], others)
            &&& begins && next.offset != 0 ==> result == (done, rest)
            &&& !begins && next.offset > done[done.len() - 1].length ==> result == (done, rest)
            &&& !begins && next.offset <= done[done.len() - 1].length ==> result == coalesced(
                done.update(done.len() - 1, extended(done[done.len() - 1], next)),
                others,
            )
        }),
        coalesced(done, Seq::empty()) == (done, Seq::<SpanContent>::empty()),
{
    let next = rest[0];
    assert(done.push(next) =~= done + seq![next]);
    if done.len() > 0 {
        let n = done.len() - 1;
        let grown = extended(done[n], next);
        assert(done.drop_last().push(grown) =~= done.update(n, grown));
    }
}

/// What is coalesced from some point on, and what waits.
proof fn lemma_waiting(done: Seq<SpanContent>, rest: Seq<SpanContent>)
    requires
        forall|i: int| 0 <= i < rest.len() ==> (#[trigger] rest[i]).offset >= 0,
        forall|i: int| 0 <= i < done.len() ==> (#[trigger] done[i]).offset == 0,
        forall|i: int, j: int|
            #![trigger done[i], done[j]]
            0 <= i < j < done.len() ==> done[i].seq < done[j].seq,
    ensures
        ({
            let (messages, waiting) = coalesced(done, rest);
            &&& waiting.len() <= rest.len()
            &&& waiting == rest.skip(rest.len() - waiting.len())
            &&& forall|i: int| 0 <= i < messages.len() ==> (#[trigger] messages[i]).offset == 0
            &&& forall|i: int, j: int|
                #![trigger messages[i], messages[j]]
                0 <= i < j < messages.len() ==> messages[i].seq < messages[j].seq
            &&& waiting.len() > 0 ==> if messages.len() == 0 || waiting[0].seq
                > messages.last().seq {
                waiting[0].offset > 0
            } else {
                waiting[0].offset > messages.last().length
            }
        }),
    decreases rest.len(),
{
    assert(rest.skip(0) =~= rest);
    if rest.len() > 0 {
        let next = rest[0];
        let others = rest.skip(1);
        let (messages, waiting) = coalesced(done, rest);
        assert forall|i: int| 0 <= i < others.len() implies (#[trigger] others[i]).offset >= 0 by {
            assert(rest[i + 1].offset >= 0);
        }
        if done.len() == 0 || next.seq > done.last().seq {
            if next.offset == 0 {
                let more = done.push(next);
                assert forall|i: int, j: int|
                    #![trigger more[i], more[j]]
                    0 <= i < j < more.len() implies more[i].seq < more[j].seq by {
                    if j == done.len() && i < done.len() - 1 {
                        assert(done[i].seq < done[done.len() - 1].seq);
                    }
                }
                lemma_waiting(more, others);
                assert(others.skip(others.len() - waiting.len()) =~= rest.skip(
                    rest.len() - waiting.len(),
                ));
            } else {
                assert(waiting.skip(0) =~= waiting);
            }
        } else if next.offset <= done.last().length {
            let grown = done.drop_last().push(extended(done.last(), next));
            assert forall|i: int, j: int|
                #![trigger grown[i], grown[j]]
                0 <= i < j < grown.len() implies grown[i].seq < grown[j].seq by {
                assert(done[i].seq < done[j].seq);
            }
            assert forall|i: int| 0 <= i < grown.len() implies (#[trigger] grown[i]).offset
                == 0 by {
                assert(done[i].offset == 0);
            }
            lemma_waiting(grown, others);
            assert(others.skip(others.len() - waiting.len()) =~= rest.skip(
                rest.len() - waiting.len(),
            ));
        } else {
            assert(waiting.skip(0) =~= waiting);
        }
    }
}

/// What waits is the end of the fragments in order, and it begins where something is missing:
/// with a fragment that does not begin its message, of which nothing is coalesced, or that
/// begins behind the end of what is. What is coalesced begins at the start of a message
/// each, and has no message twice.
pub proof fn law_what_waits_begins_with_a_gap(items: Seq<SpanContent>)
    requires
        forall|i: int| 0 <= i < items.len() ==> (#[trigger] items[i]).offset >= 0,
    ensures
        ({
            let (messages, waiting) = reassembled(items);
            let sorted = ordered(items);
            &&& waiting.len() <= sorted.len()
            &&& waiting == sorted.skip(sorted.len() - waiting.len())
            &&& forall|i: int| 0 <= i < messages.len() ==> (#[trigger] messages[i]).offset == 0
            &&& forall|i: int, j: int|
                #![trigger messages[i], messages[j]]
                0 <= i < j < messages.len() ==> messages[i].seq < messages[j].seq
            &&& waiting.len() > 0 ==> if messages.len() == 0 || waiting[0].seq
                > messages.last().seq {
                waiting[0].offset > 0
            } else {
                waiting[0].offset > messages.last().length
            }
        }),
{
    law_ordered(items);
    let sorted = ordered(items);
    assert forall|i: int| 0 <= i < sorted.len() implies (#[trigger] sorted[i]).offset >= 0 by {
        assert(sorted.contains(sorted[i]));
        let j = items.index_of(sorted[i]);
        assert(items[j] == sorted[i]);
    }
    lemma_waiting(Seq::empty(), sorted);
}

/// Packed spans lie one behind the other from the front of the buffer on, without a gap.
pub proof fn law_packed_spans_are_consecutive(spans: Seq<FragmentSpan>, n: int, k: int)
    requires
        packed(spans, n),
        0 <= k < n,
    ensures
        k == 0 ==> spans[0].bounds.start == 0,
        k > 0 ==> spans[k].bounds.start == spans[k - 1].bounds.end,
    decreases n,
{
    if k < n - 1 {
        law_packed_spans_are_consecutive(spans, n - 1, k);
    }
}

/// Records that are kept through coalescing have the same bytes and epochs as before, and
/// there are as many of them.
pub proof fn law_kept_records_are_unchanged(
    now: Seq<FutureEpochDeframed>,
    buf: Seq<u8>,
    then: Seq<FutureEpochDeframed>,
    old_buf: Seq<u8>,
    i: int,
)
    requires
        records_kept(now, buf, then, old_buf),
        0 <= i < then.len(),
    ensures
        now.len() == then.len(),
        now[i].epoch == then[i].epoch,
        buf.subrange(now[i].bounds.start as int, now[i].bounds.end as int) == old_buf.subrange(
            then[i].bounds.start as int,
            then[i].bounds.end as int,
        ),
{
}

} // verus!
