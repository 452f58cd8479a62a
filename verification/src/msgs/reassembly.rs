//! Puts the fragments of handshake messages back together.

use core::ops::Range;
use std::collections::VecDeque;

use vstd::prelude::*;

use crate::enums::ProtocolVersion;
use crate::error::InvalidMessage;
use crate::msgs::codec::U24;
use crate::msgs::deframer::{DtlsDeframerCore, FutureEpochDeframed};
use crate::msgs::dtls::HandshakeSequenceNumber;

verus! {

/// A handshake message, or a part of one, in a buffer.
#[derive(Debug)]
pub struct FragmentSpan {
    /// Version of the record that the span was received in.
    pub version: ProtocolVersion,
    /// Length of the whole message, without its header, if it is known.
    pub size: Option<usize>,
    /// Where the handshake header and the fragment lie in the buffer.
    pub bounds: Range<usize>,
    /// Sequence number, fragment offset and fragment length, in Datagram TLS.
    pub dtls_fragment_fields: Option<(HandshakeSequenceNumber, U24, U24)>,
}

/// What a span refers to.
#[verifier::ext_equal]
pub struct SpanContent {
    pub version: ProtocolVersion,
    pub size: Option<usize>,
    pub seq: HandshakeSequenceNumber,
    pub offset: int,
    pub length: int,
    /// The handshake header and the fragment.
    pub bytes: Seq<u8>,
}

impl FragmentSpan {
    pub open spec fn seq(&self) -> HandshakeSequenceNumber {
        self.dtls_fragment_fields->Some_0.0
    }

    pub open spec fn offset(&self) -> int {
        self.dtls_fragment_fields->Some_0.1.0 as int
    }

    pub open spec fn length(&self) -> int {
        self.dtls_fragment_fields->Some_0.2.0 as int
    }

    /// What the span refers to.
    pub open spec fn content(&self, buf: Seq<u8>) -> SpanContent {
        SpanContent {
            version: self.version,
            size: self.size,
            seq: self.seq(),
            offset: self.offset(),
            length: self.length(),
            bytes: buf.subrange(self.bounds.start as int, self.bounds.end as int),
        }
    }

    /// The span lies in a buffer of `len` bytes and has room for a DTLS handshake
    /// header and the fragment.
    pub open spec fn fits(&self, len: int) -> bool {
        &&& self.dtls_fragment_fields is Some
        &&& self.bounds.start + 12 + self.length() <= self.bounds.end <= len
        &&& self.offset() + self.length() < 0x200_0000
    }

    /// A span is complete if its size is known, and its bounds exactly encompass
    /// one handshake message.
    pub open spec fn complete(&self) -> bool {
        &&& self.size matches Some(size) && size + self.version.handshake_header()
            == self.bounds.end - self.bounds.start
    }

    /// Whether the span encompasses exactly one handshake message.
    pub fn is_complete(&self) -> (r: bool)
        requires
            self.bounds.start <= self.bounds.end,
        ensures
            r == self.complete(),
    {
        match self.size {
            Some(size) => {
                let header: usize = self.version.handshake_header_size();
                let len: usize = self.bounds.end - self.bounds.start;
                len >= header && len - header == size
            },
            None => false,
        }
    }
}

/// What all spans refer to.
pub open spec fn contents(spans: Seq<FragmentSpan>, buf: Seq<u8>) -> Seq<SpanContent> {
    spans.map_values(|span: FragmentSpan| span.content(buf))
}

/// Two ranges that have no position in common.
pub open spec fn apart(a: Range<usize>, b: Range<usize>) -> bool {
    a.end <= b.start || b.end <= a.start
}

/// All spans lie in a buffer of `len` bytes and no two of them overlap there.
pub open spec fn spans_fit(spans: Seq<FragmentSpan>, len: int) -> bool {
    &&& forall|i: int| 0 <= i < spans.len() ==> (#[trigger] spans[i]).fits(len)
    &&& forall|i: int, j: int|
        #![trigger spans[i], spans[j]]
        0 <= i < j < spans.len() ==> apart(spans[i].bounds, spans[j].bounds)
}

/// The order in which fragments are reassembled: by message sequence number,
/// then by fragment offset.
pub open spec fn not_after(a: SpanContent, b: SpanContent) -> bool {
    a.seq < b.seq || (a.seq == b.seq && a.offset <= b.offset)
}

/// `sorted` with `item` in front of all that it need not come after.
pub open spec fn inserted(sorted: Seq<SpanContent>, item: SpanContent) -> Seq<SpanContent>
    decreases sorted.len(),
{
    if sorted.len() == 0 || not_after(item, sorted[0]) {
        seq![item] + sorted
    } else {
        seq![sorted[0]] + inserted(sorted.skip(1), item)
    }
}

/// `items` in the order in which they are reassembled. Items that compare equal
/// keep their order.
pub open spec fn ordered(items: Seq<SpanContent>) -> Seq<SpanContent>
    decreases items.len(),
{
    if items.len() == 0 {
        Seq::empty()
    } else {
        inserted(ordered(items.skip(1)), items[0])
    }
}

/// The order in which spans are reassembled.
pub open spec fn span_not_after(a: FragmentSpan, b: FragmentSpan) -> bool {
    a.seq() < b.seq() || (a.seq() == b.seq() && a.offset() <= b.offset())
}

/// `sorted` with `span` in front of all that it need not come after.
pub open spec fn inserted_span(sorted: Seq<FragmentSpan>, span: FragmentSpan) -> Seq<FragmentSpan>
    decreases sorted.len(),
{
    if sorted.len() == 0 || span_not_after(span, sorted[0]) {
        seq![span] + sorted
    } else {
        seq![sorted[0]] + inserted_span(sorted.skip(1), span)
    }
}

/// `spans` in the order in which they are reassembled. Spans that compare equal
/// keep their order.
pub open spec fn sorted_spans(spans: Seq<FragmentSpan>) -> Seq<FragmentSpan>
    decreases spans.len(),
{
    if spans.len() == 0 {
        Seq::empty()
    } else {
        inserted_span(sorted_spans(spans.skip(1)), spans[0])
    }
}

/// `into` with as much of `next` appended as goes beyond it.
pub open spec fn extended(into: SpanContent, next: SpanContent) -> SpanContent {
    let overlap = into.length - next.offset;
    if overlap > next.length {
        into
    } else {
        SpanContent {
            length: next.offset + next.length,
            bytes: into.bytes + next.bytes.skip(next.version.handshake_header() + overlap),
            ..into
        }
    }
}

/// Coalesces `rest`, in order, into `done`. Gives what was coalesced and what
/// was left because something is missing in front of it.
pub open spec fn coalesced(done: Seq<SpanContent>, rest: Seq<SpanContent>) -> (
    Seq<SpanContent>,
    Seq<SpanContent>,
)
    decreases rest.len(),
{
    if rest.len() == 0 {
        (done, rest)
    } else if done.len() == 0 || rest[0].seq > done.last().seq {
        // The first fragment of a message.
        if rest[0].offset > 0 {
            (done, rest)
        } else {
            coalesced(done.push(rest[0]), rest.skip(1))
        }
    } else if rest[0].offset > done.last().length {
        (done, rest)
    } else {
        coalesced(done.drop_last().push(extended(done.last(), rest[0])), rest.skip(1))
    }
}

/// What reassembly makes of a list of fragments: the coalesced messages, and the
/// fragments that have to wait.
pub open spec fn reassembled(items: Seq<SpanContent>) -> (Seq<SpanContent>, Seq<SpanContent>) {
    coalesced(Seq::empty(), ordered(items))
}

/// `perm` names every index below `n` once.
pub open spec fn is_permutation(perm: Seq<int>, n: int) -> bool {
    &&& perm.len() == n
    &&& forall|i: int| 0 <= i < n ==> 0 <= #[trigger] perm[i] < n
    &&& forall|i: int, j: int|
        #![trigger perm[i], perm[j]]
        0 <= i < j < n ==> perm[i] != perm[j]
}

/// Inserting at the first place that need not come before.
proof fn lemma_inserted_at(sorted: Seq<FragmentSpan>, span: FragmentSpan, pos: int)
    requires
        0 <= pos <= sorted.len(),
        forall|i: int| 0 <= i < pos ==> !span_not_after(span, #[trigger] sorted[i]),
        pos < sorted.len() ==> span_not_after(span, sorted[pos]),
    ensures
        inserted_span(sorted, span) == sorted.insert(pos, span),
    decreases pos,
{
    if pos == 0 {
        assert(seq![span] + sorted =~= sorted.insert(0, span));
    } else {
        lemma_inserted_at(sorted.skip(1), span, pos - 1);
        assert(seq![sorted[0]] + sorted.skip(1).insert(pos - 1, span) =~= sorted.insert(pos, span));
    }
}

/// Inserting a span inserts what it refers to.
proof fn lemma_inserted_contents(sorted: Seq<FragmentSpan>, span: FragmentSpan, buf: Seq<u8>)
    ensures
        contents(inserted_span(sorted, span), buf) == inserted(
            contents(sorted, buf),
            span.content(buf),
        ),
    decreases sorted.len(),
{
    if sorted.len() == 0 || span_not_after(span, sorted[0]) {
        assert(contents(seq![span] + sorted, buf) =~= seq![span.content(buf)] + contents(
            sorted,
            buf,
        ));
    } else {
        let tail = sorted.skip(1);
        lemma_inserted_contents(tail, span, buf);
        assert(contents(sorted, buf).skip(1) =~= contents(tail, buf));
        assert(contents(seq![sorted[0]] + inserted_span(tail, span), buf)
            =~= seq![sorted[0].content(buf)] + contents(inserted_span(tail, span), buf));
    }
}

/// Sorting spans sorts what they refer to.
pub proof fn lemma_sorted_contents(spans: Seq<FragmentSpan>, buf: Seq<u8>)
    ensures
        contents(sorted_spans(spans), buf) == ordered(contents(spans, buf)),
    decreases spans.len(),
{
    if spans.len() == 0 {
        assert(contents(sorted_spans(spans), buf) =~= ordered(contents(spans, buf)));
    } else {
        lemma_sorted_contents(spans.skip(1), buf);
        lemma_inserted_contents(sorted_spans(spans.skip(1)), spans[0], buf);
        assert(contents(spans, buf).skip(1) =~= contents(spans.skip(1), buf));
    }
}

/// Whether a fragment is to be reassembled before one with the given sequence
/// number and offset.
fn comes_before(span: &FragmentSpan, seq: HandshakeSequenceNumber, offset: U24) -> (r: bool)
    requires
        span.dtls_fragment_fields is Some,
    ensures
        r == (span.seq() < seq || (span.seq() == seq && span.offset() < offset.0)),
{
    let (span_seq, span_offset, _) = span.dtls_fragment_fields.unwrap();
    span_seq < seq || (span_seq == seq && span_offset.0 < offset.0)
}

/// Sorts spans by sequence number and fragment offset. Spans that compare equal
/// keep their order.
fn sort_spans(spans: &mut VecDeque<FragmentSpan>) -> (perm: Ghost<Seq<int>>)
    requires
        forall|i: int|
            0 <= i < old(spans)@.len() ==> (#[trigger] old(spans)@[i]).dtls_fragment_fields is Some,
    ensures
        is_permutation(perm@, old(spans)@.len() as int),
        final(spans)@.len() == old(spans)@.len(),
        forall|i: int|
            0 <= i < old(spans)@.len() ==> #[trigger] final(spans)@[i] == old(spans)@[perm@[i]],
        final(spans)@ == sorted_spans(old(spans)@),
{
    let ghost orig = spans@;
    let ghost n = orig.len() as int;
    let mut sorted: VecDeque<FragmentSpan> = VecDeque::new();
    let ghost mut perm: Seq<int> = Seq::empty();
    assert(sorted@ =~= sorted_spans(orig.skip(n)));
    while spans.len() > 0
        invariant
            spans@.len() <= n,
            n == orig.len(),
            spans@ == orig.take(spans@.len() as int),
            sorted@.len() == n - spans@.len(),
            perm.len() == sorted@.len(),
            forall|i: int|
                0 <= i < n ==> (#[trigger] orig[i]).dtls_fragment_fields is Some,
            forall|i: int| 0 <= i < perm.len() ==> spans@.len() <= #[trigger] perm[i] < n,
            forall|i: int, j: int|
                #![trigger perm[i], perm[j]]
                0 <= i < j < perm.len() ==> perm[i] != perm[j],
            forall|i: int| 0 <= i < sorted@.len() ==> #[trigger] sorted@[i] == orig[perm[i]],
            sorted@ == sorted_spans(orig.skip(spans@.len() as int)),
        decreases spans@.len(),
    {
        let ghost k = spans@.len() - 1;
        let ghost before = sorted@;
        let span = spans.pop_back().unwrap();
        assert(spans@ =~= orig.take(k));
        assert(span == orig[k]);
        let (seq, offset, _) = span.dtls_fragment_fields.unwrap();
        let mut pos: usize = 0;
        while pos < sorted.len() && comes_before(&sorted[pos], seq, offset)
            invariant
                pos <= sorted@.len(),
                sorted@ == before,
                forall|i: int| 0 <= i < before.len() ==> (#[trigger] before[i]).dtls_fragment_fields
                    is Some,
                forall|i: int|
                    0 <= i < pos ==> (#[trigger] before[i]).seq() < seq || (before[i].seq() == seq
                        && before[i].offset() < offset.0),
            decreases sorted@.len() - pos,
        {
            pos = pos + 1;
        }
        sorted.insert(pos, span);
        proof {
            perm = perm.insert(pos as int, k);
            assert(orig.skip(k).skip(1) =~= orig.skip(k + 1));
            lemma_inserted_at(before, orig[k], pos as int);
        }
    }
    proof {
        assert(orig.skip(0) =~= orig);
    }
    *spans = sorted;
    Ghost(perm)
}

/// `buf` with the bytes from `from` to `to` moved to `at`, and what lay between
/// `at` and `start` moved out of their way.
pub open spec fn moved(buf: Seq<u8>, at: int, start: int, from: int, to: int) -> Seq<u8> {
    buf.take(at) + buf.subrange(from, to) + buf.subrange(at, start) + buf.skip(start + (to - from))
}

/// What moving bytes to the front does to the rest of the buffer.
proof fn lemma_moved(buf: Seq<u8>, at: int, start: int, from: int, to: int, x: int, y: int)
    requires
        0 <= at <= start <= from <= to <= buf.len(),
        0 <= x <= y <= buf.len(),
    ensures
        moved(buf, at, start, from, to).len() == buf.len(),
        moved(buf, at, start, from, to).subrange(at, at + (to - from)) == buf.subrange(from, to),
        y <= at ==> moved(buf, at, start, from, to).subrange(x, y) == buf.subrange(x, y),
        at <= x && y <= start ==> moved(buf, at, start, from, to).subrange(
            x + (to - from),
            y + (to - from),
        ) == buf.subrange(x, y),
        to <= x ==> moved(buf, at, start, from, to).subrange(x, y) == buf.subrange(x, y),
{
    let after = moved(buf, at, start, from, to);
    let n = to - from;
    assert(after.subrange(at, at + n) =~= buf.subrange(from, to));
    if y <= at {
        assert(after.subrange(x, y) =~= buf.subrange(x, y));
    }
    if at <= x && y <= start {
        assert(after.subrange(x + n, y + n) =~= buf.subrange(x, y));
    }
    if to <= x {
        assert(after.subrange(x, y) =~= buf.subrange(x, y));
    }
}

/// Moves the bytes from `from` to `to` to the position `at`. What lay between
/// `at` and `start` is shifted to the right to make room.
fn move_forward(buf: &mut [u8], at: usize, start: usize, from: usize, to: usize)
    requires
        at <= start <= from <= to <= old(buf)@.len(),
    ensures
        final(buf)@ == moved(old(buf)@, at as int, start as int, from as int, to as int),
{
    let ghost bytes = buf@;
    let n: usize = to - from;
    // Hold the fragment aside while the rest of the buffer slides.
    let scratch: Vec<u8> = vstd::slice::slice_to_vec(vstd::slice::slice_subrange(&*buf, from, to));
    let mut i: usize = start;
    assert(buf.len() == bytes.len());
    while i > at
        invariant
            at <= i <= start,
            start + n <= buf@.len(),
            buf@.len() == bytes.len(),
            buf@.len() <= usize::MAX,
            forall|p: int|
                0 <= p < bytes.len() ==> #[trigger] buf@[p] == if i + n <= p < start + n {
                    bytes[p - n]
                } else {
                    bytes[p]
                },
        decreases i,
    {
        buf[i - 1 + n] = buf[i - 1];
        i = i - 1;
    }
    let mut j: usize = 0;
    while j < n
        invariant
            j <= n,
            at <= start,
            start + n <= buf@.len(),
            buf@.len() == bytes.len(),
            scratch@.len() == n,
            forall|p: int|
                0 <= p < bytes.len() ==> #[trigger] buf@[p] == if at <= p < at + j {
                    scratch@[p - at]
                } else if at + n <= p < start + n {
                    bytes[p - n]
                } else {
                    bytes[p]
                },
        decreases n - j,
    {
        assert(buf.len() == bytes.len());
        buf[at + j] = scratch[j];
        j = j + 1;
    }
    assert(buf@ =~= moved(bytes, at as int, start as int, from as int, to as int));
}

/// `range`, shifted by `by` if it lies between `low` and `high`.
pub open spec fn shifted(range: Range<usize>, low: int, high: int, by: int) -> Range<usize> {
    if low <= range.start && range.end <= high {
        Range { start: (range.start + by) as usize, end: (range.end + by) as usize }
    } else {
        range
    }
}

/// Puts `item` in the place of the one at `i`.
fn put<T>(items: &mut VecDeque<T>, i: usize, item: T)
    requires
        i < old(items)@.len(),
    ensures
        final(items)@ == old(items)@.update(i as int, item),
{
    let ghost before = items@;
    let _ = items.remove(i);
    items.insert(i, item);
    assert(items@ =~= before.update(i as int, item));
}

/// Fix up the bounds of all spans from `first` on in the portion that got
/// shifted.
fn shift_spans(
    spans: &mut VecDeque<FragmentSpan>,
    first: usize,
    low: usize,
    high: usize,
    by: usize,
)
    requires
        first <= old(spans)@.len(),
        high + by <= usize::MAX,
        forall|i: int|
            first <= i < old(spans)@.len() ==> (#[trigger] old(spans)@[i]).bounds.start < old(spans)@[i].bounds.end,
    ensures
        final(spans)@.len() == old(spans)@.len(),
        forall|i: int| 0 <= i < first ==> #[trigger] final(spans)@[i] == old(spans)@[i],
        forall|i: int|
            first <= i < old(spans)@.len() ==> #[trigger] final(spans)@[i] == (FragmentSpan {
                bounds: shifted(old(spans)@[i].bounds, low as int, high as int, by as int),
                ..old(spans)@[i]
            }),
{
    let ghost orig = spans@;
    let mut i: usize = first;
    while i < spans.len()
        invariant
            first <= i <= spans@.len(),
            spans@.len() == orig.len(),
            high + by <= usize::MAX,
            forall|j: int|
                first <= j < orig.len() ==> (#[trigger] orig[j]).bounds.start < orig[j].bounds.end,
            forall|j: int| 0 <= j < first ==> #[trigger] spans@[j] == orig[j],
            forall|j: int|
                first <= j < i ==> #[trigger] spans@[j] == (FragmentSpan {
                    bounds: shifted(orig[j].bounds, low as int, high as int, by as int),
                    ..orig[j]
                }),
            forall|j: int| i <= j < orig.len() ==> #[trigger] spans@[j] == orig[j],
        decreases spans@.len() - i,
    {
        let start: usize = spans[i].bounds.start;
        let end: usize = spans[i].bounds.end;
        assert(orig[i as int].bounds.start < orig[i as int].bounds.end);
        if low <= start && end <= high {
            let span = FragmentSpan {
                version: spans[i].version,
                size: spans[i].size,
                bounds: start + by..end + by,
                dtls_fragment_fields: spans[i].dtls_fragment_fields,
            };
            put(spans, i, span);
        }
        i = i + 1;
    }
}

/// Fix up the bounds of all buffered records in the portion that got shifted.
fn shift_records(records: &mut VecDeque<FutureEpochDeframed>, low: usize, high: usize, by: usize)
    requires
        high + by <= usize::MAX,
        forall|i: int|
            0 <= i < old(records)@.len() ==> (#[trigger] old(records)@[i]).bounds.start < old(records)@[i].bounds.end,
    ensures
        final(records)@.len() == old(records)@.len(),
        forall|i: int|
            0 <= i < old(records)@.len() ==> #[trigger] final(records)@[i] == (
            FutureEpochDeframed {
                bounds: shifted(old(records)@[i].bounds, low as int, high as int, by as int),
                ..old(records)@[i]
            }),
{
    let ghost orig = records@;
    let mut i: usize = 0;
    while i < records.len()
        invariant
            i <= records@.len(),
            records@.len() == orig.len(),
            high + by <= usize::MAX,
            forall|j: int|
                0 <= j < orig.len() ==> (#[trigger] orig[j]).bounds.start < orig[j].bounds.end,
            forall|j: int|
                0 <= j < i ==> #[trigger] records@[j] == (FutureEpochDeframed {
                    bounds: shifted(orig[j].bounds, low as int, high as int, by as int),
                    ..orig[j]
                }),
            forall|j: int| i <= j < orig.len() ==> #[trigger] records@[j] == orig[j],
        decreases records@.len() - i,
    {
        let start: usize = records[i].bounds.start;
        let end: usize = records[i].bounds.end;
        assert(orig[i as int].bounds.start < orig[i as int].bounds.end);
        if low <= start && end <= high {
            let record = FutureEpochDeframed {
                bounds: start + by..end + by,
                epoch: records[i].epoch,
            };
            put(records, i, record);
        }
        i = i + 1;
    }
}

/// The bytes of a buffered record, header included.
pub open spec fn record_bytes(record: FutureEpochDeframed, buf: Seq<u8>) -> Seq<u8> {
    buf.subrange(record.bounds.start as int, record.bounds.end as int)
}

/// Buffered records lie in a buffer of `len` bytes and overlap no span there.
pub open spec fn records_clear(
    records: Seq<FutureEpochDeframed>,
    spans: Seq<FragmentSpan>,
    len: int,
) -> bool {
    &&& forall|i: int|
        0 <= i < records.len() ==> (#[trigger] records[i]).bounds.start < records[i].bounds.end
            <= len
    &&& forall|i: int, j: int|
        #![trigger records[i], spans[j]]
        0 <= i < records.len() && 0 <= j < spans.len() ==> apart(
            records[i].bounds,
            spans[j].bounds,
        )
}

/// No two buffered records overlap.
pub open spec fn records_apart(records: Seq<FutureEpochDeframed>) -> bool {
    forall|i: int, j: int|
        #![trigger records[i], records[j]]
        0 <= i < j < records.len() ==> apart(records[i].bounds, records[j].bounds)
}

/// Records that do not overlap are still apart when those in front of a span make
/// room for it.
proof fn lemma_records_stay_apart(
    records: Seq<FutureEpochDeframed>,
    new_records: Seq<FutureEpochDeframed>,
    at: int,
    span: Range<usize>,
    by: int,
)
    requires
        records_apart(records),
        new_records.len() == records.len(),
        0 <= by <= span.end - span.start,
        forall|i: int|
            0 <= i < records.len() ==> at <= (#[trigger] records[i]).bounds.start
                && records[i].bounds.start < records[i].bounds.end && apart(
                records[i].bounds,
                span,
            ),
        forall|i: int|
            0 <= i < records.len() ==> (#[trigger] new_records[i]).bounds == shifted(
                records[i].bounds,
                at,
                span.start as int,
                by,
            ),
    ensures
        records_apart(new_records),
{
    assert forall|i: int, j: int|
        #![trigger new_records[i], new_records[j]]
        0 <= i < j < new_records.len() implies apart(
        new_records[i].bounds,
        new_records[j].bounds,
    ) by {
        assert(apart(records[i].bounds, records[j].bounds));
    }
}

/// The same records as before, wherever they lie now.
pub open spec fn records_kept(
    now: Seq<FutureEpochDeframed>,
    buf: Seq<u8>,
    then: Seq<FutureEpochDeframed>,
    old_buf: Seq<u8>,
) -> bool {
    &&& now.len() == then.len()
    &&& forall|i: int|
        #![trigger now[i]]
        #![trigger then[i]]
        0 <= i < then.len() ==> now[i].epoch == then[i].epoch && record_bytes(now[i], buf)
            == record_bytes(then[i], old_buf)
}

/// No record ends behind both its old end and `limit`.
pub open spec fn records_within(
    now: Seq<FutureEpochDeframed>,
    then: Seq<FutureEpochDeframed>,
    limit: int,
) -> bool {
    &&& now.len() == then.len()
    &&& forall|i: int|
        #![trigger now[i]]
        #![trigger then[i]]
        0 <= i < then.len() ==> now[i].bounds.end <= limit || now[i].bounds.end
            <= then[i].bounds.end
}

/// The first `n` spans lie one behind the other at the front of the buffer.
pub open spec fn packed(spans: Seq<FragmentSpan>, n: int) -> bool
    decreases n,
{
    if n <= 0 {
        true
    } else if n == 1 {
        spans[0].bounds.start == 0
    } else {
        packed(spans, n - 1) && spans[n - 1].bounds.start == spans[n - 2].bounds.end
    }
}

/// Only the first `n` spans matter to whether they are packed.
proof fn lemma_packed_prefix(a: Seq<FragmentSpan>, b: Seq<FragmentSpan>, n: int)
    requires
        packed(a, n),
        forall|i: int| 0 <= i < n ==> (#[trigger] a[i]).bounds == b[i].bounds,
    ensures
        packed(b, n),
    decreases n,
{
    if n == 1 {
        assert(a[0].bounds == b[0].bounds);
    } else if n > 1 {
        lemma_packed_prefix(a, b, n - 1);
        assert(a[n - 1].bounds == b[n - 1].bounds);
        assert(a[n - 2].bounds == b[n - 2].bounds);
    }
}

/// The state of reassembly after some fragments: `done` are coalesced and end at
/// `at`, and everything else lies behind them.
spec fn in_progress(
    done: Seq<FragmentSpan>,
    spans: Seq<FragmentSpan>,
    index: int,
    records: Seq<FutureEpochDeframed>,
    buf: Seq<u8>,
    at: int,
    limit: int,
) -> bool {
    &&& 0 <= index <= spans.len()
    &&& 0 <= at <= buf.len()
    &&& at == if done.len() == 0 {
        0
    } else {
        done.last().bounds.end as int
    }
    &&& packed(done, done.len() as int)
    &&& forall|i: int| 0 <= i < done.len() ==> (#[trigger] done[i]).fits(at)
    &&& at <= limit
    &&& forall|i: int|
        index <= i < spans.len() ==> (#[trigger] spans[i]).fits(buf.len() as int) && at
            <= spans[i].bounds.start && spans[i].bounds.end <= limit
    &&& forall|i: int, j: int|
        #![trigger spans[i], spans[j]]
        index <= i < j < spans.len() ==> apart(spans[i].bounds, spans[j].bounds)
    &&& forall|i: int|
        0 <= i < records.len() ==> at <= (#[trigger] records[i]).bounds.start
            && records[i].bounds.start < records[i].bounds.end <= buf.len()
    &&& forall|i: int, j: int|
        #![trigger records[i], spans[j]]
        0 <= i < records.len() && index <= j < spans.len() ==> apart(
            records[i].bounds,
            spans[j].bounds,
        )
}

/// Spans that are packed at the front do not overlap.
proof fn lemma_packed_apart(done: Seq<FragmentSpan>, n: int, i: int, j: int)
    requires
        packed(done, n),
        forall|k: int|
            0 <= k < n ==> (#[trigger] done[k]).bounds.start <= done[k].bounds.end,
        0 <= i < j < n,
    ensures
        done[i].bounds.end <= done[j].bounds.start,
    decreases n,
{
    if j < n - 1 {
        lemma_packed_apart(done, n - 1, i, j);
    } else if i < n - 2 {
        lemma_packed_apart(done, n - 1, i, n - 2);
        assert(done[n - 2].bounds.start <= done[n - 2].bounds.end);
    }
}

/// One fragment moves to the end of what is coalesced: everything that is still
/// to come keeps its contents and its distance.
proof fn lemma_step(
    done: Seq<FragmentSpan>,
    spans: Seq<FragmentSpan>,
    new_spans: Seq<FragmentSpan>,
    index: int,
    records: Seq<FutureEpochDeframed>,
    new_records: Seq<FutureEpochDeframed>,
    buf: Seq<u8>,
    at: int,
    limit: int,
    from: int,
    to: int,
)
    requires
        in_progress(done, spans, index, records, buf, at, limit),
        buf.len() <= usize::MAX,
        index < spans.len(),
        spans[index].bounds.start <= from <= to <= spans[index].bounds.end,
        new_spans.len() == spans.len(),
        new_records.len() == records.len(),
        forall|i: int|
            index < i < spans.len() ==> #[trigger] new_spans[i] == (FragmentSpan {
                bounds: shifted(
                    spans[i].bounds,
                    at,
                    spans[index].bounds.start as int,
                    to - from,
                ),
                ..spans[i]
            }),
        forall|i: int|
            0 <= i < records.len() ==> #[trigger] new_records[i] == (FutureEpochDeframed {
                bounds: shifted(
                    records[i].bounds,
                    at,
                    spans[index].bounds.start as int,
                    to - from,
                ),
                ..records[i]
            }),
    ensures
        ({
            let after = moved(buf, at, spans[index].bounds.start as int, from, to);
            let new_at = at + (to - from);
            &&& after.len() == buf.len()
            &&& after.take(at) == buf.take(at)
            &&& after.subrange(at, new_at) == buf.subrange(from, to)
            &&& forall|p: int| limit <= p < buf.len() ==> #[trigger] after[p] == buf[p]
            &&& forall|i: int|
                index < i < spans.len() ==> (#[trigger] new_spans[i]).fits(buf.len() as int)
                    && new_at <= new_spans[i].bounds.start && new_spans[i].bounds.end <= limit
                    && new_spans[i].content(after) == spans[i].content(buf)
            &&& forall|i: int, j: int|
                #![trigger new_spans[i], new_spans[j]]
                index < i < j < spans.len() ==> apart(new_spans[i].bounds, new_spans[j].bounds)
            &&& forall|i: int|
                0 <= i < records.len() ==> new_at <= (#[trigger] new_records[i]).bounds.start
                    && new_records[i].bounds.start < new_records[i].bounds.end <= buf.len() && (
                new_records[i].bounds.end <= limit || new_records[i].bounds.end
                    == records[i].bounds.end) && new_records[i].epoch == records[i].epoch
                    && record_bytes(new_records[i], after) == record_bytes(records[i], buf)
            &&& forall|i: int, j: int|
                #![trigger new_records[i], new_spans[j]]
                0 <= i < records.len() && index < j < spans.len() ==> apart(
                    new_records[i].bounds,
                    new_spans[j].bounds,
                )
        }),
{
    let start = spans[index].bounds.start as int;
    let after = moved(buf, at, start, from, to);
    let n = to - from;
    assert(spans[index].fits(buf.len() as int));
    lemma_moved(buf, at, start, from, to, 0, at);
    assert(after.take(at) =~= buf.take(at));
    assert forall|i: int| index < i < spans.len() implies {
        &&& (#[trigger] new_spans[i]).fits(buf.len() as int)
        &&& at + n <= new_spans[i].bounds.start
        &&& new_spans[i].bounds.end <= limit
        &&& new_spans[i].content(after) == spans[i].content(buf)
    } by {
        assert(spans[i].fits(buf.len() as int));
        assert(apart(spans[index].bounds, spans[i].bounds));
        lemma_moved(
            buf,
            at,
            start,
            from,
            to,
            spans[i].bounds.start as int,
            spans[i].bounds.end as int,
        );
    }
    assert forall|i: int, j: int|
        #![trigger new_spans[i], new_spans[j]]
        index < i < j < spans.len() implies apart(new_spans[i].bounds, new_spans[j].bounds) by {
        assert(spans[i].fits(buf.len() as int));
        assert(spans[j].fits(buf.len() as int));
        assert(apart(spans[i].bounds, spans[j].bounds));
        assert(apart(spans[index].bounds, spans[i].bounds));
        assert(apart(spans[index].bounds, spans[j].bounds));
    }
    assert forall|i: int| 0 <= i < records.len() implies {
        &&& at + n <= (#[trigger] new_records[i]).bounds.start
        &&& new_records[i].bounds.start < new_records[i].bounds.end <= buf.len()
        &&& new_records[i].bounds.end <= limit || new_records[i].bounds.end == records[i].bounds.end
        &&& new_records[i].epoch == records[i].epoch
        &&& record_bytes(new_records[i], after) == record_bytes(records[i], buf)
    } by {
        assert(apart(records[i].bounds, spans[index].bounds));
        lemma_moved(
            buf,
            at,
            start,
            from,
            to,
            records[i].bounds.start as int,
            records[i].bounds.end as int,
        );
    }
    assert forall|i: int, j: int|
        #![trigger new_records[i], new_spans[j]]
        0 <= i < records.len() && index < j < spans.len() implies apart(
        new_records[i].bounds,
        new_spans[j].bounds,
    ) by {
        assert(spans[j].fits(buf.len() as int));
        assert(apart(records[i].bounds, spans[index].bounds));
        assert(apart(records[i].bounds, spans[j].bounds));
        assert(apart(spans[index].bounds, spans[j].bounds));
    }
}

/// A span grows by the bytes that were moved behind it.
proof fn lemma_grown(
    into: FragmentSpan,
    grown: FragmentSpan,
    next: SpanContent,
    buf: Seq<u8>,
    after: Seq<u8>,
    at: int,
    from: int,
    to: int,
)
    requires
        0 <= from <= to <= buf.len(),
        into.bounds.start <= into.bounds.end == at <= at + (to - from) <= buf.len(),
        after.len() == buf.len(),
        after.take(at) == buf.take(at),
        after.subrange(at, at + (to - from)) == buf.subrange(from, to),
        grown.dtls_fragment_fields is Some,
        grown.version == into.version,
        grown.size == into.size,
        grown.seq() == into.seq(),
        grown.offset() == into.offset(),
        grown.length() == next.offset + next.length,
        grown.bounds.start == into.bounds.start,
        grown.bounds.end == at + (to - from),
        into.length() - next.offset <= next.length,
        next.bytes.skip(next.version.handshake_header() + (into.length() - next.offset))
            == buf.subrange(from, to),
    ensures
        grown.content(after) == extended(into.content(buf), next),
{
    let x = into.bounds.start as int;
    let end = at + (to - from);
    assert(after.subrange(x, end) =~= after.take(at).skip(x) + after.subrange(at, end));
    assert(buf.subrange(x, at) =~= buf.take(at).skip(x));
    assert(grown.content(after) =~= extended(into.content(buf), next));
}

/// The last span of what is coalesced was added or has grown; the others are
/// what they were.
proof fn lemma_done_step(
    done: Seq<FragmentSpan>,
    new_done: Seq<FragmentSpan>,
    buf: Seq<u8>,
    after: Seq<u8>,
    at: int,
    new_at: int,
)
    requires
        0 <= at <= new_at <= buf.len(),
        after.len() == buf.len(),
        after.take(at) == buf.take(at),
        packed(done, done.len() as int),
        forall|i: int| 0 <= i < done.len() ==> (#[trigger] done[i]).fits(at),
        at == if done.len() == 0 {
            0
        } else {
            done.last().bounds.end as int
        },
        new_done.len() > 0,
        new_done.len() == done.len() + 1 || new_done.len() == done.len(),
        new_done.drop_last() == done.take(new_done.len() - 1),
        new_done.last().bounds.start == if new_done.len() == done.len() {
            done.last().bounds.start as int
        } else {
            at
        },
        new_done.last().bounds.end == new_at,
        new_done.last().fits(new_at),
    ensures
        packed(new_done, new_done.len() as int),
        forall|i: int| 0 <= i < new_done.len() ==> (#[trigger] new_done[i]).fits(new_at),
        contents(new_done, after) == contents(done, buf).take(new_done.len() - 1).push(
            new_done.last().content(after),
        ),
{
    let k = new_done.len() - 1;
    assert forall|i: int| 0 <= i < k implies #[trigger] new_done[i] == done[i] by {
        assert(new_done.drop_last()[i] == done.take(k)[i]);
    }
    if k < done.len() {
        assert(packed(done, k + 1));
    }
    assert(packed(done, k));
    assert forall|i: int| 0 <= i < k implies (#[trigger] done[i]).bounds == new_done[i].bounds by {
        assert(new_done[i] == done[i]);
    }
    lemma_packed_prefix(done, new_done, k);
    if k > 0 {
        assert(new_done[k - 1] == done[k - 1]);
    }
    assert forall|i: int| 0 <= i < new_done.len() implies (#[trigger] new_done[i]).fits(
        new_at,
    ) by {
        if i < k {
            assert(done[i].fits(at));
        }
    }
    assert forall|i: int| 0 <= i < k implies #[trigger] new_done[i].content(after)
        == done[i].content(buf) by {
        assert(done[i].fits(at));
        let x = done[i].bounds.start as int;
        let y = done[i].bounds.end as int;
        assert(after.subrange(x, y) =~= after.take(at).subrange(x, y));
        assert(buf.subrange(x, y) =~= buf.take(at).subrange(x, y));
    }
    assert(contents(new_done, after) =~= contents(done, buf).take(k).push(
        new_done.last().content(after),
    ));
}

/// Coalesced messages at the front and fragments behind them do not overlap.
proof fn lemma_parts_fit(
    done: Seq<FragmentSpan>,
    waiting: Seq<FragmentSpan>,
    records: Seq<FutureEpochDeframed>,
    len: int,
    at: int,
)
    requires
        0 <= at <= len,
        packed(done, done.len() as int),
        forall|i: int| 0 <= i < done.len() ==> (#[trigger] done[i]).fits(at),
        forall|i: int|
            0 <= i < waiting.len() ==> (#[trigger] waiting[i]).fits(len) && at
                <= waiting[i].bounds.start,
        forall|i: int, j: int|
            #![trigger waiting[i], waiting[j]]
            0 <= i < j < waiting.len() ==> apart(waiting[i].bounds, waiting[j].bounds),
        forall|i: int|
            0 <= i < records.len() ==> at <= (#[trigger] records[i]).bounds.start
                && records[i].bounds.start < records[i].bounds.end <= len,
        forall|i: int, j: int|
            #![trigger records[i], waiting[j]]
            0 <= i < records.len() && 0 <= j < waiting.len() ==> apart(
                records[i].bounds,
                waiting[j].bounds,
            ),
    ensures
        spans_fit(done + waiting, len),
        records_clear(records, done + waiting, len),
{
    let all = done + waiting;
    let n = done.len() as int;
    assert forall|i: int| 0 <= i < all.len() implies (#[trigger] all[i]).fits(len) by {
        if i < n {
            assert(done[i].fits(at));
        } else {
            assert(waiting[i - n].fits(len));
        }
    }
    assert forall|i: int, j: int|
        #![trigger all[i], all[j]]
        0 <= i < j < all.len() implies apart(all[i].bounds, all[j].bounds) by {
        if j < n {
            lemma_packed_apart(done, n, i, j);
        } else if i < n {
            assert(done[i].fits(at));
            assert(waiting[j - n].fits(len));
        } else {
            assert(apart(waiting[i - n].bounds, waiting[j - n].bounds));
        }
    }
    assert forall|i: int, j: int|
        #![trigger records[i], all[j]]
        0 <= i < records.len() && 0 <= j < all.len() implies apart(
        records[i].bounds,
        all[j].bounds,
    ) by {
        if j < n {
            assert(done[j].fits(at));
        } else {
            assert(apart(records[i].bounds, waiting[j - n].bounds));
        }
    }
}

/// Where the last of all spans ends.
pub open spec fn spans_end(spans: Seq<FragmentSpan>) -> int
    decreases spans.len(),
{
    if spans.len() == 0 {
        0
    } else {
        let before = spans_end(spans.drop_last());
        if spans.last().bounds.end > before {
            spans.last().bounds.end as int
        } else {
            before
        }
    }
}

/// No span goes beyond where the last one ends.
pub proof fn lemma_spans_end(spans: Seq<FragmentSpan>, len: int)
    requires
        0 <= len,
        forall|i: int| 0 <= i < spans.len() ==> (#[trigger] spans[i]).bounds.end <= len,
    ensures
        0 <= spans_end(spans) <= len,
        forall|i: int| 0 <= i < spans.len() ==> (#[trigger] spans[i]).bounds.end <= spans_end(spans),
    decreases spans.len(),
{
    if spans.len() > 0 {
        let front = spans.drop_last();
        assert forall|i: int| 0 <= i < front.len() implies (#[trigger] front[i]).bounds.end
            <= len by {
            assert(front[i] == spans[i]);
        }
        lemma_spans_end(front, len);
        assert forall|i: int| 0 <= i < spans.len() implies (#[trigger] spans[i]).bounds.end
            <= spans_end(spans) by {
            if i < front.len() {
                assert(front[i] == spans[i]);
            }
        }
    }
}

/// What becomes of the coalesced messages `done` when `item` comes next, or nothing
/// if something is missing in front of it.
spec fn next_done(done: Seq<SpanContent>, item: SpanContent) -> Option<Seq<SpanContent>> {
    if done.len() == 0 || item.seq > done.last().seq {
        if item.offset > 0 {
            None
        } else {
            Some(done.push(item))
        }
    } else if item.offset > done.last().length {
        None
    } else {
        Some(done.drop_last().push(extended(done.last(), item)))
    }
}

impl DtlsDeframerCore {
    /// Moves the fragment at `index` to the end of what is coalesced, which is
    /// `reassembled_len` bytes long. Returns how much is coalesced then, or nothing
    /// if something is missing in front of the fragment.
    #[verifier::rlimit(30)]
    fn coalesce_next(
        &mut self,
        done: &mut VecDeque<FragmentSpan>,
        spans: &mut VecDeque<FragmentSpan>,
        index: usize,
        reassembled_len: usize,
        containing_buffer: &mut [u8],
        limit: Ghost<int>,
    ) -> (r: Option<usize>)
        requires
            in_progress(
                old(done)@,
                old(spans)@,
                index as int,
                old(self).future_epoch_records@,
                old(containing_buffer)@,
                reassembled_len as int,
                limit@,
            ),
            index < old(spans)@.len(),
            forall|i: int| 0 <= i < old(done)@.len() ==> (#[trigger] old(done)@[i]).offset() == 0,
        ensures
            match next_done(
                contents(old(done)@, old(containing_buffer)@),
                old(spans)@[index as int].content(old(containing_buffer)@),
            ) {
                None => {
                    &&& r is None
                    &&& final(done)@ == old(done)@
                    &&& final(spans)@ == old(spans)@
                    &&& final(self).future_epoch_records@ == old(self).future_epoch_records@
                    &&& final(containing_buffer)@ == old(containing_buffer)@
                },
                Some(items) => {
                    &&& r is Some
                    &&& in_progress(
                        final(done)@,
                        final(spans)@,
                        index + 1,
                        final(self).future_epoch_records@,
                        final(containing_buffer)@,
                        r->Some_0 as int,
                        limit@,
                    )
                    &&& contents(final(done)@, final(containing_buffer)@) == items
                },
            },
            forall|i: int|
                0 <= i < final(done)@.len() ==> (#[trigger] final(done)@[i]).offset() == 0,
            final(spans)@.len() == old(spans)@.len(),
            forall|i: int|
                #![trigger final(spans)@[i]]
                index < i < old(spans)@.len() ==> final(spans)@[i].content(
                    final(containing_buffer)@,
                ) == old(spans)@[i].content(old(containing_buffer)@),
            records_kept(
                final(self).future_epoch_records@,
                final(containing_buffer)@,
                old(self).future_epoch_records@,
                old(containing_buffer)@,
            ),
            records_within(
                final(self).future_epoch_records@,
                old(self).future_epoch_records@,
                limit@,
            ),
            records_apart(old(self).future_epoch_records@) ==> records_apart(
                final(self).future_epoch_records@,
            ),
            final(containing_buffer)@.len() == old(containing_buffer)@.len(),
            forall|p: int|
                limit@ <= p < old(containing_buffer)@.len() ==> #[trigger] final(
                    containing_buffer)@[p] == old(containing_buffer)@[p],
    {
        let ghost buf1 = containing_buffer@;
        let ghost spans1 = spans@;
        let ghost records1 = self.future_epoch_records@;
        let ghost done1 = done@;
        let ghost at = reassembled_len as int;
        let ghost item = spans1[index as int].content(buf1);
        let ghost done_items = contents(done1, buf1);
        proof {
            assert(spans@[index as int].fits(buf1.len() as int));
            assert(containing_buffer.len() == buf1.len());
            assert(spans.len() == spans1.len());
        }
        let (seq, U24(offset), U24(length)) = spans[index].dtls_fragment_fields.unwrap();
        let start: usize = spans[index].bounds.start;
        let end: usize = spans[index].bounds.end;
        // Is this the first fragment of a message, or of which message is it a further one?
        let is_first_fragment: bool = done.len() == 0 || seq
            > done[done.len() - 1].dtls_fragment_fields.unwrap().0;
        let message_len: u32 = if is_first_fragment {
            0
        } else {
            done[done.len() - 1].dtls_fragment_fields.unwrap().2.0
        };
        if offset > message_len {
            // We are still missing some fragments and can't yet reassemble this handshake.
            return None;
        }
        let ghost is_first = is_first_fragment;
        // DTLS handshake fragments may overlap, so work out what portion of this span to append.
        let overlap: u32 = message_len - offset;
        if overlap > length {
            // Everything in this fragment has been reassembled already.
            assert(done_items.drop_last().push(done_items.last()) =~= done_items);
            assert(extended(done_items.last(), item) == done_items.last());
            return Some(reassembled_len);
        }
        // We retain the handshake header for the first fragment of each handshake message, but
        // skip it for subsequent fragments. As a result, after coalescing, we'll have what
        // appears to be a single handshake message.
        let from: usize = if is_first_fragment {
            start
        } else {
            start + spans[index].version.handshake_header_size() + overlap as usize
        };
        let copied: usize = end - from;
        let span = if is_first_fragment {
            FragmentSpan {
                version: spans[index].version,
                size: spans[index].size,
                bounds: reassembled_len..reassembled_len + copied,
                dtls_fragment_fields: spans[index].dtls_fragment_fields,
            }
        } else {
            // Grow the fragment we coalesce into.
            let into = done.pop_back().unwrap();
            let (into_seq, into_offset, _) = into.dtls_fragment_fields.unwrap();
            FragmentSpan {
                version: into.version,
                size: into.size,
                bounds: into.bounds.start..into.bounds.end + copied,
                dtls_fragment_fields: Some((into_seq, into_offset, U24(offset + length))),
            }
        };
        // If there is any portion of containing_buffer between the fragment we coalesce into
        // and the fragment we are copying, shift that portion to the right to make room. The
        // span might be preceded by a record header, but we don't need to preserve it.
        move_forward(containing_buffer, reassembled_len, start, from, end);
        shift_spans(spans, index + 1, reassembled_len, start, copied);
        shift_records(&mut self.future_epoch_records, reassembled_len, start, copied);
        done.push_back(span);
        proof {
            lemma_step(
                done1,
                spans1,
                spans@,
                index as int,
                records1,
                self.future_epoch_records@,
                buf1,
                at,
                limit@,
                from as int,
                end as int,
            );
            if records_apart(records1) {
                lemma_records_stay_apart(
                    records1,
                    self.future_epoch_records@,
                    at,
                    spans1[index as int].bounds,
                    copied as int,
                );
            }
            let after = containing_buffer@;
            let k = done@.len() - 1;
            let grown = done@[k];
            if is_first {
                assert(grown.content(after) =~= item);
                assert(done1.take(k) =~= done1);
                assert(done_items.take(k) =~= done_items);
            } else {
                let into = done1[k];
                assert(into.fits(at));
                assert(done_items[k] == into.content(buf1));
                assert(item.bytes.skip(
                    item.version.handshake_header() + (into.length() - item.offset),
                ) =~= buf1.subrange(from as int, end as int));
                lemma_grown(into, grown, item, buf1, after, at, from as int, end as int);
                assert(done_items.take(k) =~= done_items.drop_last());
            }
            assert(done@.drop_last() =~= done1.take(k));
            lemma_done_step(done1, done@, buf1, after, at, at + copied);
        }
        Some(reassembled_len + copied)
    }

    /// Coalesce the contents of `containing_buffer` into one or more complete DTLS
    /// handshake messages.
    ///
    /// `containing_buffer` is understood to contain some number of DTLS records
    /// containing handshake messages, i.e., a record header, then one or more
    /// handshake headers and payloads. Before calling this function, each of those
    /// records must have been parsed by [`Self::deframe`] and then input into this
    /// deframer with [`Self::input_message`].
    ///
    /// If `containing_buffer` contains all the fragments of a handshake message,
    /// then on return, the buffer will contain the coalesced (reassembled)
    /// handshake message, followed by any remaining uncoalesced fragments.
    ///
    /// If `containing_buffer` contains all the fragments of multiple handshake
    /// messages, then on return, the buffer will contain coalesced handshake
    /// messages, ordered by the handshake sequence number, not to be confused with
    /// the sequence number at the DTLS record layer.
    ///
    /// Coalesced handshake messages consist of the handshake header of the first
    /// fragment, concatenated with just the handshake payloads of subsequent
    /// fragments. Coalesced messages include `DTLSHandshake.{message_seq,
    /// fragment_offset, fragment_length}` values but these are no longer meaningful
    /// since the message is coalesced.
    ///
    /// More fragments may then be added into the deframer by calling
    /// [`Self::deframe`] and [`Self::input_message`] again.
    pub fn coalesce(
        &mut self,
        spans: &mut VecDeque<FragmentSpan>,
        containing_buffer: &mut [u8],
    ) -> (r: Result<(), InvalidMessage>)
        requires
            spans_fit(old(spans)@, old(containing_buffer)@.len() as int),
            records_clear(
                old(self).future_epoch_records@,
                old(spans)@,
                old(containing_buffer)@.len() as int,
            ),
        ensures
            r is Ok,
            ({
                let (messages, waiting) = reassembled(
                    contents(old(spans)@, old(containing_buffer)@),
                );
                &&& contents(final(spans)@, final(containing_buffer)@) == messages + waiting
                &&& packed(final(spans)@, messages.len() as int)
                // As long as the start of the first message is missing, nothing moves.
                &&& messages.len() == 0 ==> {
                    &&& final(spans)@ == sorted_spans(old(spans)@)
                    &&& final(containing_buffer)@ == old(containing_buffer)@
                    &&& final(self).future_epoch_records@ == old(self).future_epoch_records@
                }
            }),
            spans_fit(final(spans)@, final(containing_buffer)@.len() as int),
            records_clear(
                final(self).future_epoch_records@,
                final(spans)@,
                final(containing_buffer)@.len() as int,
            ),
            records_kept(
                final(self).future_epoch_records@,
                final(containing_buffer)@,
                old(self).future_epoch_records@,
                old(containing_buffer)@,
            ),
            records_within(
                final(self).future_epoch_records@,
                old(self).future_epoch_records@,
                spans_end(old(spans)@),
            ),
            records_apart(old(self).future_epoch_records@) ==> records_apart(
                final(self).future_epoch_records@,
            ),
            spans_end(final(spans)@) <= spans_end(old(spans)@),
            final(containing_buffer)@.len() == old(containing_buffer)@.len(),
            final(containing_buffer)@.skip(spans_end(old(spans)@))
                == old(containing_buffer)@.skip(spans_end(old(spans)@)),
    {
        let ghost buf0 = containing_buffer@;
        let ghost spans0 = spans@;
        let ghost records0 = self.future_epoch_records@;
        let ghost limit = spans_end(spans0);
        let ghost items = ordered(contents(spans0, buf0));
        proof {
            lemma_spans_end(spans0, buf0.len() as int);
        }
        // Sort the spans by sequence number and fragment offset so we can reorder
        // containing_buffer.
        let perm = sort_spans(spans);
        let mut done: VecDeque<FragmentSpan> = VecDeque::new();
        let ghost mut done_items: Seq<SpanContent> = Seq::empty();
        // How many bytes of handshake message have we reassembled, total, including the first
        // fragment's handshake header but excluding any headers from subsequent messages?
        // Equivalently, what position of containing_buffer are we copying into?
        let mut reassembled_len: usize = 0;
        let mut index: usize = 0;
        proof {
            lemma_sorted_contents(spans0, buf0);
            assert(contents(spans@, buf0) == items);
            assert forall|i: int, j: int|
                #![trigger spans@[i], spans@[j]]
                0 <= i < j < spans@.len() implies apart(spans@[i].bounds, spans@[j].bounds) by {
                assert(perm@[i] != perm@[j]);
                assert(apart(spans0[perm@[i]].bounds, spans0[perm@[j]].bounds) || apart(
                    spans0[perm@[j]].bounds,
                    spans0[perm@[i]].bounds,
                ));
            }
            assert(contents(done@, buf0) =~= done_items);
            assert(items.skip(0) =~= items);
            assert(in_progress(
                done@,
                spans@,
                0,
                self.future_epoch_records@,
                containing_buffer@,
                0,
                limit,
            ));
        }
        while index < spans.len()
            invariant
                in_progress(
                    done@,
                    spans@,
                    index as int,
                    self.future_epoch_records@,
                    containing_buffer@,
                    reassembled_len as int,
                    limit,
                ),
                items.len() == spans@.len(),
                containing_buffer@.len() == buf0.len(),
                contents(done@, containing_buffer@) == done_items,
                done_items.len() == 0 ==> index == 0 && spans@ == sorted_spans(spans0)
                    && containing_buffer@ == buf0 && self.future_epoch_records@ == records0,
                forall|i: int| 0 <= i < done@.len() ==> (#[trigger] done@[i]).offset() == 0,
                forall|i: int|
                    index <= i < spans@.len() ==> (#[trigger] spans@[i]).content(containing_buffer@)
                        == items[i],
                coalesced(done_items, items.skip(index as int)) == coalesced(Seq::empty(), items),
                records_kept(self.future_epoch_records@, containing_buffer@, records0, buf0),
                records_within(self.future_epoch_records@, records0, limit),
                records_apart(records0) ==> records_apart(self.future_epoch_records@),
                forall|p: int|
                    limit <= p < buf0.len() ==> #[trigger] containing_buffer@[p] == buf0[p],
            ensures
                in_progress(
                    done@,
                    spans@,
                    index as int,
                    self.future_epoch_records@,
                    containing_buffer@,
                    reassembled_len as int,
                    limit,
                ),
                items.len() == spans@.len(),
                containing_buffer@.len() == buf0.len(),
                contents(done@, containing_buffer@) == done_items,
                done_items.len() == 0 ==> index == 0 && spans@ == sorted_spans(spans0)
                    && containing_buffer@ == buf0 && self.future_epoch_records@ == records0,
                forall|i: int| 0 <= i < done@.len() ==> (#[trigger] done@[i]).offset() == 0,
                forall|i: int|
                    index <= i < spans@.len() ==> (#[trigger] spans@[i]).content(containing_buffer@)
                        == items[i],
                coalesced(Seq::empty(), items) == (done_items, items.skip(index as int)),
                records_kept(self.future_epoch_records@, containing_buffer@, records0, buf0),
                records_within(self.future_epoch_records@, records0, limit),
                records_apart(records0) ==> records_apart(self.future_epoch_records@),
                forall|p: int|
                    limit <= p < buf0.len() ==> #[trigger] containing_buffer@[p] == buf0[p],
            decreases spans@.len() - index,
        {
            assert(spans@[index as int].content(containing_buffer@) == items[index as int]);
            assert(items.skip(index as int)[0] == items[index as int]);
            assert(items.skip(index as int).skip(1) =~= items.skip(index + 1));
            match self.coalesce_next(
                &mut done,
                spans,
                index,
                reassembled_len,
                containing_buffer,
                Ghost(limit),
            ) {
                Some(len) => {
                    reassembled_len = len;
                },
                None => {
                    break;
                },
            }
            proof {
                done_items = contents(done@, containing_buffer@);
            }
            index = index + 1;
        }
        let ghost coalesced_spans = done@;
        let ghost left = spans@.skip(index as int);
        let mut waiting: VecDeque<FragmentSpan> = spans.split_off(index);
        done.append(&mut waiting);
        *spans = done;
        proof {
            let buf = containing_buffer@;
            assert(spans@ =~= coalesced_spans + left);
            if done_items.len() == 0 {
                assert(coalesced_spans =~= Seq::empty());
                assert(spans@ =~= sorted_spans(spans0));
            }
            lemma_parts_fit(
                coalesced_spans,
                left,
                self.future_epoch_records@,
                buf.len() as int,
                reassembled_len as int,
            );
            assert(contents(left, buf) =~= items.skip(index as int));
            assert(contents(spans@, buf) =~= done_items + items.skip(index as int));
            lemma_packed_prefix(coalesced_spans, spans@, coalesced_spans.len() as int);
            assert forall|i: int| 0 <= i < spans@.len() implies (#[trigger] spans@[i]).bounds.end
                <= limit by {
                if i < coalesced_spans.len() {
                    assert(coalesced_spans[i].fits(reassembled_len as int));
                } else {
                    assert(left[i - coalesced_spans.len()].bounds.end <= limit);
                }
            }
            lemma_spans_end(spans@, limit);
            assert(buf.skip(limit) =~= buf0.skip(limit));
        }
        Ok(())
    }
}

} // verus!
