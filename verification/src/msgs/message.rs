//! Record and handshake payloads, borrowed and owned.

use vstd::prelude::*;

use crate::enums::{ContentType, ProtocolVersion};
use crate::epoch::EpochAndSequence;
use crate::msgs::codec::{be_bytes, encode_be};

verus! {

/// Length of the header on a TLS record: content type, version and length.
pub const HEADER_SIZE: usize = 1 + 2 + 2;

/// Length of the header on a TLS handshake message: type and length.
pub const HANDSHAKE_HEADER_SIZE: usize = 1 + 3;

/// Bytes that are either borrowed or owned.
#[derive(Debug)]
pub enum Payload<'a> {
    Borrowed(&'a [u8]),
    Owned(Vec<u8>),
}

impl<'a> View for Payload<'a> {
    type V = Seq<u8>;

    open spec fn view(&self) -> Seq<u8> {
        match self {
            Payload::Borrowed(bytes) => bytes@,
            Payload::Owned(bytes) => bytes@,
        }
    }
}

impl<'a> Payload<'a> {
    pub fn new(bytes: Vec<u8>) -> (r: Self)
        ensures
            r@ == bytes@,
    {
        Payload::Owned(bytes)
    }

    pub fn bytes(&self) -> (r: &[u8])
        ensures
            r@ == self@,
    {
        match self {
            Payload::Borrowed(bytes) => bytes,
            Payload::Owned(bytes) => bytes.as_slice(),
        }
    }

    /// Appends the bytes as they are.
    pub fn encode(&self, bytes: &mut Vec<u8>)
        ensures
            final(bytes)@ == old(bytes)@ + self@,
    {
        bytes.extend_from_slice(self.bytes());
    }

    /// The bytes as they are.
    pub fn get_encoding(&self) -> (r: Vec<u8>)
        ensures
            r@ == self@,
    {
        vstd::slice::slice_to_vec(self.bytes())
    }
}

/// All chunks, one behind the other.
pub open spec fn flatten(chunks: Seq<&[u8]>) -> Seq<u8>
    decreases chunks.len(),
{
    if chunks.len() == 0 {
        Seq::empty()
    } else {
        flatten(chunks.drop_last()) + chunks.last()@
    }
}

/// Chunks are put one behind the other, in order: one chunk is itself, and more chunks come
/// behind.
pub proof fn law_chunks_are_put_in_order(chunks: Seq<&[u8]>, more: Seq<&[u8]>)
    ensures
        chunks.len() == 1 ==> flatten(chunks) == chunks[0]@,
        flatten(chunks + more) == flatten(chunks) + flatten(more),
    decreases more.len(),
{
    if chunks.len() == 1 {
        reveal_with_fuel(flatten, 2);
        assert(chunks.drop_last() =~= Seq::empty());
        assert(flatten(chunks) =~= chunks[0]@);
    }
    if more.len() == 0 {
        assert(chunks + more =~= chunks);
        assert(flatten(chunks) + flatten(more) =~= flatten(chunks));
    } else {
        law_chunks_are_put_in_order(chunks, more.drop_last());
        assert((chunks + more).drop_last() =~= chunks + more.drop_last());
        assert(flatten(chunks + more) =~= flatten(chunks) + flatten(more));
    }
}

/// Fewer chunks make a prefix of what all of them make.
pub proof fn lemma_flatten_prefix(chunks: Seq<&[u8]>, n: int)
    requires
        0 <= n <= chunks.len(),
    ensures
        flatten(chunks.take(n)).len() <= flatten(chunks).len(),
        flatten(chunks).take(flatten(chunks.take(n)).len() as int) == flatten(chunks.take(n)),
    decreases chunks.len(),
{
    if n == chunks.len() {
        assert(chunks.take(n) =~= chunks);
        assert(flatten(chunks).take(flatten(chunks).len() as int) =~= flatten(chunks));
    } else {
        lemma_flatten_prefix(chunks.drop_last(), n);
        assert(chunks.drop_last().take(n) =~= chunks.take(n));
        let front = flatten(chunks.drop_last());
        let k = flatten(chunks.take(n)).len() as int;
        assert((front + chunks.last()@).take(k) =~= front.take(k));
    }
}

/// Plaintext on its way out, in one piece or in several.
#[derive(Clone, Copy, Debug)]
pub enum OutboundPlain<'a> {
    /// One contiguous piece.
    Single(&'a [u8]),
    /// The bytes from `start` to `end` of the chunks laid end to end.
    Multiple { chunks: &'a [&'a [u8]], start: usize, end: usize },
}

impl<'a> View for OutboundPlain<'a> {
    type V = Seq<u8>;

    open spec fn view(&self) -> Seq<u8> {
        match self {
            OutboundPlain::Single(chunk) => chunk@,
            OutboundPlain::Multiple { chunks, start, end } => flatten(chunks@).subrange(
                *start as int,
                *end as int,
            ),
        }
    }
}

impl<'a> OutboundPlain<'a> {
    /// The range lies within the chunks.
    pub open spec fn wf(&self) -> bool {
        match self {
            OutboundPlain::Single(_) => true,
            OutboundPlain::Multiple { chunks, start, end } => *start <= *end <= flatten(chunks@).len(),
        }
    }

    /// All bytes of `chunks`.
    pub fn new(chunks: &'a [&'a [u8]]) -> (r: Self)
        requires
            flatten(chunks@).len() <= usize::MAX,
        ensures
            r.wf(),
            r@ == flatten(chunks@),
            r is Single <==> chunks@.len() == 1,
    {
        if chunks.len() == 1 {
            proof {
                assert(chunks@.drop_last() =~= Seq::empty());
                assert(flatten(chunks@) =~= chunks@[0]@) by {
                    reveal_with_fuel(flatten, 2);
                }
            }
            return OutboundPlain::Single(chunks[0]);
        }
        let mut end: usize = 0;
        let mut i: usize = 0;
        while i < chunks.len()
            invariant
                i <= chunks@.len(),
                end == flatten(chunks@.take(i as int)).len(),
                flatten(chunks@).len() <= usize::MAX,
            decreases chunks@.len() - i,
        {
            proof {
                assert(chunks@.take(i + 1).drop_last() =~= chunks@.take(i as int));
                lemma_flatten_prefix(chunks@, i + 1);
            }
            end = end + chunks[i].len();
            i = i + 1;
        }
        assert(chunks@.take(i as int) =~= chunks@);
        let r = OutboundPlain::Multiple { chunks, start: 0, end };
        assert(r@ =~= flatten(chunks@));
        r
    }

    pub fn len(&self) -> (r: usize)
        requires
            self.wf(),
        ensures
            r == self@.len(),
    {
        match self {
            OutboundPlain::Single(chunk) => chunk.len(),
            OutboundPlain::Multiple { start, end, .. } => *end - *start,
        }
    }

    pub fn is_empty(&self) -> (r: bool)
        requires
            self.wf(),
        ensures
            r == (self@.len() == 0),
    {
        self.len() == 0
    }

    /// The plaintext as one slice, if it is in one piece.
    pub fn single_chunk(&self) -> (r: Option<&'a [u8]>)
        ensures
            r is Some <==> self is Single,
            r matches Some(bytes) ==> bytes@ == self@,
    {
        match self {
            OutboundPlain::Single(chunk) => Some(*chunk),
            OutboundPlain::Multiple { .. } => None,
        }
    }

    /// Splits off the first `mid` bytes, or everything if there are fewer.
    pub fn split_at(&self, mid: usize) -> (r: (Self, Self))
        requires
            self.wf(),
        ensures
            r.0.wf(),
            r.1.wf(),
            mid <= self@.len() ==> r.0@ == self@.take(mid as int) && r.1@ == self@.skip(mid as int),
            mid > self@.len() ==> r.0@ == self@ && r.1@ == Seq::<u8>::empty(),
            self is Single <==> r.0 is Single,
            self is Single <==> r.1 is Single,
    {
        match self {
            OutboundPlain::Single(chunk) => {
                let at: usize = if mid < chunk.len() {
                    mid
                } else {
                    chunk.len()
                };
                let r = (
                    OutboundPlain::Single(vstd::slice::slice_subrange(*chunk, 0, at)),
                    OutboundPlain::Single(vstd::slice::slice_subrange(*chunk, at, chunk.len())),
                );
                assert(mid <= self@.len() ==> r.0@ =~= self@.take(mid as int) && r.1@
                    =~= self@.skip(mid as int));
                assert(mid > self@.len() ==> r.0@ =~= self@ && r.1@ =~= Seq::<u8>::empty());
                r
            },
            OutboundPlain::Multiple { chunks, start, end } => {
                let at: usize = if mid < *end - *start {
                    *start + mid
                } else {
                    *end
                };
                let r = (
                    OutboundPlain::Multiple { chunks: *chunks, start: *start, end: at },
                    OutboundPlain::Multiple { chunks: *chunks, start: at, end: *end },
                );
                assert(mid <= self@.len() ==> r.0@ =~= self@.take(mid as int) && r.1@
                    =~= self@.skip(mid as int));
                assert(mid > self@.len() ==> r.0@ =~= self@ && r.1@ =~= Seq::<u8>::empty());
                r
            },
        }
    }

    /// Appends the plaintext to `vec`.
    pub fn copy_to_vec(&self, vec: &mut Vec<u8>)
        requires
            self.wf(),
        ensures
            final(vec)@ == old(vec)@ + self@,
    {
        match self {
            OutboundPlain::Single(chunk) => {
                vec.extend_from_slice(chunk);
            },
            OutboundPlain::Multiple { chunks, start, end } => {
                let from: usize = *start;
                let to: usize = *end;
                let mut size: usize = 0;
                let mut i: usize = 0;
                let ghost all = flatten(chunks@);
                while i < chunks.len() && size < to
                    invariant
                        i <= chunks@.len(),
                        all == flatten(chunks@),
                        from <= to <= all.len(),
                        self@ == all.subrange(from as int, to as int),
                        size == flatten(chunks@.take(i as int)).len(),
                        vec@ == old(vec)@ + all.take(clamp(size as int, from as int, to as int)).skip(
                            from as int,
                        ),
                        size <= usize::MAX,
                    decreases chunks@.len() - i,
                {
                    let chunk: &[u8] = chunks[i];
                    let ghost next = flatten(chunks@.take(i + 1));
                    proof {
                        assert(chunks@.take(i + 1).drop_last() =~= chunks@.take(i as int));
                        lemma_flatten_prefix(chunks@, i + 1);
                        assert(next == all.take(next.len() as int));
                    }
                    let take_to: usize = if to - size < chunk.len() {
                        to - size
                    } else {
                        chunk.len()
                    };
                    let take_from: usize = if size < from {
                        if from - size < take_to {
                            from - size
                        } else {
                            take_to
                        }
                    } else {
                        0
                    };
                    vec.extend_from_slice(vstd::slice::slice_subrange(chunk, take_from, take_to));
                    proof {
                        let seen = flatten(chunks@.take(i as int));
                        assert(next =~= seen + chunk@);
                        let a = clamp(size as int, from as int, to as int);
                        let b = clamp(next.len() as int, from as int, to as int);
                        assert forall|k: int| size <= k < next.len() implies all[k] == chunk@[k
                            - size] by {
                            assert(next[k] == all.take(next.len() as int)[k]);
                        }
                        assert(all.take(b).skip(from as int) =~= all.take(a).skip(from as int)
                            + chunk@.subrange(take_from as int, take_to as int));
                    }
                    if chunk.len() >= to - size {
                        size = to;
                        i = i + 1;
                        assert(vec@ =~= old(vec)@ + self@);
                        return ;
                    }
                    size = size + chunk.len();
                    i = i + 1;
                }
                proof {
                    if i == chunks@.len() {
                        assert(chunks@.take(i as int) =~= chunks@);
                    }
                    assert(vec@ =~= old(vec)@ + self@);
                }
            },
        }
    }

    pub fn to_vec(&self) -> (r: Vec<u8>)
        requires
            self.wf(),
        ensures
            r@ == self@,
    {
        let mut vec: Vec<u8> = Vec::new();
        self.copy_to_vec(&mut vec);
        assert(vec@ =~= self@);
        vec
    }
}

/// `x` held between `low` and `high`.
pub open spec fn clamp(x: int, low: int, high: int) -> int {
    if x < low {
        low
    } else if x > high {
        high
    } else {
        x
    }
}

/// A record before its payload is protected, or one that needs no protection.
#[derive(Debug)]
pub struct EncodedMessage<P> {
    pub typ: ContentType,
    pub version: ProtocolVersion,
    pub epoch_and_sequence: Option<EpochAndSequence>,
    pub payload: P,
}

/// The bytes that a record puts in front of a payload of `len` bytes.
pub open spec fn record_header_bytes(
    typ: ContentType,
    version: ProtocolVersion,
    epoch_and_sequence: Option<EpochAndSequence>,
    len: nat,
) -> Seq<u8> {
    let front = seq![typ.code()] + be_bytes(version.code() as nat, 2);
    match epoch_and_sequence {
        Some(es) => front + be_bytes(es.epoch as nat, 2) + be_bytes(es.sequence as nat, 6)
            + be_bytes(len, 2),
        None => front + be_bytes(len, 2),
    }
}

impl<'a> EncodedMessage<OutboundPlain<'a>> {
    /// The same record with its payload as it goes on the wire unprotected.
    pub fn to_unencrypted_opaque(&self) -> (r: EncodedMessage<OutboundOpaque>)
        requires
            self.payload.wf(),
        ensures
            r.typ == self.typ,
            r.version == self.version,
            r.epoch_and_sequence == self.epoch_and_sequence,
            r.payload@ == self.payload@,
    {
        EncodedMessage {
            typ: self.typ,
            version: self.version,
            epoch_and_sequence: self.epoch_and_sequence,
            payload: OutboundOpaque(self.payload.to_vec()),
        }
    }
}

/// A record payload in the form in which it goes on the wire.
#[derive(Debug)]
pub struct OutboundOpaque(pub Vec<u8>);

impl View for OutboundOpaque {
    type V = Seq<u8>;

    open spec fn view(&self) -> Seq<u8> {
        self.0@
    }
}

impl EncodedMessage<OutboundOpaque> {
    /// The whole record, header and payload. Records with an epoch and a
    /// sequence number get a DTLS header, the others a TLS header.
    pub fn encode(&self) -> (r: Vec<u8>)
        requires
            self.payload@.len() <= u16::MAX,
        ensures
            r@ == record_header_bytes(
                self.typ,
                self.version,
                self.epoch_and_sequence,
                self.payload@.len(),
            ) + self.payload@,
    {
        let mut bytes: Vec<u8> = Vec::new();
        bytes.push(self.typ.to_u8());
        encode_be(self.version.to_u16() as u64, 2, &mut bytes);
        assert(bytes@ =~= seq![self.typ.code()] + be_bytes(self.version.code() as nat, 2));
        match self.epoch_and_sequence {
            Some(es) => {
                encode_be(es.epoch as u64, 2, &mut bytes);
                encode_be(es.sequence, 6, &mut bytes);
            },
            None => {},
        }
        encode_be(self.payload.0.len() as u64, 2, &mut bytes);
        bytes.extend_from_slice(self.payload.0.as_slice());
        bytes
    }
}

} // verus!
