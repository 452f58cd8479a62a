//! A queue of byte chunks.

use vstd::prelude::*;

use crate::crypto::cipher::copy_into;

verus! {

/// All chunks, one behind the other.
pub open spec fn joined(chunks: Seq<Vec<u8>>) -> Seq<u8>
    decreases chunks.len(),
{
    if chunks.len() == 0 {
        Seq::empty()
    } else {
        chunks.first()@ + joined(chunks.drop_first())
    }
}

/// A chunk behind the others comes last.
proof fn lemma_joined_push(chunks: Seq<Vec<u8>>, chunk: Vec<u8>)
    ensures
        joined(chunks.push(chunk)) == joined(chunks) + chunk@,
    decreases chunks.len(),
{
    if chunks.len() == 0 {
        reveal_with_fuel(joined, 2);
        assert(chunks.push(chunk).drop_first() =~= Seq::<Vec<u8>>::empty());
        assert(joined(chunks.push(chunk)) =~= chunk@);
    } else {
        lemma_joined_push(chunks.drop_first(), chunk);
        assert(chunks.push(chunk).drop_first() =~= chunks.drop_first().push(chunk));
        assert(joined(chunks.push(chunk)) =~= joined(chunks) + chunk@);
    }
}

/// This is a byte buffer that is built from a queue of byte vectors.
///
/// This avoids extra copies when appending a new byte vector, at the expense of
/// more complexity when reading out.
#[derive(Debug)]
pub struct ChunkVecBuffer {
    chunks: Vec<Vec<u8>>,
}

impl View for ChunkVecBuffer {
    type V = Seq<u8>;

    closed spec fn view(&self) -> Seq<u8> {
        joined(self.chunks@)
    }
}

impl ChunkVecBuffer {
    #[verifier::type_invariant]
    spec fn inv(self) -> bool {
        forall|i: int| 0 <= i < self.chunks@.len() ==> #[trigger] self.chunks@[i]@.len() > 0
    }

    /// An empty buffer without a limit.
    pub fn new() -> (r: Self)
        ensures
            r@ == Seq::<u8>::empty(),
    {
        ChunkVecBuffer { chunks: Vec::new() }
    }

    /// If we're empty
    pub fn is_empty(&self) -> (r: bool)
        ensures
            r == (self@.len() == 0),
    {
        proof {
            use_type_invariant(self);
        }
        if self.chunks.len() > 0 {
            assert(self.chunks@[0]@.len() > 0);
            assert(self@.len() > 0);
        }
        self.chunks.len() == 0
    }

    /// Take and append the given bytes. Their number is returned.
    pub fn append(&mut self, bytes: Vec<u8>) -> (r: usize)
        ensures
            r == bytes@.len(),
            final(self)@ == old(self)@ + bytes@,
    {
        proof {
            use_type_invariant(&*self);
        }
        let len: usize = bytes.len();
        if len > 0 {
            let ghost before = self.chunks@;
            let mut chunks: Vec<Vec<u8>> = Vec::new();
            std::mem::swap(&mut chunks, &mut self.chunks);
            chunks.push(bytes);
            proof {
                lemma_joined_push(before, bytes);
            }
            self.chunks = chunks;
        } else {
            assert(old(self)@ + bytes@ =~= old(self)@);
        }
        len
    }

    /// Reads out as many bytes as there are and `out` has room for. Their number is
    /// returned.
    pub fn write_to(&mut self, out: &mut [u8]) -> (r: usize)
        ensures
            r == if old(self)@.len() < old(out)@.len() {
                old(self)@.len()
            } else {
                old(out)@.len()
            },
            final(out)@ == old(self)@.take(r as int) + old(out)@.skip(r as int),
            final(self)@ == old(self)@.skip(r as int),
    {
        proof {
            use_type_invariant(&*self);
        }
        let ghost whole = self@;
        let ghost before = out@;
        let mut chunks: Vec<Vec<u8>> = Vec::new();
        std::mem::swap(&mut chunks, &mut self.chunks);
        let mut pos: usize = 0;
        assert(out.len() == before.len());
        assert(whole.skip(0) =~= whole);
        assert(out@ =~= whole.take(0) + before.skip(0));
        while pos < out.len() && chunks.len() > 0
            invariant
                pos <= before.len(),
                pos <= whole.len(),
                before.len() <= usize::MAX,
                out@.len() == before.len(),
                out@ == whole.take(pos as int) + before.skip(pos as int),
                joined(chunks@) == whole.skip(pos as int),
                forall|i: int| 0 <= i < chunks@.len() ==> #[trigger] chunks@[i]@.len() > 0,
            decreases before.len() - pos,
        {
            let ghost ahead = chunks@;
            let ghost already = pos as int;
            assert(ahead[0]@.len() > 0);
            let chunk: Vec<u8> = chunks.remove(0);
            assert(chunks@ =~= ahead.drop_first());
            assert(whole.skip(already) == chunk@ + joined(chunks@));
            let room: usize = out.len() - pos;
            if chunk.len() <= room {
                copy_into(out, pos, chunk.as_slice());
                pos = pos + chunk.len();
                assert(whole.skip(pos as int) =~= whole.skip(already).skip(pos - already));
                assert((chunk@ + joined(chunks@)).skip(chunk@.len() as int) =~= joined(chunks@));
                assert(whole.skip(pos as int) =~= joined(chunks@));
            } else {
                let (front, back) = chunk.as_slice().split_at(room);
                copy_into(out, pos, front);
                let rest: Vec<u8> = vstd::slice::slice_to_vec(back);
                chunks.insert(0, rest);
                pos = pos + room;
                assert(chunks@.drop_first() =~= ahead.drop_first());
                assert(whole.skip(pos as int) =~= whole.skip(already).skip(room as int));
                assert((chunk@ + joined(ahead.drop_first())).skip(room as int) =~= back@ + joined(
                    ahead.drop_first(),
                ));
                assert(whole.skip(pos as int) =~= joined(chunks@));
            }
            assert(whole.take(pos as int) =~= whole.take(already) + whole.skip(already).take(
                pos - already,
            ));
            assert(out@ =~= whole.take(pos as int) + before.skip(pos as int));
        }
        proof {
            if chunks@.len() == 0 {
                assert(whole.skip(pos as int).len() == 0);
            } else {
                assert(chunks@[0]@.len() > 0);
                assert(joined(chunks@).len() > 0);
            }
        }
        self.chunks = chunks;
        pos
    }
}

/// Reading in two goes gives the same bytes, in the same order, as reading in one.
pub proof fn law_reads_are_consecutive(queued: Seq<u8>, n: int, m: int)
    requires
        0 <= n,
        0 <= m,
        n + m <= queued.len(),
    ensures
        queued.take(n) + queued.skip(n).take(m) == queued.take(n + m),
        queued.skip(n).skip(m) == queued.skip(n + m),
{
    assert(queued.take(n) + queued.skip(n).take(m) =~= queued.take(n + m));
    assert(queued.skip(n).skip(m) =~= queued.skip(n + m));
}

} // verus!
