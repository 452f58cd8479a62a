//! Big-endian numbers and a cursor over borrowed bytes.

use vstd::prelude::*;

use crate::error::InvalidMessage;

verus! {

/// The number of values that `n` bytes can take.
pub open spec fn pow256(n: nat) -> nat
    decreases n,
{
    if n == 0 {
        1
    } else {
        256 * pow256((n - 1) as nat)
    }
}

/// The low `n` bytes of `value`, most significant byte first.
pub open spec fn be_bytes(value: nat, n: nat) -> Seq<u8>
    decreases n,
{
    if n == 0 {
        Seq::empty()
    } else {
        be_bytes(value / 256, (n - 1) as nat).push((value % 256) as u8)
    }
}

/// The number that `bytes` encode, most significant byte first.
pub open spec fn be_value(bytes: Seq<u8>) -> nat
    decreases bytes.len(),
{
    if bytes.len() == 0 {
        0
    } else {
        be_value(bytes.drop_last()) * 256 + bytes.last() as nat
    }
}

/// `n` bytes are produced whatever the value.
pub broadcast proof fn lemma_be_bytes_len(value: nat, n: nat)
    ensures
        #[trigger] be_bytes(value, n).len() == n,
    decreases n,
{
    if n > 0 {
        lemma_be_bytes_len(value / 256, (n - 1) as nat);
    }
}

/// A number read from `n` bytes is below `pow256(n)`.
pub proof fn lemma_be_value_bound(bytes: Seq<u8>)
    ensures
        be_value(bytes) < pow256(bytes.len()),
    decreases bytes.len(),
{
    if bytes.len() > 0 {
        lemma_be_value_bound(bytes.drop_last());
    }
}

/// Reading what was written gives the number back, as long as it fits.
pub proof fn lemma_be_value_of_bytes(value: nat, n: nat)
    requires
        value < pow256(n),
    ensures
        be_value(be_bytes(value, n)) == value,
    decreases n,
{
    if n > 0 {
        lemma_be_value_of_bytes(value / 256, (n - 1) as nat);
        assert(be_bytes(value, n).drop_last() =~= be_bytes(value / 256, (n - 1) as nat));
    }
}

/// Writing what was read gives the bytes back.
pub proof fn lemma_be_bytes_of_value(bytes: Seq<u8>)
    ensures
        be_bytes(be_value(bytes), bytes.len()) == bytes,
    decreases bytes.len(),
{
    if bytes.len() > 0 {
        lemma_be_bytes_of_value(bytes.drop_last());
        let v = be_value(bytes.drop_last());
        assert((v * 256 + bytes.last()) / 256 == v);
        assert((v * 256 + bytes.last()) % 256 == bytes.last());
        assert(bytes.drop_last().push(bytes.last()) =~= bytes);
    } else {
        assert(bytes =~= Seq::empty());
    }
}

/// The values of `pow256` for the lengths of machine integers.
pub proof fn lemma_pow256_values()
    ensures
        pow256(0) == 1,
        pow256(1) == 0x100,
        pow256(2) == 0x1_0000,
        pow256(3) == 0x100_0000,
        pow256(4) == 0x1_0000_0000,
        pow256(5) == 0x100_0000_0000,
        pow256(6) == 0x1_0000_0000_0000,
        pow256(7) == 0x100_0000_0000_0000,
        pow256(8) == 0x1_0000_0000_0000_0000,
{
    reveal_with_fuel(pow256, 9);
}

/// Appends the low `n` bytes of `value`, most significant byte first.
pub fn encode_be(value: u64, n: usize, bytes: &mut Vec<u8>)
    ensures
        final(bytes)@ == old(bytes)@ + be_bytes(value as nat, n as nat),
    decreases n,
{
    if n > 0 {
        encode_be(value / 256, n - 1, bytes);
        bytes.push((value % 256) as u8);
    }
}

/// Writes the low `n` bytes of `value` into `out` from `at` on, most
/// significant byte first.
pub fn put_be(value: u64, n: usize, out: &mut [u8], at: usize)
    requires
        at + n <= old(out)@.len(),
    ensures
        final(out)@ == old(out)@.take(at as int) + be_bytes(value as nat, n as nat)
            + old(out)@.skip(at + n),
    decreases n,
{
    proof {
        lemma_be_bytes_len(value as nat, n as nat);
        lemma_be_bytes_len((value / 256) as nat, (n - 1) as nat);
    }
    if n > 0 {
        put_be(value / 256, n - 1, out, at);
        assert(out.len() == old(out)@.len());
        out[at + n - 1] = (value % 256) as u8;
    }
    assert(out@ =~= old(out)@.take(at as int) + be_bytes(value as nat, n as nat) + old(out)@.skip(
        at + n,
    ));
}

/// The number that at most eight bytes encode, most significant byte first.
pub fn decode_be(bytes: &[u8]) -> (r: u64)
    requires
        bytes@.len() <= 8,
    ensures
        r == be_value(bytes@),
{
    let mut value: u64 = 0;
    let mut i: usize = 0;
    while i < bytes.len()
        invariant
            i <= bytes@.len() <= 8,
            value == be_value(bytes@.take(i as int)),
        decreases bytes@.len() - i,
    {
        proof {
            assert(bytes@.take(i + 1).drop_last() =~= bytes@.take(i as int));
            lemma_be_value_bound(bytes@.take(i as int));
            lemma_pow256_values();
            assert(i == 0 || i == 1 || i == 2 || i == 3 || i == 4 || i == 5 || i == 6 || i == 7);
        }
        value = value * 256 + bytes[i] as u64;
        i = i + 1;
    }
    assert(bytes@.take(i as int) =~= bytes@);
    value
}

/// A number of 24 bits, as handshake headers carry it.
#[derive(Clone, Copy, Debug, PartialEq, Eq, Structural)]
pub struct U24(pub u32);

/// The largest number that 24 bits can hold.
pub const U24_MAX: u32 = 0xff_ffff;

/// A number of 48 bits, as record headers carry it.
#[derive(Clone, Copy, Debug, PartialEq, Eq, Structural)]
pub struct U48(pub u64);

/// Reads values off the front of a byte slice.
pub struct Reader<'a> {
    buffer: &'a [u8],
    cursor: usize,
}

impl<'a> Reader<'a> {
    /// The cursor stands inside the buffer or at its end.
    pub closed spec fn wf(&self) -> bool {
        self.cursor <= self.buffer@.len()
    }

    /// The bytes not yet read.
    pub closed spec fn rest(&self) -> Seq<u8> {
        self.buffer@.skip(self.cursor as int)
    }

    pub fn new(buffer: &'a [u8]) -> (r: Self)
        ensures
            r.wf(),
            r.rest() == buffer@,
    {
        let r = Reader { buffer, cursor: 0 };
        assert(r.rest() =~= buffer@);
        r
    }

    /// Takes the next `length` bytes, if there are as many.
    pub fn take(&mut self, length: usize) -> (r: Option<&'a [u8]>)
        requires
            old(self).wf(),
        ensures
            final(self).wf(),
            r is Some <==> length <= old(self).rest().len(),
            r matches Some(bytes) ==> bytes@ == old(self).rest().take(length as int)
                && final(self).rest() == old(self).rest().skip(length as int),
            r is None ==> final(self).rest() == old(self).rest(),
    {
        if self.buffer.len() - self.cursor < length {
            return None;
        }
        let start: usize = self.cursor;
        let end: usize = start + length;
        let bytes = vstd::slice::slice_subrange(self.buffer, start, end);
        self.cursor = end;
        assert(bytes@ =~= old(self).rest().take(length as int));
        assert(self.rest() =~= old(self).rest().skip(length as int));
        Some(bytes)
    }

    /// The number of bytes not yet read.
    pub fn left(&self) -> (r: usize)
        requires
            self.wf(),
        ensures
            r == self.rest().len(),
    {
        self.buffer.len() - self.cursor
    }

    /// Whether any byte is left to read.
    pub fn any_left(&self) -> (r: bool)
        requires
            self.wf(),
        ensures
            r == (self.rest().len() > 0),
    {
        self.cursor < self.buffer.len()
    }

    /// Reads a number of `n` bytes, or reports that `name` is missing.
    pub fn read_be(&mut self, n: usize, name: &'static str) -> (r: Result<u64, InvalidMessage>)
        requires
            old(self).wf(),
            n <= 8,
        ensures
            final(self).wf(),
            old(self).rest().len() < n ==> r == Err::<u64, _>(InvalidMessage::MissingData(name))
                && final(self).rest() == old(self).rest(),
            old(self).rest().len() >= n ==> r == Ok::<u64, InvalidMessage>(
                be_value(old(self).rest().take(n as int)) as u64,
            ) && final(self).rest() == old(self).rest().skip(n as int),
            r matches Ok(value) ==> value == be_value(old(self).rest().take(n as int)) && value
                < pow256(n as nat),
    {
        match self.take(n) {
            Some(bytes) => {
                proof {
                    lemma_be_value_bound(bytes@);
                }
                Ok(decode_be(bytes))
            },
            None => Err(InvalidMessage::MissingData(name)),
        }
    }
}

} // verus!
