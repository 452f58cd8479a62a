//! Epochs and record sequence numbers.

use vstd::prelude::*;

verus! {

/// The epoch of a record, which says under which keys it is protected.
#[derive(Clone, Copy, Debug, PartialEq, Eq, Structural, PartialOrd, Ord, Hash)]
pub struct Epoch {
    pub number: u64,
}

impl Epoch {
    pub fn new(number: u64) -> (r: Self)
        ensures
            r == (Epoch { number }),
    {
        Epoch { number }
    }

    pub fn number(&self) -> (r: u64)
        ensures
            r == self.number,
    {
        self.number
    }

    /// Whether this epoch is older than `other`.
    pub open spec fn is_before(self, other: Self) -> bool {
        self.number < other.number
    }

    /// Whether `other` is the very next epoch.
    pub open spec fn is_succeeded_by(self, other: Self) -> bool {
        other.number == self.number + 1
    }

    /// Whether this epoch is older than `other`.
    pub fn before(&self, other: Epoch) -> (r: bool)
        ensures
            r == self.is_before(other),
    {
        self.number < other.number
    }

    /// Whether `other` is the very next epoch.
    pub fn successor(&self, other: Epoch) -> (r: bool)
        ensures
            r == self.is_succeeded_by(other),
    {
        self.number < other.number && other.number - self.number == 1
    }
}

/// The epoch and sequence number in a plaintext record header.
#[derive(Clone, Copy, Debug, PartialEq, Eq, Structural)]
pub struct EpochAndSequence {
    pub epoch: u16,
    pub sequence: u64,
}

impl EpochAndSequence {
    pub fn new(epoch: u16, sequence: u64) -> (r: Self)
        ensures
            r == (EpochAndSequence { epoch, sequence }),
    {
        EpochAndSequence { epoch, sequence }
    }

    /// The same epoch with a sequence number that is `increment` higher.
    pub open spec fn plus(self, increment: int) -> Self {
        EpochAndSequence { epoch: self.epoch, sequence: (self.sequence + increment) as u64 }
    }

    /// The same epoch with a sequence number that is `increment` higher.
    pub fn add_sequence_increment(&self, increment: u64) -> (r: Self)
        requires
            self.sequence + increment <= u64::MAX,
        ensures
            r == self.plus(increment as int),
    {
        EpochAndSequence { epoch: self.epoch, sequence: self.sequence + increment }
    }
}

/// An epoch is before another if its number is lower, and is succeeded by exactly one.
pub proof fn law_epochs_are_ordered(a: Epoch, b: Epoch)
    ensures
        a.is_before(b) <==> b.number > a.number,
        a.is_succeeded_by(b) <==> b.number - a.number == 1,
        a.is_succeeded_by(b) ==> a.is_before(b),
        a.is_before(b) || b.is_before(a) || a == b,
{
}

/// Counting up leaves the epoch alone, and step by step leads to the same as all at once.
pub proof fn law_sequence_counts_up(es: EpochAndSequence, m: int, n: int)
    requires
        0 <= m,
        0 <= n,
        es.sequence + m + n <= u64::MAX,
    ensures
        es.plus(0) == es,
        es.plus(m).plus(n) == es.plus(m + n),
        es.plus(m).epoch == es.epoch,
        es.plus(m).sequence - es.sequence == m,
{
}

} // verus!
