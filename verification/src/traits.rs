//! Basic traits of succinct data structures: bit-vector length, rank and
//! select queries.  Implementors describe their bit content through the
//! `bits` spec view; each operation's contract is stated over that view.

use vstd::prelude::*;

pub mod indexed_dict;

verus! {

/// Number of ones among the first `n` bits.
pub open spec fn count_ones(bits: Seq<bool>, n: int) -> int
    decreases n,
{
    if n <= 0 {
        0
    } else {
        count_ones(bits, n - 1) + if bits[n - 1] {
            1int
        } else {
            0int
        }
    }
}

/// The length of the bit vector underlying a succinct data structure.
pub trait BitLength {
    /// The underlying bits.
    spec fn bits(&self) -> Seq<bool>;

    /// Return the length in bits of the underlying bit vector.
    fn len(&self) -> (r: usize)
        ensures
            r == self.bits().len(),
    ;
}

/// Rank over a bit vector.
pub trait Rank: BitLength {
    /// Return the number of ones preceding the specified position; a
    /// position past the end counts the whole vector.
    fn rank(&self, pos: usize) -> (r: usize)
        ensures
            r == count_ones(
                self.bits(),
                if pos <= self.bits().len() {
                    pos as int
                } else {
                    self.bits().len() as int
                },
            ),
    ;
}

/// Rank of zeros over a bit vector.
pub trait RankZero: Rank {
    /// Return the number of zeros preceding the specified position; a
    /// position past the end counts every position up to it as a zero
    /// beyond the vector, mirroring `pos - rank(pos)` with `rank` clamped.
    fn rank_zero(&self, pos: usize) -> (r: usize)
        ensures
            r == pos - count_ones(
                self.bits(),
                if pos <= self.bits().len() {
                    pos as int
                } else {
                    self.bits().len() as int
                },
            ),
    ;
}

/// Select over a bit vector.
pub trait Select: BitLength {
    /// Return the position of the one of given rank, or `None` when fewer
    /// than `rank + 1` ones exist.
    fn select(&self, rank: usize) -> (r: Option<usize>)
        ensures
            match r {
                Some(pos) => pos < self.bits().len() && self.bits()[pos as int] && count_ones(
                    self.bits(),
                    pos as int,
                ) == rank,
                None => count_ones(self.bits(), self.bits().len() as int) <= rank,
            },
    ;
}

/// Select of zeros over a bit vector.
pub trait SelectZero: BitLength {
    /// Return the position of the zero of given rank, or `None` when fewer
    /// than `rank + 1` zeros exist.
    fn select_zero(&self, rank: usize) -> (r: Option<usize>)
        ensures
            match r {
                Some(pos) => pos < self.bits().len() && !self.bits()[pos as int] && pos
                    - count_ones(self.bits(), pos as int) == rank,
                None => self.bits().len() - count_ones(self.bits(), self.bits().len() as int)
                    <= rank,
            },
    ;
}

} // verus!
