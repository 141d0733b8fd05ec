//! What every counter offers: it is made for a largest width, is fed the
//! stream byte by byte, is finalized once, and then hands out its tables.

use crate::digits::NumericType;
use crate::listing::writes_out;
use crate::model::{windows, MAX_DIGITS};
use vstd::prelude::*;

verus! {

/// Why no counter was made.
#[derive(Debug, Clone, Copy, PartialEq, Eq, Structural)]
pub enum EngineError {
    /// The largest width is more than the register has room for.
    InvalidWidth,
    /// The count store cannot be made for the largest width.
    BackendInfeasible,
}

/// Whether `tables` holds, for every width from 1 to `digits` in turn, the
/// count table of that width for the stream `s`, written out.
pub open spec fn counts_written<N: NumericType>(
    tables: Seq<Vec<(u64, u64)>>,
    s: Seq<u8>,
    digits: nat,
) -> bool {
    &&& tables.len() == digits
    &&& forall|i: int|
        0 <= i < digits ==> writes_out((#[trigger] tables[i])@, windows::<N>(s, i + 1))
}

/// A counter of the numbers in the runs of digits of a byte stream.
pub trait Process: Sized {
    /// The alphabet that says which bytes are digits.
    type Numeric: NumericType;

    /// Whether the counter is in order.
    spec fn inv(&self) -> bool;

    /// The bytes that the counter was fed, in order.
    spec fn consumed(&self) -> Seq<u8>;

    /// The largest width that the counter counts.
    spec fn digits(&self) -> nat;

    /// Whether the counter was finalized.
    spec fn finalized(&self) -> bool;

    /// The largest width that a counter of this kind can be made for.
    spec fn max_digits() -> nat;

    /// A counter for the widths from 1 to `digit` that was fed nothing.
    fn new(digit: usize) -> (made: Result<Self, EngineError>)
        ensures
            Self::max_digits() <= MAX_DIGITS,
            match made {
                Ok(counter) => {
                    &&& digit <= Self::max_digits()
                    &&& counter.inv()
                    &&& counter.digits() == digit
                    &&& counter.consumed() == Seq::<u8>::empty()
                    &&& !counter.finalized()
                },
                Err(EngineError::InvalidWidth) => digit > MAX_DIGITS,
                Err(EngineError::BackendInfeasible) => Self::max_digits() < digit <= MAX_DIGITS,
            },
    ;

    /// How many bytes the counter was fed.
    fn fed(&self) -> (bytes: u64)
        requires
            self.inv(),
        ensures
            bytes == self.consumed().len(),
    ;

    /// Whether the counter was finalized.
    fn is_finalized(&self) -> (finalized: bool)
        requires
            self.inv(),
        ensures
            finalized == self.finalized(),
    ;

    /// Feeds the counter one more byte.
    fn on_byte(&mut self, b: u8)
        requires
            old(self).inv(),
            !old(self).finalized(),
            old(self).consumed().len() < u64::MAX,
        ensures
            final(self).inv(),
            !final(self).finalized(),
            final(self).digits() == old(self).digits(),
            final(self).consumed() == old(self).consumed().push(b),
    ;

    /// Ends the stream.
    fn finalize(self) -> (done: Self)
        requires
            self.inv(),
            !self.finalized(),
        ensures
            done.inv(),
            done.finalized(),
            done.digits() == self.digits(),
            done.consumed() == self.consumed(),
    ;

    /// The count tables of the stream that was fed, one for every width from
    /// 1 to the largest in turn, each written out in ascending order of its
    /// values.
    fn into_count(self) -> (tables: Vec<Vec<(u64, u64)>>)
        requires
            self.inv(),
            self.finalized(),
        ensures
            counts_written::<Self::Numeric>(tables@, self.consumed(), self.digits()),
    ;
}

} // verus!
