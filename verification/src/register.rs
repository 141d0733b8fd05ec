//! The run register: the last digits of the current run, packed one nibble
//! to a digit into a 64-bit word.
//!
//! The register is never masked when a digit is pushed. Digits that came
//! before the current run, or more than sixteen places back, stay in or fall
//! off the high end of the word; a reader takes the low nibbles it wants.

use crate::digits::{hex_value, NumericType};
use crate::model::{window_valid, window_value, MAX_DIGITS};
use vstd::prelude::*;

verus! {

/// For every width up to sixteen, the word whose low nibbles, that many, are
/// all ones.
pub const HEX_MASKS: [u64; 17] = [
    0x0000000000000000,
    0x000000000000000f,
    0x00000000000000ff,
    0x0000000000000fff,
    0x000000000000ffff,
    0x00000000000fffff,
    0x0000000000ffffff,
    0x000000000fffffff,
    0x00000000ffffffff,
    0x0000000fffffffff,
    0x000000ffffffffff,
    0x00000fffffffffff,
    0x0000ffffffffffff,
    0x000fffffffffffff,
    0x00ffffffffffffff,
    0x0fffffffffffffff,
    0xffffffffffffffff,
];

/// The word whose low `w` nibbles are all ones; every bit for `w` of
/// sixteen or more.
pub open spec fn hex_mask(w: u64) -> u64 {
    if w >= 16 {
        0xffff_ffff_ffff_ffffu64
    } else {
        ((1u64 << (4 * w)) - 1) as u64
    }
}

/// The low `w` nibbles of `x`.
pub open spec fn low_nibbles(x: u64, w: int) -> u64 {
    x & hex_mask(w as u64)
}

/// Looks `width` up in [`HEX_MASKS`].
pub fn mask(width: usize) -> (m: u64)
    requires
        width <= MAX_DIGITS,
    ensures
        m == hex_mask(width as u64),
{
    proof {
        assert(hex_mask(0) == 0x0 && hex_mask(1) == 0xf && hex_mask(2) == 0xff && hex_mask(3)
            == 0xfff && hex_mask(4) == 0xffff && hex_mask(5) == 0xfffff && hex_mask(6) == 0xffffff
            && hex_mask(7) == 0xfffffff && hex_mask(8) == 0xffffffff && hex_mask(9)
            == 0xfffffffff && hex_mask(10) == 0xffffffffff && hex_mask(11) == 0xfffffffffff
            && hex_mask(12) == 0xffffffffffff && hex_mask(13) == 0xfffffffffffff && hex_mask(14)
            == 0xffffffffffffff && hex_mask(15) == 0xfffffffffffffff && hex_mask(16)
            == 0xffffffffffffffff) by (bit_vector);
    }
    HEX_MASKS[width]
}

/// No nibbles of a word make zero.
pub proof fn lemma_low_nibbles_none(x: u64)
    ensures
        low_nibbles(x, 0) == 0,
{
    assert(x & hex_mask(0) == 0) by (bit_vector);
}

/// The low `w` nibbles of a word after a digit was pushed are the low
/// `w - 1` nibbles from before, times sixteen, plus the digit.
pub proof fn lemma_low_nibbles_pushed(x: u64, n: u64, w: int)
    requires
        1 <= w <= 16,
        n < 16,
    ensures
        low_nibbles((x << 4) | n, w) == 16 * low_nibbles(x, w - 1) + n,
{
    let wide: u64 = w as u64;
    let narrow: u64 = (w - 1) as u64;
    assert((((x << 4) | n) & hex_mask(wide)) == 16 * (x & hex_mask(narrow)) + n) by (bit_vector)
        requires
            1 <= wide <= 16,
            narrow == wide - 1,
            n < 16,
    ;
}

/// To shift a word right by one nibble is to divide it by sixteen.
pub proof fn lemma_drop_nibble(v: u64)
    ensures
        v >> 4 == v / 16,
{
    assert(v >> 4 == v / 16) by (bit_vector);
}

/// The run register, with the largest width that is counted.
pub struct BytesState {
    /// The largest width that is counted.
    pub digits: usize,
    /// The digits of the run, the last one lowest.
    pub current_number: u64,
    /// How many digits of the run the register holds: all of a run of up to
    /// `digits`, the last `digits` of a longer one.
    pub current_digits: usize,
}

impl BytesState {
    /// An empty register for widths up to `digits`.
    pub fn new(digits: usize) -> (state: Self)
        ensures
            state.digits == digits,
            state.current_number == 0,
            state.current_digits == 0,
    {
        let current_number: u64 = 0;
        let current_digits: usize = 0;
        BytesState { digits, current_number, current_digits }
    }

    /// Whether the register holds no more digits than its largest width,
    /// which the word has room for.
    pub open spec fn well_formed(&self) -> bool {
        self.current_digits <= self.digits <= MAX_DIGITS
    }

    /// Whether the register is the one that reading `s` leaves behind: it
    /// holds the digits that `s` ends in, up to the largest width, and its low
    /// nibbles spell them.
    pub open spec fn tracks<N: NumericType>(&self, s: Seq<u8>) -> bool {
        &&& self.well_formed()
        &&& self.current_digits <= s.len()
        &&& window_valid::<N>(s, s.len() - self.current_digits, self.current_digits as int)
        &&& self.current_digits < self.digits ==> self.current_digits == s.len() || !N::numeric(
            s[s.len() - self.current_digits - 1],
        )
        &&& forall|w: int|
            0 <= w <= self.current_digits ==> #[trigger] low_nibbles(self.current_number, w)
                == window_value(s, s.len() - w, w)
    }

    /// The register after the digit `v`: the digit is shifted in, and the
    /// length grows unless the register was full.
    pub open spec fn pushed(self, v: u8) -> Self {
        BytesState {
            digits: self.digits,
            current_number: (self.current_number << 4) | (v as u64),
            current_digits: if self.current_digits == self.digits {
                self.current_digits
            } else {
                (self.current_digits + 1) as usize
            },
        }
    }

    /// The register after a byte that is no digit: it holds nothing.
    pub open spec fn cleared(self) -> Self {
        BytesState { digits: self.digits, current_number: self.current_number, current_digits: 0 }
    }

    /// Whether the register holds as many digits as its largest width.
    pub fn is_full(&self) -> (full: bool)
        ensures
            full == (self.current_digits == self.digits),
    {
        self.current_digits == self.digits
    }

    /// Shifts the digit `v` in.
    pub fn push(&mut self, v: u8)
        requires
            old(self).well_formed(),
            v < 16,
        ensures
            *final(self) == old(self).pushed(v),
            final(self).well_formed(),
    {
        if self.current_digits != self.digits {
            self.current_digits += 1;
        }
        self.current_number = (self.current_number << 4) | (v as u64);
    }

    /// Empties the register.
    pub fn clear(&mut self)
        ensures
            *final(self) == old(self).cleared(),
    {
        self.current_digits = 0;
    }

    /// A register that follows `s` follows `s` and one more digit after that
    /// digit was pushed.
    pub proof fn lemma_pushed_tracks<N: NumericType>(self, s: Seq<u8>, b: u8)
        requires
            self.tracks::<N>(s),
            N::numeric(b),
        ensures
            self.pushed(hex_value(b) as u8).tracks::<N>(s.push(b)),
    {
        N::lemma_numeric_is_hex(b);
        let t = s.push(b);
        let v = hex_value(b) as u8;
        let next = self.pushed(v);
        let held = next.current_digits as int;
        assert(window_valid::<N>(t, t.len() - held, held)) by {
            assert forall|j: int| t.len() - held <= j < t.len() implies N::numeric(
                #[trigger] t[j],
            ) by {
                if j < s.len() {
                    assert(t[j] == s[j]);
                }
            }
        }
        if held < next.digits && held != t.len() {
            assert(t[t.len() - held - 1] == s[s.len() - self.current_digits - 1]);
        }
        assert forall|w: int| 0 <= w <= held implies #[trigger] low_nibbles(
            next.current_number,
            w,
        ) == window_value(t, t.len() - w, w) by {
            if w == 0 {
                lemma_low_nibbles_none(next.current_number);
            } else {
                lemma_low_nibbles_pushed(self.current_number, v as u64, w);
                assert(low_nibbles(self.current_number, w - 1) == window_value(
                    s,
                    s.len() - (w - 1),
                    w - 1,
                ));
                crate::model::lemma_window_value_push(s, b, t.len() - w, w - 1);
                assert(t[t.len() - w + w - 1] == b);
            }
        }
    }

    /// After a byte that is no digit, the emptied register follows the
    /// longer stream.
    pub proof fn lemma_cleared_tracks<N: NumericType>(self, s: Seq<u8>, b: u8)
        requires
            self.well_formed(),
            !N::numeric(b),
        ensures
            self.cleared().tracks::<N>(s.push(b)),
    {
        let t = s.push(b);
        let next = self.cleared();
        assert(t[t.len() - 1] == b);
        assert forall|w: int| 0 <= w <= 0 implies #[trigger] low_nibbles(next.current_number, w)
            == window_value(t, t.len() - w, w) by {
            lemma_low_nibbles_none(next.current_number);
        }
    }

    /// An empty register follows the empty stream.
    pub proof fn lemma_new_tracks<N: NumericType>(self)
        requires
            self.well_formed(),
            self.current_digits == 0,
        ensures
            self.tracks::<N>(Seq::<u8>::empty()),
    {
        assert forall|w: int| 0 <= w <= 0 implies #[trigger] low_nibbles(self.current_number, w)
            == window_value(Seq::<u8>::empty(), 0 - w, w) by {
            lemma_low_nibbles_none(self.current_number);
        }
    }
}

} // verus!
