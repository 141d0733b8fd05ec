//! The plain counter: it keeps, for every width, the last bytes of the
//! stream in a buffer of their own, and counts what a buffer holds whenever
//! it holds digits only.

use crate::counter::{well_formed, CounterForWidth, CounterStrategy};
use crate::digits::{digit_map, is_not_numeric, NumericType};
use crate::listing::{lemma_lists_writes_out, list_tables, writes_out};
use crate::model::{
    lemma_pow16_grows, lemma_window_shifted, lemma_window_value_bound, lemma_windows_before_len,
    lemma_windows_push, window_valid, window_value, windows, MAX_DIGITS,
};
use crate::process::{EngineError, Process};
use crate::sparse::{HashMapCounter, HashMapCounterWidth};
use crate::variant::holds_windows;
use vstd::prelude::*;

verus! {

/// What the buffers hold before the stream reaches that far back: an
/// underscore, which is no digit.
pub const FILLER: u8 = 0x5f;

/// The last `w` bytes of `s`, after as many fillers as `s` is short of `w`.
pub open spec fn last_bytes(s: Seq<u8>, w: int) -> Seq<u8> {
    if s.len() >= w {
        s.subrange(s.len() - w, s.len() as int)
    } else {
        Seq::new((w - s.len()) as nat, |j: int| FILLER) + s
    }
}

/// A buffer follows the stream when its first byte is dropped and the new
/// byte is put at its end.
proof fn lemma_last_bytes_push(s: Seq<u8>, b: u8, w: int)
    requires
        1 <= w,
    ensures
        last_bytes(s.push(b), w) == last_bytes(s, w).drop_first().push(b),
{
    assert(last_bytes(s.push(b), w) =~= last_bytes(s, w).drop_first().push(b));
}

/// What a buffer holds counts if and only if the window at the end of the
/// stream counts, and then it has the window's value.
proof fn lemma_last_bytes_window<N: NumericType>(s: Seq<u8>, w: int)
    requires
        1 <= w,
    ensures
        last_bytes(s, w).len() == w,
        window_valid::<N>(last_bytes(s, w), 0, w) == window_valid::<N>(s, s.len() - w, w),
        window_valid::<N>(s, s.len() - w, w) ==> window_value(last_bytes(s, w), 0, w)
            == window_value(s, s.len() - w, w),
{
    let held = last_bytes(s, w);
    if s.len() >= w {
        let head = s.take(s.len() - w);
        assert(head + held =~= s);
        lemma_window_shifted::<N>(head, held, 0, w);
    } else {
        N::lemma_numeric_is_hex(FILLER);
        assert(held[0] == FILLER);
    }
}

/// The number that the hexadecimal digits in `text` spell.
fn digits_value(text: &Vec<u8>) -> (v: u64)
    requires
        text@.len() <= MAX_DIGITS,
        forall|j: int| 0 <= j < text@.len() ==> crate::digits::is_hex_digit(#[trigger] text@[j]),
    ensures
        v == window_value(text@, 0, text@.len() as int),
{
    let mut v: u64 = 0;
    let mut j: usize = 0;
    while j < text.len()
        invariant
            j <= text@.len() <= MAX_DIGITS,
            forall|k: int| 0 <= k < text@.len() ==> crate::digits::is_hex_digit(#[trigger] text@[k]),
            v == window_value(text@, 0, j as int),
        decreases text@.len() - j,
    {
        proof {
            lemma_window_value_bound(text@, 0, j as int);
            lemma_window_value_bound(text@, 0, j + 1);
            lemma_pow16_grows((j + 1) as nat, 16);
        }
        v = v * 16 + digit_map(text[j]) as u64;
        j += 1;
    }
    v
}

/// The plain counter for the alphabet `T`.
pub struct Original<T: NumericType> {
    count: HashMapCounter,
    buffer: Vec<Vec<u8>>,
    fed: u64,
    finalized: bool,
    bytes: Ghost<Seq<u8>>,
    _numeric_type: T,
}

impl<T: NumericType> Original<T> {
    /// The buffers of the counter, that of width `w` at index `w - 1`.
    pub closed spec fn buffers(&self) -> Seq<Vec<u8>> {
        self.buffer@
    }

    /// The tables of the counter, that of width `w` at index `w`.
    pub closed spec fn tables(&self) -> Seq<HashMapCounterWidth> {
        self.count.tables()
    }

    /// Every buffer holds the last bytes of the stream, as many as it is
    /// wide, and the tables are the count tables of the stream at all times.
    pub proof fn lemma_counting(&self)
        requires
            self.inv(),
        ensures
            self.buffers().len() == self.digits(),
            forall|i: int|
                0 <= i < self.digits() ==> (#[trigger] self.buffers()[i])@ == last_bytes(
                    self.consumed(),
                    i + 1,
                ),
            well_formed(self.tables()),
            self.tables().len() == self.digits() + 1,
            holds_windows::<HashMapCounterWidth, T>(self.tables(), self.consumed()),
    {
    }

    /// Whether there is a table for every buffer, and the bytes were counted
    /// as they were fed.
    spec fn fits(&self) -> bool {
        &&& well_formed(self.count.tables())
        &&& self.count.tables().len() == self.buffer@.len() + 1
        &&& self.fed == self.bytes@.len()
    }
}

impl<T: NumericType> Process for Original<T> {
    type Numeric = T;

    closed spec fn inv(&self) -> bool {
        &&& self.fits()
        &&& forall|i: int|
            0 <= i < self.buffer@.len() ==> (#[trigger] self.buffer@[i])@ == last_bytes(
                self.bytes@,
                i + 1,
            )
        &&& holds_windows::<HashMapCounterWidth, T>(self.count.tables(), self.bytes@)
    }

    closed spec fn consumed(&self) -> Seq<u8> {
        self.bytes@
    }

    closed spec fn digits(&self) -> nat {
        self.buffer@.len()
    }

    closed spec fn finalized(&self) -> bool {
        self.finalized
    }

    open spec fn max_digits() -> nat {
        MAX_DIGITS as nat
    }

    fn new(digit: usize) -> (made: Result<Self, EngineError>) {
        if digit > MAX_DIGITS {
            return Err(EngineError::InvalidWidth);
        }
        let count = HashMapCounter::new(digit);
        let mut buffer: Vec<Vec<u8>> = Vec::with_capacity(digit);
        let mut i: usize = 0;
        while i < digit
            invariant
                i <= digit <= MAX_DIGITS,
                buffer@.len() == i,
                forall|k: int|
                    0 <= k < i ==> (#[trigger] buffer@[k])@ == last_bytes(Seq::<u8>::empty(), k + 1),
            decreases digit - i,
        {
            let b = vec![FILLER; i + 1];
            proof {
                assert(b@ =~= last_bytes(Seq::<u8>::empty(), i + 1));
            }
            buffer.push(b);
            i += 1;
        }
        let _numeric_type = T::default();
        Ok(
            Original {
                count,
                buffer,
                fed: 0,
                finalized: false,
                bytes: Ghost(Seq::empty()),
                _numeric_type,
            },
        )
    }

    fn fed(&self) -> (bytes: u64) {
        self.fed
    }

    fn is_finalized(&self) -> (finalized: bool) {
        self.finalized
    }

    fn on_byte(&mut self, byte: u8) {
        let ghost s = self.bytes@;
        let ghost t = s.push(byte);
        let ghost before = self.count.tables();
        let ghost held = self.buffer@;
        let mut i: usize = 0;
        while i < self.buffer.len()
            invariant
                i <= self.buffer@.len(),
                self.buffer@.len() == held.len() <= MAX_DIGITS,
                self.fits(),
                self.finalized == old(self).finalized,
                self.bytes@ == s,
                self.fed < u64::MAX,
                t == s.push(byte),
                forall|k: int|
                    0 <= k < i ==> (#[trigger] self.buffer@[k])@ == last_bytes(t, k + 1),
                forall|k: int|
                    i <= k < held.len() ==> (#[trigger] self.buffer@[k])@ == last_bytes(s, k + 1),
                forall|w: int, x: nat|
                    1 <= w <= i ==> #[trigger] self.count.tables()[w].count(x) == windows::<T>(
                        t,
                        w,
                    ).count(x),
                forall|w: int, x: nat|
                    i < w <= held.len() ==> #[trigger] self.count.tables()[w].count(x) == windows::<
                        T,
                    >(s, w).count(x),
            decreases self.buffer@.len() - i,
        {
            let ghost width = i + 1;
            let ghost tables = self.count.tables();
            let ghost windows_then = self.buffer@;
            proof {
                lemma_last_bytes_push(s, byte, width);
                lemma_last_bytes_window::<T>(s, width);
                lemma_last_bytes_window::<T>(t, width);
                lemma_windows_push::<T>(s, byte, width);
                lemma_windows_before_len::<T>(s, width, s.len() as int);
            }
            self.buffer[i].remove(0);
            self.buffer[i].push(byte);
            proof {
                assert(self.buffer@[i as int]@ == last_bytes(t, width));
                assert forall|k: int| 0 <= k < self.buffer@.len() && k != i implies (
                #[trigger] self.buffer@[k]) == windows_then[k] by {}
            }
            if !is_not_numeric::<T>(&self.buffer[i]) {
                proof {
                    let text = self.buffer@[i as int]@;
                    assert forall|j: int| 0 <= j < text.len() implies crate::digits::is_hex_digit(
                        #[trigger] text[j],
                    ) by {
                        T::lemma_numeric_is_hex(text[j]);
                    }
                    lemma_window_value_bound(t, t.len() - width, width);
                }
                let v: u64 = digits_value(&self.buffer[i]);
                self.count.width(i + 1).count_number(v, 1);
                proof {
                    let after = self.count.tables();
                    assert forall|k: int| 0 <= k < after.len() implies (
                    #[trigger] after[k]).well_formed() && after[k].width() == k by {
                        if k != width {
                            assert(after[k] == tables[k]);
                        }
                    }
                    assert forall|w: int, x: nat| 1 <= w <= i + 1 implies #[trigger] after[w].count(
                        x,
                    ) == windows::<T>(t, w).count(x) by {
                        if w != width {
                            assert(after[w] == tables[w]);
                        }
                    }
                    assert forall|w: int, x: nat| i + 1 < w <= held.len() implies (
                    #[trigger] after[w].count(x)) == windows::<T>(s, w).count(x) by {
                        assert(after[w] == tables[w]);
                    }
                }
            }
            i += 1;
        }
        self.bytes = Ghost(t);
        self.fed = self.fed + 1;
    }

    fn finalize(self) -> (done: Self) {
        let mut done = self;
        done.finalized = true;
        done
    }

    fn into_count(self) -> (tables: Vec<Vec<(u64, u64)>>) {
        let tables = list_tables(&self.count, self.buffer.len());
        proof {
            let held = self.count.tables();
            assert forall|i: int| 0 <= i < tables@.len() implies writes_out(
                (#[trigger] tables@[i])@,
                windows::<T>(self.bytes@, i + 1),
            ) by {
                lemma_lists_writes_out(
                    tables@[i]@,
                    |x: nat| held[i + 1].count(x),
                    windows::<T>(self.bytes@, i + 1),
                );
            }
        }
        tables
    }
}

} // verus!
