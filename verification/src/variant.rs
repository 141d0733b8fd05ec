//! The counter: a run register over a count store, with a strategy that says
//! when the narrower windows are counted.

use crate::counter::{
    fold_prefixes, well_formed, CountStrat, CounterForWidth, CounterStrategy, EarlyCount,
};
use crate::digits::{classify, hex_value, HexDigit, NumericType, NOT_DIGIT};
use crate::listing::{lemma_lists_writes_out, list_tables, writes_out};
use crate::model::{
    lemma_window_value_bound, lemma_window_value_prefix, lemma_windows_before_len, window_valid,
    window_value, windows, windows_before, MAX_DIGITS,
};
use crate::process::{EngineError, Process};
use crate::register::{lemma_drop_nibble, low_nibbles, mask, BytesState};
use crate::sparse::HashMapCounter;
use crate::tally::{
    lemma_prefix_total_same, lemma_prefixes_complete, lemma_tallied_at_tail,
    lemma_tallied_before_gap, lemma_tallied_before_len, lemma_tallied_before_push,
    lemma_tallied_eager, lemma_tallied_widest, prefix_total, tallied_before,
};
use vstd::prelude::*;

verus! {

/// Whether the tables of the widths from 1 on hold what a counter tallies,
/// while it reads `s`, of the windows that start before position `n`.
pub open spec fn holds_tally<W: CounterForWidth, N: NumericType>(
    tables: Seq<W>,
    s: Seq<u8>,
    n: int,
    late: bool,
) -> bool {
    forall|w: int, x: nat|
        1 <= w < tables.len() ==> #[trigger] tables[w].count(x) == tallied_before::<N>(
            s,
            w,
            n,
            tables.len() - 1,
            late,
        ).count(x)
}

/// Whether the tables of the widths from 1 on are the count tables of `s`.
pub open spec fn holds_windows<W: CounterForWidth, N: NumericType>(
    tables: Seq<W>,
    s: Seq<u8>,
) -> bool {
    forall|w: int, x: nat|
        1 <= w < tables.len() ==> #[trigger] tables[w].count(x) == windows::<N>(s, w).count(x)
}

/// A counter that counts with the strategy `T` into a store `C` the digits
/// of the alphabet `N`.
pub struct Variant<T: CountStrat, C: CounterStrategy, N: NumericType> {
    count_maps: C,
    state: BytesState,
    fed: u64,
    finalized: bool,
    bytes: Ghost<Seq<u8>>,
    _strat: T,
    _numeric_type: N,
}

/// The first counter: it counts every width at once into hash maps and
/// reads hexadecimal digits.
pub type Variant1 = Variant<EarlyCount, HashMapCounter, HexDigit>;

impl<T: CountStrat, C: CounterStrategy, N: NumericType> Variant<T, C, N> {
    /// The run register of the counter.
    pub closed spec fn register(&self) -> BytesState {
        self.state
    }

    /// The tables of the counter's store, that of width `w` at index `w`.
    pub closed spec fn tables(&self) -> Seq<C::ForWidth> {
        self.count_maps.tables()
    }

    /// While a counter reads, its register follows the stream, and its
    /// tables hold what is tallied of the windows that start before the
    /// digits in the register: every window if it counts every width at
    /// once, else the longest at each position.
    pub proof fn lemma_reading(&self)
        requires
            self.inv(),
            !self.finalized(),
        ensures
            self.register().digits == self.digits(),
            self.register().tracks::<N>(self.consumed()),
            well_formed(self.tables()),
            self.tables().len() == self.digits() + 1,
            holds_tally::<C::ForWidth, N>(
                self.tables(),
                self.consumed(),
                self.consumed().len() - self.register().current_digits,
                T::late(),
            ),
    {
    }

    /// The tables of a counter that was finalized are the count tables of
    /// the stream.
    pub proof fn lemma_finalized(&self)
        requires
            self.inv(),
            self.finalized(),
        ensures
            well_formed(self.tables()),
            self.tables().len() == self.digits() + 1,
            holds_windows::<C::ForWidth, N>(self.tables(), self.consumed()),
    {
    }

    /// Whether the store has a table for every width of the register, and the
    /// bytes were counted as they were fed.
    spec fn fits(&self) -> bool {
        &&& well_formed(self.count_maps.tables())
        &&& self.count_maps.tables().len() == self.state.digits + 1
        &&& self.state.well_formed()
        &&& self.fed == self.bytes@.len()
    }

    /// Whether `self` is `other` but for what its tables hold.
    spec fn recounts(&self, other: &Self) -> bool {
        &&& self.state == other.state
        &&& self.fed == other.fed
        &&& self.finalized == other.finalized
        &&& self.bytes@ == other.bytes@
    }

    /// Counts the windows that start where the last `width` bytes start:
    /// all of them, or the longest only.
    fn count_number(&mut self, v: u64, width: usize)
        requires
            old(self).fits(),
            width <= old(self).state.digits,
            width <= old(self).bytes@.len(),
            window_valid::<N>(old(self).bytes@, old(self).bytes@.len() - width, width as int),
            low_nibbles(v, width as int) == window_value(
                old(self).bytes@,
                old(self).bytes@.len() - width,
                width as int,
            ),
            holds_tally::<C::ForWidth, N>(
                old(self).count_maps.tables(),
                old(self).bytes@,
                old(self).bytes@.len() - width,
                T::late(),
            ),
        ensures
            final(self).fits(),
            final(self).recounts(old(self)),
            holds_tally::<C::ForWidth, N>(
                final(self).count_maps.tables(),
                final(self).bytes@,
                final(self).bytes@.len() - width + 1,
                T::late(),
            ),
    {
        let ghost start = *self;
        let ghost s = self.bytes@;
        let ghost i = s.len() - width;
        let ghost digits = self.state.digits as int;
        let ghost before = self.count_maps.tables();
        let late: bool = T::count_late();
        let mut v: u64 = v & mask(width);
        let mut w: usize = width;
        while w != 0 && (w == width || !late)
            invariant
                w <= width <= digits <= MAX_DIGITS,
                late ==> w + 1 >= width,
                late == T::late(),
                self.fits(),
                self.recounts(&start),
                s == self.bytes@,
                digits == self.state.digits,
                i == s.len() - width,
                0 <= i,
                v == window_value(s, i, w as int),
                before.len() == digits + 1,
                holds_tally::<C::ForWidth, N>(before, s, i, late),
                forall|k: int, x: nat|
                    1 <= k <= digits ==> #[trigger] self.count_maps.tables()[k].count(x)
                        == before[k].count(x) + (if w < k <= width && x == window_value(s, i, k) {
                        1nat
                    } else {
                        0nat
                    }),
            decreases w,
        {
            let ghost tables = self.count_maps.tables();
            proof {
                lemma_window_value_bound(s, i, w as int);
                lemma_window_value_prefix(s, i, w as int);
                lemma_tallied_before_len::<N>(s, w as int, i, digits, late);
                lemma_drop_nibble(v);
                assert(tables[w as int].count(v as nat) == before[w as int].count(v as nat));
            }
            self.count_maps.width(w).count_number(v, 1);
            proof {
                let after = self.count_maps.tables();
                assert(after.len() == tables.len());
                assert forall|k: int| 0 <= k < after.len() implies (#[trigger] after[k]).well_formed()
                    && after[k].width() == k by {
                    if k != w {
                        assert(after[k] == tables[k]);
                    }
                }
                assert forall|k: int, x: nat| 1 <= k <= digits implies #[trigger] after[k].count(x)
                    == before[k].count(x) + (if w - 1 < k <= width && x == window_value(s, i, k) {
                    1nat
                } else {
                    0nat
                }) by {
                    if k != w {
                        assert(after[k] == tables[k]);
                    }
                }
            }
            v = v >> 4;
            w -= 1;
        }
        proof {
            let after = self.count_maps.tables();
            assert forall|k: int, x: nat| 1 <= k < after.len() implies #[trigger] after[k].count(x)
                == tallied_before::<N>(s, k, i + 1, after.len() - 1, late).count(x) by {
                lemma_tallied_at_tail::<N>(s, width as int, k, digits, late);
                assert(before[k].count(x) == tallied_before::<N>(s, k, i, digits, late).count(x));
            }
        }
    }

    /// Counts the windows that start in the digits that the register holds,
    /// when the run has ended.
    fn count_number_end(&mut self, v: u64, width: usize)
        requires
            old(self).fits(),
            old(self).state.tracks::<N>(old(self).bytes@),
            v == old(self).state.current_number,
            width == old(self).state.current_digits,
            holds_tally::<C::ForWidth, N>(
                old(self).count_maps.tables(),
                old(self).bytes@,
                old(self).bytes@.len() - width,
                T::late(),
            ),
        ensures
            final(self).fits(),
            final(self).recounts(old(self)),
            holds_tally::<C::ForWidth, N>(
                final(self).count_maps.tables(),
                final(self).bytes@,
                final(self).bytes@.len() as int,
                T::late(),
            ),
    {
        let ghost start = *self;
        let mut width: usize = width;
        while width != 0
            invariant
                self.fits(),
                self.recounts(&start),
                start.state.tracks::<N>(start.bytes@),
                v == start.state.current_number,
                width <= start.state.current_digits,
                holds_tally::<C::ForWidth, N>(
                    self.count_maps.tables(),
                    self.bytes@,
                    self.bytes@.len() - width,
                    T::late(),
                ),
            decreases width,
        {
            proof {
                let s = self.bytes@;
                assert(low_nibbles(v, width as int) == window_value(
                    s,
                    s.len() - width,
                    width as int,
                ));
                assert(window_valid::<N>(s, s.len() - width, width as int));
            }
            self.count_number(v, width);
            width -= 1;
        }
    }

    /// Counts the windows that start where the full register starts, before
    /// the next digit pushes its first digit out.
    fn count_number_mid(&mut self, v: u64, width: usize)
        requires
            old(self).fits(),
            old(self).state.tracks::<N>(old(self).bytes@),
            v == old(self).state.current_number,
            width == old(self).state.current_digits,
            holds_tally::<C::ForWidth, N>(
                old(self).count_maps.tables(),
                old(self).bytes@,
                old(self).bytes@.len() - width,
                T::late(),
            ),
        ensures
            final(self).fits(),
            final(self).recounts(old(self)),
            holds_tally::<C::ForWidth, N>(
                final(self).count_maps.tables(),
                final(self).bytes@,
                final(self).bytes@.len() - width + 1,
                T::late(),
            ),
    {
        proof {
            let s = self.bytes@;
            assert(low_nibbles(v, width as int) == window_value(s, s.len() - width, width as int));
        }
        self.count_number(v, width);
    }

    /// Whether the counter, not yet finalized, has tallied what its register
    /// no longer needs.
    spec fn reading(&self) -> bool {
        &&& self.fits()
        &&& self.state.tracks::<N>(self.bytes@)
        &&& holds_tally::<C::ForWidth, N>(
            self.count_maps.tables(),
            self.bytes@,
            self.bytes@.len() - self.state.current_digits,
            T::late(),
        )
    }

    /// Reads one byte: a digit goes to the register, any other byte ends
    /// the run.
    fn count_digit(&mut self, byte: u8)
        requires
            old(self).reading(),
            old(self).fed < u64::MAX,
        ensures
            final(self).reading(),
            final(self).finalized == old(self).finalized,
            final(self).bytes@ == old(self).bytes@.push(byte),
            final(self).state == (if N::numeric(byte) {
                old(self).state.pushed(hex_value(byte) as u8)
            } else {
                old(self).state.cleared()
            }),
    {
        let ghost s = self.bytes@;
        let ghost t = s.push(byte);
        let ghost digits = self.state.digits as int;
        let ghost late = T::late();
        let v: u8 = classify::<N>(byte);

        if v == NOT_DIGIT {
            if self.state.current_digits != 0 {
                self.count_number_end(self.state.current_number, self.state.current_digits);
            }
            proof {
                self.state.lemma_cleared_tracks::<N>(s, byte);
                let tables = self.count_maps.tables();
                assert forall|w: int, x: nat| 1 <= w < tables.len() implies #[trigger] tables[w].count(
                    x,
                ) == tallied_before::<N>(t, w, t.len() as int, digits, late).count(x) by {
                    lemma_tallied_before_gap::<N>(t, w, t.len() as int, digits, late);
                    lemma_tallied_before_push::<N>(
                        s,
                        byte,
                        w,
                        s.len() as int,
                        digits,
                        late,
                        s.len() as int,
                    );
                }
            }
            self.state.clear();
            self.bytes = Ghost(t);
            self.fed = self.fed + 1;
            return ;
        }
        if self.state.is_full() {
            self.count_number_mid(self.state.current_number, self.state.current_digits);
        }
        proof {
            self.state.lemma_pushed_tracks::<N>(s, byte);
            let held = self.state.pushed(v).current_digits as int;
            let tables = self.count_maps.tables();
            assert forall|w: int, x: nat| 1 <= w < tables.len() implies #[trigger] tables[w].count(
                x,
            ) == tallied_before::<N>(t, w, t.len() - held, digits, late).count(x) by {
                lemma_tallied_before_push::<N>(
                    s,
                    byte,
                    w,
                    t.len() - held,
                    digits,
                    late,
                    t.len() - held - 1,
                );
            }
        }
        self.state.push(v);
        self.bytes = Ghost(t);
        self.fed = self.fed + 1;
    }

    /// Ends the run that the register holds, if any.
    fn count_digit_end(&mut self)
        requires
            old(self).reading(),
        ensures
            final(self).fits(),
            final(self).recounts(old(self)),
            holds_tally::<C::ForWidth, N>(
                final(self).count_maps.tables(),
                final(self).bytes@,
                final(self).bytes@.len() as int,
                T::late(),
            ),
    {
        if self.state.current_digits != 0 {
            self.count_number_end(self.state.current_number, self.state.current_digits);
        }
    }

    /// Adds to every table but the widest the prefixes of the windows in the
    /// table one wider, from the widest down, if the strategy has left them
    /// out.
    fn do_late_counts(&mut self)
        requires
            old(self).fits(),
            holds_tally::<C::ForWidth, N>(
                old(self).count_maps.tables(),
                old(self).bytes@,
                old(self).bytes@.len() as int,
                T::late(),
            ),
        ensures
            final(self).fits(),
            final(self).recounts(old(self)),
            holds_windows::<C::ForWidth, N>(final(self).count_maps.tables(), final(self).bytes@),
    {
        let ghost start = *self;
        let ghost s = self.bytes@;
        let ghost n = s.len() as int;
        let ghost top = self.state.digits as int;
        if T::count_late() {
            let mut digits: usize = self.state.digits;
            proof {
                lemma_tallied_widest::<N>(s, n, top);
            }
            while digits >= 2
                invariant
                    digits <= top <= MAX_DIGITS,
                    top == self.state.digits,
                    n == s.len(),
                    s == self.bytes@,
                    T::late(),
                    self.fits(),
                    self.recounts(&start),
                    forall|w: int, x: nat|
                        1 <= w <= top && digits <= w ==> #[trigger] self.count_maps.tables()[w].count(
                            x,
                        ) == windows::<N>(s, w).count(x),
                    forall|w: int, x: nat|
                        1 <= w < digits ==> #[trigger] self.count_maps.tables()[w].count(x)
                            == tallied_before::<N>(s, w, n, top, true).count(x),
                decreases digits,
            {
                let ghost tables = self.count_maps.tables();
                let ghost wide = tables[digits as int];
                let ghost narrow = tables[digits - 1];
                proof {
                    lemma_prefixes_complete::<N>(s, digits as int, n, top);
                    lemma_windows_before_len::<N>(s, digits - 1, n);
                    assert forall|p: nat|
                        #[trigger] narrow.count(p) + prefix_total(|k: nat| wide.count(k), p)
                            <= u64::MAX by {
                        lemma_prefix_total_same(
                            |k: nat| wide.count(k),
                            |k: nat| windows_before::<N>(s, digits as int, n).count(k),
                            p,
                        );
                        assert(windows_before::<N>(s, digits - 1, n).count(p) <= n);
                    }
                }
                let (current, prev) = self.count_maps.width_and_prev_width(digits);
                fold_prefixes(&*current, prev);
                proof {
                    let after = self.count_maps.tables();
                    assert(after[digits as int] == wide);
                    assert forall|k: int| 0 <= k < after.len() implies (
                    #[trigger] after[k]).well_formed() && after[k].width() == k by {
                        if k != digits && k != digits - 1 {
                            assert(after[k] == tables[k]);
                        }
                    }
                    assert forall|w: int, x: nat| 1 <= w <= top && digits - 1 <= w implies (
                    #[trigger] after[w].count(x)) == windows::<N>(s, w).count(x) by {
                        if w == digits - 1 {
                            lemma_prefix_total_same(
                                |k: nat| wide.count(k),
                                |k: nat| windows_before::<N>(s, digits as int, n).count(k),
                                x,
                            );
                        } else if w != digits {
                            assert(after[w] == tables[w]);
                        }
                    }
                    assert forall|w: int, x: nat| 1 <= w < digits - 1 implies (
                    #[trigger] after[w].count(x)) == tallied_before::<N>(s, w, n, top, true).count(
                        x,
                    ) by {
                        assert(after[w] == tables[w]);
                    }
                }
                digits -= 1;
            }
        } else {
            proof {
                let tables = self.count_maps.tables();
                assert forall|w: int, x: nat| 1 <= w < tables.len() implies #[trigger] tables[w].count(
                    x,
                ) == windows::<N>(s, w).count(x) by {
                    lemma_tallied_eager::<N>(s, w, n, top);
                }
            }
        }
    }
}

impl<T: CountStrat, C: CounterStrategy, N: NumericType> Process for Variant<T, C, N> {
    type Numeric = N;

    closed spec fn inv(&self) -> bool {
        if self.finalized {
            &&& self.fits()
            &&& holds_windows::<C::ForWidth, N>(self.count_maps.tables(), self.bytes@)
        } else {
            self.reading()
        }
    }

    closed spec fn consumed(&self) -> Seq<u8> {
        self.bytes@
    }

    closed spec fn digits(&self) -> nat {
        self.state.digits as nat
    }

    closed spec fn finalized(&self) -> bool {
        self.finalized
    }

    open spec fn max_digits() -> nat {
        C::max_digits()
    }

    fn new(digit: usize) -> (made: Result<Self, EngineError>) {
        let limit: usize = C::limit();
        if digit > MAX_DIGITS {
            return Err(EngineError::InvalidWidth);
        }
        if digit > limit {
            return Err(EngineError::BackendInfeasible);
        }
        let count_maps = C::new(digit);
        let state = BytesState::new(digit);
        proof {
            state.lemma_new_tracks::<N>();
        }
        Ok(
            Variant {
                count_maps,
                state,
                fed: 0,
                finalized: false,
                bytes: Ghost(Seq::empty()),
                _strat: T::default(),
                _numeric_type: N::default(),
            },
        )
    }

    fn fed(&self) -> (bytes: u64) {
        self.fed
    }

    fn is_finalized(&self) -> (finalized: bool) {
        self.finalized
    }

    /// A digit is pushed to the register; any other byte empties it.
    fn on_byte(&mut self, b: u8)
        ensures
            final(self).register() == (if N::numeric(b) {
                old(self).register().pushed(hex_value(b) as u8)
            } else {
                old(self).register().cleared()
            }),
    {
        self.count_digit(b);
    }

    fn finalize(self) -> (done: Self) {
        let mut done = self;
        done.count_digit_end();
        done.do_late_counts();
        done.finalized = true;
        done
    }

    fn into_count(self) -> (tables: Vec<Vec<(u64, u64)>>) {
        let tables = list_tables(&self.count_maps, self.state.digits);
        proof {
            let held = self.count_maps.tables();
            assert forall|i: int| 0 <= i < tables@.len() implies writes_out(
                (#[trigger] tables@[i])@,
                windows::<N>(self.bytes@, i + 1),
            ) by {
                lemma_lists_writes_out(
                    tables@[i]@,
                    |x: nat| held[i + 1].count(x),
                    windows::<N>(self.bytes@, i + 1),
                );
            }
        }
        tables
    }
}

} // verus!
