//! The dense count store: for every width an array with a counter for every
//! value of that width.

use crate::counter::{lists, well_formed, CounterForWidth, CounterStrategy};
use crate::model::{lemma_pow16_grows, pow16};
use vstd::prelude::*;

verus! {

/// The largest width that the dense store is made for. The table of width
/// `w` takes eight bytes for each of the `16^w` values; that of width 6
/// takes 128 MiB.
pub const DENSE_MAX_DIGITS: usize = 6;

/// The table of one width, as an array indexed by value.
pub struct VecCounterWidth {
    counts: Vec<u64>,
    width: usize,
}

impl VecCounterWidth {
    /// A table for `width` with every counter at zero.
    pub fn new(width: usize) -> (table: Self)
        requires
            width <= DENSE_MAX_DIGITS,
        ensures
            table.well_formed(),
            table.width() == width,
            forall|x: nat| #[trigger] table.count(x) == 0,
    {
        let mut vec_len: usize = 1;
        let mut w: usize = 0;
        while w < width
            invariant
                w <= width <= DENSE_MAX_DIGITS,
                vec_len == pow16(w as nat),
            decreases width - w,
        {
            proof {
                lemma_pow16_grows((w + 1) as nat, (w + 1) as nat);
            }
            vec_len = vec_len * 16;
            w += 1;
        }
        VecCounterWidth { counts: vec![0u64; vec_len], width }
    }
}

impl CounterForWidth for VecCounterWidth {
    closed spec fn width(&self) -> nat {
        self.width as nat
    }

    closed spec fn count(&self, value: nat) -> nat {
        if value < self.counts@.len() {
            self.counts@[value as int] as nat
        } else {
            0
        }
    }

    closed spec fn well_formed(&self) -> bool {
        &&& self.width <= DENSE_MAX_DIGITS
        &&& self.counts@.len() == pow16(self.width as nat)
    }

    proof fn lemma_counted_in_range(&self, x: nat) {
    }

    fn count_number(&mut self, v: u64, delta: u64) {
        proof {
            lemma_pow16_grows(self.width as nat, self.width as nat);
        }
        let slot = &mut self.counts[v as usize];
        *slot = *slot + delta;
    }

    fn entries(&self) -> (list: Vec<(u64, u64)>) {
        proof {
            lemma_pow16_grows(self.width as nat, self.width as nat);
        }
        let mut list: Vec<(u64, u64)> = Vec::new();
        let mut value: usize = 0;
        while value < self.counts.len()
            invariant
                value <= self.counts@.len() <= 0x100_0000,
                forall|j: int|
                    0 <= j < list@.len() ==> (#[trigger] list@[j]).0 < value && list@[j].1 >= 1
                        && self.counts@[list@[j].0 as int] == list@[j].1,
                forall|j: int, k: int| 0 <= j < k < list@.len() ==> list@[j].0 < list@[k].0,
                forall|x: int|
                    0 <= x < value && #[trigger] self.counts@[x] >= 1 ==> exists|j: int|
                        0 <= j < list@.len() && #[trigger] list@[j].0 == x,
            decreases self.counts@.len() - value,
        {
            let count: u64 = self.counts[value];
            if count != 0 {
                let ghost before = list@;
                list.push((value as u64, count));
                proof {
                    let at = before.len() as int;
                    assert(list@[at].0 == value);
                    assert forall|x: int|
                        0 <= x < value + 1 && #[trigger] self.counts@[x] >= 1 implies exists|
                        j: int,
                    | 0 <= j < list@.len() && #[trigger] list@[j].0 == x by {
                        if x < value {
                            let j = choose|j: int| 0 <= j < before.len() && #[trigger] before[j].0 == x;
                            assert(list@[j].0 == x);
                        }
                    }
                }
            }
            value += 1;
        }
        proof {
            let count = |x: nat| self.count(x);
            assert forall|x: nat| #[trigger] count(x) >= 1 implies exists|j: int|
                0 <= j < list@.len() && #[trigger] list@[j].0 == x by {
                assert(self.counts@[x as int] >= 1);
            }
            assert(lists(list@, count));
        }
        list
    }
}

/// The dense store: an array for every width. It is made for widths up to
/// [`DENSE_MAX_DIGITS`] only.
pub struct VecCounter {
    map: Vec<VecCounterWidth>,
}

impl CounterStrategy for VecCounter {
    type ForWidth = VecCounterWidth;

    closed spec fn tables(&self) -> Seq<VecCounterWidth> {
        self.map@
    }

    open spec fn max_digits() -> nat {
        DENSE_MAX_DIGITS as nat
    }

    fn limit() -> (digits: usize) {
        DENSE_MAX_DIGITS
    }

    fn new(digits: usize) -> (store: Self) {
        let mut map: Vec<VecCounterWidth> = Vec::new();
        let mut number_width: usize = 0;
        while number_width < digits + 1
            invariant
                digits <= DENSE_MAX_DIGITS,
                number_width <= digits + 1,
                map@.len() == number_width,
                forall|w: int|
                    0 <= w < number_width ==> (#[trigger] map@[w]).well_formed() && map@[w].width()
                        == w,
                forall|w: int, x: nat| 0 <= w < number_width ==> #[trigger] map@[w].count(x) == 0,
            decreases digits + 1 - number_width,
        {
            map.push(VecCounterWidth::new(number_width));
            number_width += 1;
        }
        VecCounter { map }
    }

    fn width_and_prev_width(&mut self, width: usize) -> (pair: (
        &mut VecCounterWidth,
        &mut VecCounterWidth,
    )) {
        let (prev, current) = self.map.as_mut_slice().split_at_mut(width);
        let current = current.first_mut().unwrap();
        let prev = prev.last_mut().unwrap();
        (current, prev)
    }

    fn width(&mut self, width: usize) -> (table: &mut VecCounterWidth) {
        &mut self.map[width]
    }

    fn table(&self, width: usize) -> (table: &VecCounterWidth) {
        &self.map[width]
    }
}

} // verus!
