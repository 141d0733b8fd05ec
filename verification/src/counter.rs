//! The count store and the counting strategy, as the counter sees them.
//!
//! A store holds one table for every width. A table says of every value how
//! often it was counted. The strategy says whether every width is counted
//! while the stream is read, or the longest window only, the shorter ones
//! being derived from it when the stream has ended.

use crate::model::{pow16, MAX_DIGITS};
use crate::register::lemma_drop_nibble;
use crate::tally::{
    lemma_prefix_total_le, lemma_prefix_total_none, lemma_prefix_total_same, prefix_total,
};
use vstd::prelude::*;

verus! {

/// When the narrower windows are counted.
pub trait CountStrat: Default {
    /// Whether only the longest window at each position is counted while the
    /// stream is read.
    spec fn late() -> bool;

    /// Whether the strategy counts late.
    fn count_late() -> (late: bool)
        ensures
            late == Self::late(),
    ;
}

/// Every width is counted at once.
pub struct EarlyCount;

impl Default for EarlyCount {
    fn default() -> (r: Self) {
        EarlyCount
    }
}

impl CountStrat for EarlyCount {
    open spec fn late() -> bool {
        false
    }

    fn count_late() -> (late: bool) {
        false
    }
}

/// The longest window is counted at once, its prefixes when the stream has
/// ended.
pub struct LateCount;

impl Default for LateCount {
    fn default() -> (r: Self) {
        LateCount
    }
}

impl CountStrat for LateCount {
    open spec fn late() -> bool {
        true
    }

    fn count_late() -> (late: bool) {
        true
    }
}

/// The table of one width.
pub trait CounterForWidth: Sized {
    /// The width whose values the table counts.
    spec fn width(&self) -> nat;

    /// How often `value` was counted.
    spec fn count(&self, value: nat) -> nat;

    /// Whether the table is in order.
    spec fn well_formed(&self) -> bool;

    /// Only values of the table's width are counted.
    proof fn lemma_counted_in_range(&self, x: nat)
        requires
            self.well_formed(),
            self.count(x) >= 1,
        ensures
            x < pow16(self.width()),
    ;

    /// Counts `v` another `delta` times.
    fn count_number(&mut self, v: u64, delta: u64)
        requires
            old(self).well_formed(),
            v < pow16(old(self).width()),
            1 <= delta,
            old(self).count(v as nat) + delta <= u64::MAX,
        ensures
            final(self).well_formed(),
            final(self).width() == old(self).width(),
            forall|x: nat|
                #[trigger] final(self).count(x) == old(self).count(x) + (if x == v {
                    delta as nat
                } else {
                    0
                }),
    ;

    /// The values that were counted, each once and with its count, in no
    /// stated order.
    fn entries(&self) -> (list: Vec<(u64, u64)>)
        requires
            self.well_formed(),
        ensures
            lists(list@, |x: nat| self.count(x)),
    ;
}

/// Whether `list` holds the values that were counted, each once and with
/// its count, where `count` says how often each value was counted.
pub open spec fn lists(list: Seq<(u64, u64)>, count: spec_fn(nat) -> nat) -> bool {
    &&& forall|j: int|
        0 <= j < list.len() ==> (#[trigger] list[j]).1 >= 1 && count(list[j].0 as nat)
            == list[j].1
    &&& forall|j: int, k: int| 0 <= j < k < list.len() ==> list[j].0 != list[k].0
    &&& forall|x: nat| #[trigger]
        count(x) >= 1 ==> exists|j: int| 0 <= j < list.len() && #[trigger] list[j].0 == x
}

/// The tables of all widths up to a limit.
pub trait CounterStrategy: Sized {
    type ForWidth: CounterForWidth;

    /// The tables, that of width `w` at index `w`. The counters leave the
    /// table at index 0 empty.
    spec fn tables(&self) -> Seq<Self::ForWidth>;

    /// The largest width that a store of this kind can be made for.
    spec fn max_digits() -> nat;

    /// The largest width that a store of this kind can be made for.
    fn limit() -> (digits: usize)
        ensures
            digits == Self::max_digits(),
            digits <= MAX_DIGITS,
    ;

    /// A store with an empty table for every width up to `digits`.
    fn new(digits: usize) -> (store: Self)
        requires
            digits <= Self::max_digits(),
        ensures
            well_formed(store.tables()),
            store.tables().len() == digits + 1,
            forall|w: int, x: nat|
                0 <= w <= digits ==> #[trigger] store.tables()[w].count(x) == 0,
    ;

    /// The table of `width` and the table of the width below it.
    fn width_and_prev_width(&mut self, width: usize) -> (pair: (
        &mut Self::ForWidth,
        &mut Self::ForWidth,
    ))
        requires
            1 <= width < old(self).tables().len(),
        ensures
            *pair.0 == old(self).tables()[width as int],
            *pair.1 == old(self).tables()[width - 1],
            final(self).tables() == old(self).tables().update(width as int, *final(pair.0)).update(
                width - 1,
                *final(pair.1),
            ),
    ;

    /// The table of `width`.
    fn width(&mut self, width: usize) -> (table: &mut Self::ForWidth)
        requires
            width < old(self).tables().len(),
        ensures
            *table == old(self).tables()[width as int],
            final(self).tables() == old(self).tables().update(width as int, *final(table)),
    ;

    /// The table of `width`, to read.
    fn table(&self, width: usize) -> (table: &Self::ForWidth)
        requires
            width < self.tables().len(),
        ensures
            *table == self.tables()[width as int],
    ;
}

/// Whether every one of the `tables` of a store is in order and stands at
/// the index of its width.
pub open spec fn well_formed<W: CounterForWidth>(tables: Seq<W>) -> bool {
    &&& 1 <= tables.len() <= MAX_DIGITS + 1
    &&& forall|w: int|
        0 <= w < tables.len() ==> (#[trigger] tables[w]).well_formed() && tables[w].width() == w
}

/// How often the first `j` pairs of `list` count the value `k`.
pub open spec fn listed_count(list: Seq<(u64, u64)>, j: int, k: nat) -> nat
    decreases j,
{
    if j <= 0 {
        0
    } else {
        listed_count(list, j - 1, k) + (if list[j - 1].0 == k {
            list[j - 1].1 as nat
        } else {
            0
        })
    }
}

/// In a list of what was counted, the first `j` pairs count a value that is
/// among them as often as it was counted, and no other value.
proof fn lemma_listed_count_exact(list: Seq<(u64, u64)>, count: spec_fn(nat) -> nat, j: int)
    requires
        lists(list, count),
        0 <= j <= list.len(),
    ensures
        forall|k: nat|
            (forall|a: int| 0 <= a < j ==> (#[trigger] list[a]).0 != k) ==> #[trigger] listed_count(
                list,
                j,
                k,
            ) == 0,
        forall|a: int|
            0 <= a < j ==> listed_count(list, j, (#[trigger] list[a]).0 as nat) == list[a].1,
    decreases j,
{
    if j > 0 {
        lemma_listed_count_exact(list, count, j - 1);
        assert forall|k: nat|
            (forall|a: int| 0 <= a < j ==> (#[trigger] list[a]).0 != k) implies #[trigger] listed_count(
            list,
            j,
            k,
        ) == 0 by {
            assert(forall|a: int| 0 <= a < j - 1 ==> (#[trigger] list[a]).0 != k);
            assert(listed_count(list, j - 1, k) == 0);
            assert(list[j - 1].0 != k);
        }
        assert forall|a: int| 0 <= a < j implies listed_count(
            list,
            j,
            (#[trigger] list[a]).0 as nat,
        ) == list[a].1 by {
            let k = list[a].0 as nat;
            if a == j - 1 {
                assert forall|c: int| 0 <= c < j - 1 implies (#[trigger] list[c]).0 != k by {
                    assert(list[c].0 != list[a].0);
                }
                assert(listed_count(list, j - 1, k) == 0);
            } else {
                assert(listed_count(list, j - 1, k) == list[a].1);
                assert(list[a].0 != list[j - 1].0);
            }
        }
    }
}

/// In a list of what was counted, the first `j` pairs count no value more
/// often than it was counted, and all pairs count every value as often.
pub proof fn lemma_listed_count(list: Seq<(u64, u64)>, count: spec_fn(nat) -> nat, j: int)
    requires
        lists(list, count),
        0 <= j <= list.len(),
    ensures
        forall|k: nat| #[trigger] listed_count(list, j, k) <= count(k),
        j == list.len() ==> forall|k: nat| #[trigger] listed_count(list, j, k) == count(k),
{
    lemma_listed_count_exact(list, count, j);
    assert forall|k: nat| #[trigger] listed_count(list, j, k) <= count(k) && (j == list.len()
        ==> listed_count(list, j, k) == count(k)) by {
        if exists|a: int| 0 <= a < j && (#[trigger] list[a]).0 == k {
            let a = choose|a: int| 0 <= a < j && (#[trigger] list[a]).0 == k;
            assert(listed_count(list, j, list[a].0 as nat) == list[a].1);
        } else {
            assert(listed_count(list, j, k) == 0);
            if j == list.len() && count(k) >= 1 {
                let a = choose|a: int| 0 <= a < list.len() && #[trigger] list[a].0 == k;
                assert(list[a].0 == k);
            }
        }
    }
}

/// The next pair of a list adds its count to the total of its value's
/// prefix and nothing to the total of another.
proof fn lemma_listed_count_step(list: Seq<(u64, u64)>, j: int, p: nat)
    requires
        0 <= j < list.len(),
    ensures
        prefix_total(|k: nat| listed_count(list, j + 1, k), p) == prefix_total(
            |k: nat| listed_count(list, j, k),
            p,
        ) + (if list[j].0 / 16 == p {
            list[j].1 as nat
        } else {
            0
        }),
{
    reveal(prefix_total);
}

/// Counts, for every value in `current`, its prefix in `prev` as often as
/// `current` has counted the value.
pub fn fold_prefixes<W: CounterForWidth>(current: &W, prev: &mut W)
    requires
        current.well_formed(),
        old(prev).well_formed(),
        current.width() == old(prev).width() + 1,
        forall|p: nat|
            #[trigger] old(prev).count(p) + prefix_total(|k: nat| current.count(k), p) <= u64::MAX,
    ensures
        final(prev).well_formed(),
        final(prev).width() == old(prev).width(),
        forall|p: nat|
            #[trigger] final(prev).count(p) == old(prev).count(p) + prefix_total(
                |k: nat| current.count(k),
                p,
            ),
{
    let list = current.entries();
    let ghost start = *prev;
    let ghost count = |k: nat| current.count(k);
    let mut j: usize = 0;
    proof {
        assert forall|p: nat|
            #[trigger] prev.count(p) == start.count(p) + prefix_total(
                |k: nat| listed_count(list@, 0, k),
                p,
            ) by {
            lemma_prefix_total_none(|k: nat| listed_count(list@, 0, k), p);
        }
    }
    while j < list.len()
        invariant
            j <= list@.len(),
            lists(list@, count),
            count == |k: nat| current.count(k),
            current.well_formed(),
            prev.well_formed(),
            prev.width() == start.width(),
            current.width() == start.width() + 1,
            forall|p: nat|
                #[trigger] start.count(p) + prefix_total(|k: nat| current.count(k), p) <= u64::MAX,
            forall|p: nat|
                #[trigger] prev.count(p) == start.count(p) + prefix_total(
                    |k: nat| listed_count(list@, j as int, k),
                    p,
                ),
        decreases list@.len() - j,
    {
        let (number, times) = list[j];
        let prefix_number: u64 = number >> 4;
        proof {
            lemma_drop_nibble(number);
            assert(count(number as nat) == times);
            current.lemma_counted_in_range(number as nat);
            lemma_listed_count(list@, count, j + 1);
            let p = prefix_number as nat;
            lemma_prefix_total_le(|k: nat| listed_count(list@, j + 1, k), count, p);
            lemma_listed_count_step(list@, j as int, p);
            assert(prev.count(p) == start.count(p) + prefix_total(
                |k: nat| listed_count(list@, j as int, k),
                p,
            ));
            assert(start.count(p) + prefix_total(count, p) <= u64::MAX);
        }
        let ghost earlier = *prev;
        prev.count_number(prefix_number, times);
        proof {
            assert forall|p: nat|
                #[trigger] prev.count(p) == start.count(p) + prefix_total(
                    |k: nat| listed_count(list@, j + 1, k),
                    p,
                ) by {
                lemma_listed_count_step(list@, j as int, p);
                assert(earlier.count(p) == start.count(p) + prefix_total(
                    |k: nat| listed_count(list@, j as int, k),
                    p,
                ));
            }
        }
        j += 1;
    }
    proof {
        lemma_listed_count(list@, count, list@.len() as int);
        assert forall|p: nat|
            #[trigger] prev.count(p) == start.count(p) + prefix_total(
                |k: nat| current.count(k),
                p,
            ) by {
            lemma_prefix_total_same(|k: nat| listed_count(list@, list@.len() as int, k), count, p);
        }
    }
}

} // verus!
