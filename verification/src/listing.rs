//! A count table written out: its values in ascending order, each with its
//! count.

use crate::counter::{lists, well_formed, CounterForWidth, CounterStrategy};
use vstd::multiset::Multiset;
use vstd::prelude::*;

verus! {

/// The order of pairs of integers: by the first, then by the second.
pub open spec fn pair_le(a: (u64, u64), b: (u64, u64)) -> bool {
    a.0 < b.0 || (a.0 == b.0 && a.1 <= b.1)
}

/// `slice::sort_unstable` on pairs of integers.
///
/// The vector holds afterwards what it held before, each pair as often, in
/// ascending order; pairs are ordered by the first integer, then by the
/// second.
#[verifier::external_body]
fn sort_pairs(list: &mut Vec<(u64, u64)>)
    ensures
        final(list)@.to_multiset() == old(list)@.to_multiset(),
        forall|j: int, k: int|
            0 <= j < k < final(list)@.len() ==> pair_le(
                #[trigger] final(list)@[j],
                #[trigger] final(list)@[k],
            ),
{
    list.sort_unstable();
}

/// Whether `list` is the count table `table` written out: every value that
/// occurs in it, once and with its count, in ascending order of the values.
pub open spec fn writes_out(list: Seq<(u64, u64)>, table: Multiset<nat>) -> bool {
    &&& forall|j: int|
        0 <= j < list.len() ==> (#[trigger] list[j]).1 >= 1 && table.count(list[j].0 as nat)
            == list[j].1
    &&& forall|j: int, k: int|
        0 <= j < k < list.len() ==> (#[trigger] list[j]).0 < (#[trigger] list[k]).0
    &&& forall|x: nat| #[trigger]
        table.count(x) >= 1 ==> exists|j: int| 0 <= j < list.len() && #[trigger] list[j].0 == x
}

/// Whether `list` holds the values that were counted, each once and with
/// its count, in ascending order of the values, where `count` says how often
/// each value was counted.
pub open spec fn lists_in_order(list: Seq<(u64, u64)>, count: spec_fn(nat) -> nat) -> bool {
    &&& lists(list, count)
    &&& forall|j: int, k: int|
        0 <= j < k < list.len() ==> (#[trigger] list[j]).0 < (#[trigger] list[k]).0
}

/// Puts pairs of value and count, no value twice, in ascending order of the
/// values.
pub fn sort_entries(list: Vec<(u64, u64)>) -> (sorted: Vec<(u64, u64)>)
    requires
        forall|j: int, k: int| 0 <= j < k < list@.len() ==> list@[j].0 != list@[k].0,
    ensures
        sorted@.len() == list@.len(),
        forall|pair: (u64, u64)| sorted@.contains(pair) == list@.contains(pair),
        forall|j: int, k: int|
            0 <= j < k < sorted@.len() ==> (#[trigger] sorted@[j]).0 < (#[trigger] sorted@[k]).0,
{
    let mut sorted = list;
    sort_pairs(&mut sorted);
    proof {
        let before = list@;
        let after = sorted@;
        before.to_multiset_ensures();
        after.to_multiset_ensures();
        assert(before.no_duplicates());
        before.lemma_multiset_has_no_duplicates();
        after.lemma_multiset_has_no_duplicates_conv();
        assert forall|pair: (u64, u64)| after.contains(pair) == before.contains(pair) by {
            assert(after.contains(pair) <==> after.to_multiset().count(pair) > 0);
            assert(before.contains(pair) <==> before.to_multiset().count(pair) > 0);
        }
        assert forall|j: int, k: int| 0 <= j < k < after.len() implies (#[trigger] after[j]).0 < (
        #[trigger] after[k]).0 by {
            assert(pair_le(after[j], after[k]));
            if after[j].0 == after[k].0 {
                assert(after.contains(after[j]));
                assert(after.contains(after[k]));
                assert(before.to_multiset().count(after[j]) > 0);
                assert(before.to_multiset().count(after[k]) > 0);
                let a = choose|a: int| 0 <= a < before.len() && before[a] == after[j];
                let b = choose|b: int| 0 <= b < before.len() && before[b] == after[k];
                assert(a == b);
            }
        }
    }
    sorted
}

/// A list of what was counted is still one when it is put in order.
proof fn lemma_sorted_lists(
    list: Seq<(u64, u64)>,
    sorted: Seq<(u64, u64)>,
    count: spec_fn(nat) -> nat,
)
    requires
        lists(list, count),
        forall|pair: (u64, u64)| sorted.contains(pair) == list.contains(pair),
        forall|j: int, k: int|
            0 <= j < k < sorted.len() ==> (#[trigger] sorted[j]).0 < (#[trigger] sorted[k]).0,
    ensures
        lists_in_order(sorted, count),
{
    assert forall|j: int| 0 <= j < sorted.len() implies (#[trigger] sorted[j]).1 >= 1 && count(
        sorted[j].0 as nat,
    ) == sorted[j].1 by {
        assert(sorted.contains(sorted[j]));
        assert(list.contains(sorted[j]));
        let a = choose|a: int| 0 <= a < list.len() && list[a] == sorted[j];
        assert(list[a].1 >= 1);
        assert(count(list[a].0 as nat) == list[a].1);
    }
    assert forall|x: nat| #[trigger] count(x) >= 1 implies exists|j: int|
        0 <= j < sorted.len() && #[trigger] sorted[j].0 == x by {
        let a = choose|a: int| 0 <= a < list.len() && #[trigger] list[a].0 == x;
        assert(list.contains(list[a]));
        assert(sorted.contains(list[a]));
        let j = choose|j: int| 0 <= j < sorted.len() && sorted[j] == list[a];
        assert(sorted[j].0 == x);
    }
}

/// A list in order of what was counted writes out the table that says the
/// same of every value.
pub proof fn lemma_lists_writes_out(
    list: Seq<(u64, u64)>,
    count: spec_fn(nat) -> nat,
    table: Multiset<nat>,
)
    requires
        lists_in_order(list, count),
        forall|x: nat| #[trigger] count(x) == table.count(x),
    ensures
        writes_out(list, table),
{
    assert forall|x: nat| #[trigger] table.count(x) >= 1 implies exists|j: int|
        0 <= j < list.len() && #[trigger] list[j].0 == x by {
        assert(count(x) >= 1);
    }
}

/// The tables of `store` for the widths from 1 to `digits` in turn, each
/// written out in ascending order of its values.
pub fn list_tables<C: CounterStrategy>(store: &C, digits: usize) -> (tables: Vec<Vec<(u64, u64)>>)
    requires
        well_formed(store.tables()),
        store.tables().len() == digits + 1,
    ensures
        tables@.len() == digits,
        forall|i: int|
            0 <= i < digits ==> lists_in_order(
                (#[trigger] tables@[i])@,
                |x: nat| store.tables()[i + 1].count(x),
            ),
{
    let mut tables: Vec<Vec<(u64, u64)>> = Vec::new();
    let mut width: usize = 1;
    while width <= digits
        invariant
            1 <= width <= digits + 1,
            well_formed(store.tables()),
            store.tables().len() == digits + 1,
            tables@.len() == width - 1,
            forall|i: int|
                0 <= i < width - 1 ==> lists_in_order(
                    (#[trigger] tables@[i])@,
                    |x: nat| store.tables()[i + 1].count(x),
                ),
        decreases digits + 1 - width,
    {
        let table = store.table(width);
        let list = table.entries();
        let sorted = sort_entries(list);
        proof {
            lemma_sorted_lists(list@, sorted@, |x: nat| table.count(x));
        }
        tables.push(sorted);
        width += 1;
    }
    tables
}

} // verus!
