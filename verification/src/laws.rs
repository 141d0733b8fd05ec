//! What holds of the count tables of every stream, and of every two counters
//! that read the same stream.

use crate::counter::{
    lemma_listed_count, listed_count, lists, CountStrat, CounterStrategy, EarlyCount, LateCount,
};
use crate::dense::VecCounter;
use crate::digits::NumericType;
use crate::listing::writes_out;
use crate::model::{
    lemma_window_shifted, lemma_window_value_bound, pow16, run_length_at, slots_in_run,
    window_slots, window_slots_before, window_valid, window_value, windows, windows_before,
};
use crate::process::{counts_written, Process};
use crate::sparse::HashMapCounter;
use crate::tally::{lemma_prefix_total_holds, lemma_prefixes_complete};
use crate::text::{
    digit_text, keyed_table, keyed_tables, lemma_digit_text_reads_back,
    lemma_digit_text_tells_apart,
};
use crate::variant::Variant;
use vstd::multiset::Multiset;
use vstd::prelude::*;

verus! {

/// Two lists that write out the same table agree up to position `j`.
proof fn lemma_written_agree_to(
    a: Seq<(u64, u64)>,
    b: Seq<(u64, u64)>,
    table: Multiset<nat>,
    j: int,
)
    requires
        writes_out(a, table),
        writes_out(b, table),
        0 <= j <= a.len(),
        j <= b.len(),
    ensures
        forall|k: int| 0 <= k < j ==> a[k] == b[k],
    decreases j,
{
    if j > 0 {
        lemma_written_agree_to(a, b, table, j - 1);
        let at = j - 1;
        assert(table.count(a[at].0 as nat) >= 1);
        assert(table.count(b[at].0 as nat) >= 1);
        let in_b = choose|k: int| 0 <= k < b.len() && #[trigger] b[k].0 == a[at].0 as nat;
        let in_a = choose|k: int| 0 <= k < a.len() && #[trigger] a[k].0 == b[at].0 as nat;
        if in_b < at {
            assert(a[in_b] == b[in_b]);
            assert(a[in_b].0 < a[at].0);
        }
        if in_a < at {
            assert(a[in_a] == b[in_a]);
            assert(b[in_a].0 < b[at].0);
        }
        if in_b > at {
            assert(b[at].0 < b[in_b].0);
        }
        if in_a > at {
            assert(a[at].0 < a[in_a].0);
        }
        assert(a[at].0 == b[at].0);
    }
}

/// A count table is written out in one way only.
pub proof fn lemma_written_once(a: Seq<(u64, u64)>, b: Seq<(u64, u64)>, table: Multiset<nat>)
    requires
        writes_out(a, table),
        writes_out(b, table),
    ensures
        a == b,
{
    if a.len() <= b.len() {
        lemma_written_agree_to(a, b, table, a.len() as int);
        if a.len() < b.len() {
            let extra = b[a.len() as int];
            assert(table.count(extra.0 as nat) >= 1);
            let k = choose|k: int| 0 <= k < a.len() && #[trigger] a[k].0 == extra.0 as nat;
            assert(a[k] == b[k]);
            assert(b[k].0 < extra.0);
        }
    } else {
        lemma_written_agree_to(a, b, table, b.len() as int);
        let extra = a[b.len() as int];
        assert(table.count(extra.0 as nat) >= 1);
        let k = choose|k: int| 0 <= k < b.len() && #[trigger] b[k].0 == extra.0 as nat;
        assert(a[k] == b[k]);
        assert(a[k].0 < extra.0);
    }
    assert(a =~= b);
}

/// The tables of a stream are written out in one way only.
pub proof fn lemma_counts_written_once<N: NumericType>(
    a: Seq<Vec<(u64, u64)>>,
    b: Seq<Vec<(u64, u64)>>,
    s: Seq<u8>,
    digits: nat,
)
    requires
        counts_written::<N>(a, s, digits),
        counts_written::<N>(b, s, digits),
    ensures
        a.len() == b.len(),
        forall|i: int| 0 <= i < a.len() ==> (#[trigger] a[i])@ == b[i]@,
{
    assert forall|i: int| 0 <= i < a.len() implies (#[trigger] a[i])@ == b[i]@ by {
        assert(writes_out(b[i]@, windows::<N>(s, i + 1)));
        lemma_written_once(a[i]@, b[i]@, windows::<N>(s, i + 1));
    }
}

/// Strategy equivalence: a counter that counts every width at once and one
/// that derives the narrower widths at the end, fed the same stream for the
/// same largest width, hand out the same tables, whatever their stores.
pub proof fn lemma_strategies_agree<C: CounterStrategy, D: CounterStrategy, N: NumericType>(
    eager: Variant<EarlyCount, C, N>,
    late: Variant<LateCount, D, N>,
    eager_tables: Seq<Vec<(u64, u64)>>,
    late_tables: Seq<Vec<(u64, u64)>>,
)
    requires
        eager.consumed() == late.consumed(),
        eager.digits() == late.digits(),
        counts_written::<N>(eager_tables, eager.consumed(), eager.digits()),
        counts_written::<N>(late_tables, late.consumed(), late.digits()),
    ensures
        eager_tables.len() == late_tables.len(),
        forall|i: int|
            0 <= i < eager_tables.len() ==> (#[trigger] eager_tables[i])@ == late_tables[i]@,
{
    lemma_counts_written_once::<N>(eager_tables, late_tables, eager.consumed(), eager.digits());
}

/// Backend equivalence: a counter over the sparse store and one over the
/// dense store, fed the same stream for the same largest width, hand out the
/// same tables, whatever their strategies.
pub proof fn lemma_backends_agree<T: CountStrat, U: CountStrat, N: NumericType>(
    sparse: Variant<T, HashMapCounter, N>,
    dense: Variant<U, VecCounter, N>,
    sparse_tables: Seq<Vec<(u64, u64)>>,
    dense_tables: Seq<Vec<(u64, u64)>>,
)
    requires
        sparse.consumed() == dense.consumed(),
        sparse.digits() == dense.digits(),
        counts_written::<N>(sparse_tables, sparse.consumed(), sparse.digits()),
        counts_written::<N>(dense_tables, dense.consumed(), dense.digits()),
    ensures
        sparse_tables.len() == dense_tables.len(),
        forall|i: int|
            0 <= i < sparse_tables.len() ==> (#[trigger] sparse_tables[i])@ == dense_tables[i]@,
{
    lemma_counts_written_once::<N>(sparse_tables, dense_tables, sparse.consumed(), sparse.digits());
}

/// The positions before `n` at which a window of width `w` with the value
/// `v` starts.
pub open spec fn starts_before<N: NumericType>(s: Seq<u8>, w: int, v: nat, n: int) -> Set<int> {
    Set::new(|i: int| i < n && window_valid::<N>(s, i, w) && window_value(s, i, w) == v)
}

/// What the windows before position `n` say of a value is the number of
/// positions before `n` at which a window with that value starts.
proof fn lemma_count_is_starts_before<N: NumericType>(s: Seq<u8>, w: int, v: nat, n: int)
    ensures
        starts_before::<N>(s, w, v, n).finite(),
        windows_before::<N>(s, w, n).count(v) == starts_before::<N>(s, w, v, n).len(),
    decreases n,
{
    if n <= 0 {
        assert(starts_before::<N>(s, w, v, n) =~= Set::<int>::empty());
    } else {
        lemma_count_is_starts_before::<N>(s, w, v, n - 1);
        let earlier = starts_before::<N>(s, w, v, n - 1);
        if window_valid::<N>(s, n - 1, w) && window_value(s, n - 1, w) == v {
            assert(starts_before::<N>(s, w, v, n) =~= earlier.insert(n - 1));
        } else {
            assert(starts_before::<N>(s, w, v, n) =~= earlier);
        }
    }
}

/// What a table says of a value is the number of positions in the stream at
/// which a window of the table's width with that value starts.
pub proof fn lemma_count_is_number_of_starts<N: NumericType>(s: Seq<u8>, w: int, v: nat)
    requires
        1 <= w,
    ensures
        starts_before::<N>(s, w, v, s.len() as int).finite(),
        windows::<N>(s, w).count(v) == starts_before::<N>(s, w, v, s.len() as int).len(),
        forall|i: int|
            starts_before::<N>(s, w, v, s.len() as int).contains(i) <==> window_valid::<N>(s, i, w)
                && window_value(s, i, w) == v,
{
    lemma_count_is_starts_before::<N>(s, w, v, s.len() as int);
}

/// A table holds values of its width only: numbers below sixteen to the
/// power of the width.
pub proof fn lemma_counted_values_in_range<N: NumericType>(s: Seq<u8>, w: int, v: nat)
    requires
        0 <= w,
        windows::<N>(s, w).count(v) >= 1,
    ensures
        v < pow16(w as nat),
{
    lemma_windows_before_in_range::<N>(s, w, v, s.len() as int);
}

/// The windows before position `n` have values of their width only.
proof fn lemma_windows_before_in_range<N: NumericType>(s: Seq<u8>, w: int, v: nat, n: int)
    requires
        0 <= w,
        windows_before::<N>(s, w, n).count(v) >= 1,
    ensures
        v < pow16(w as nat),
    decreases n,
{
    if n > 0 {
        if window_valid::<N>(s, n - 1, w) && window_value(s, n - 1, w) == v {
            lemma_window_value_bound(s, n - 1, w);
        } else {
            lemma_windows_before_in_range::<N>(s, w, v, n - 1);
        }
    }
}

/// The first `j` values of a table of a stream are written with as many
/// digits as the table is wide, and no two of them alike.
proof fn lemma_keyed_table<N: NumericType>(list: Seq<(u64, u64)>, s: Seq<u8>, w: nat, j: int)
    requires
        writes_out(list, windows::<N>(s, w as int)),
        0 <= j <= list.len(),
    ensures
        keyed_table(list, w, j).len() == j,
        forall|a: int| 0 <= a < j ==> (#[trigger] keyed_table(list, w, j)[a]).0.len() == w,
        forall|a: int, b: int|
            0 <= a < b < j ==> (#[trigger] keyed_table(list, w, j)[a]).0 != (#[trigger] keyed_table(
                list,
                w,
                j,
            )[b]).0,
    decreases j,
{
    if j > 0 {
        lemma_keyed_table::<N>(list, s, w, j - 1);
        let earlier = keyed_table(list, w, j - 1);
        let now = keyed_table(list, w, j);
        let last = list[j - 1].0 as nat;
        lemma_counted_values_in_range::<N>(s, w as int, last);
        lemma_digit_text_reads_back(last, w);
        assert forall|a: int, b: int| 0 <= a < b < j implies (#[trigger] now[a]).0 != (
        #[trigger] now[b]).0 by {
            if b == j - 1 {
                let other = list[a].0 as nat;
                assert(now[a] == earlier[a]);
                lemma_keyed_table_at(list, w, j - 1, a);
                lemma_counted_values_in_range::<N>(s, w as int, other);
                if digit_text(other, w) == digit_text(last, w) {
                    lemma_digit_text_tells_apart(other, last, w);
                    assert(list[a].0 < list[j - 1].0);
                }
            } else {
                assert(now[a] == earlier[a]);
                assert(now[b] == earlier[b]);
            }
        }
        assert forall|a: int| 0 <= a < j implies (#[trigger] now[a]).0.len() == w by {
            if a < j - 1 {
                assert(now[a] == earlier[a]);
            }
        }
    }
}

/// The pair at position `a` of a table written out is the pair at position
/// `a` of the table, its value written.
proof fn lemma_keyed_table_at(list: Seq<(u64, u64)>, w: nat, j: int, a: int)
    requires
        0 <= a < j <= list.len(),
    ensures
        keyed_table(list, w, j).len() == j,
        keyed_table(list, w, j)[a] == (digit_text(list[a].0 as nat, w), list[a].1),
    decreases j,
{
    lemma_keyed_table_len(list, w, j - 1);
    if a < j - 1 {
        lemma_keyed_table_at(list, w, j - 1, a);
    }
}

/// A table written out has as many pairs as the table.
proof fn lemma_keyed_table_len(list: Seq<(u64, u64)>, w: nat, j: int)
    requires
        0 <= j,
    ensures
        keyed_table(list, w, j).len() == j,
    decreases j,
{
    if j > 0 {
        lemma_keyed_table_len(list, w, j - 1);
    }
}

/// The values of the first `n` tables of a stream are written with at most
/// `n` digits, and no two of them alike.
proof fn lemma_keyed_tables<N: NumericType>(
    tables: Seq<Vec<(u64, u64)>>,
    s: Seq<u8>,
    digits: nat,
    n: int,
)
    requires
        counts_written::<N>(tables, s, digits),
        0 <= n <= digits,
    ensures
        forall|a: int|
            0 <= a < keyed_tables(tables, n).len() ==> (#[trigger] keyed_tables(tables, n)[a]).0.len()
                <= n,
        forall|a: int, b: int|
            0 <= a < b < keyed_tables(tables, n).len() ==> (#[trigger] keyed_tables(tables, n)[a]).0
                != (#[trigger] keyed_tables(tables, n)[b]).0,
    decreases n,
{
    if n > 0 {
        lemma_keyed_tables::<N>(tables, s, digits, n - 1);
        let list = tables[n - 1]@;
        assert(writes_out(list, windows::<N>(s, n - 1 + 1)));
        lemma_keyed_table::<N>(list, s, n as nat, list.len() as int);
        let head = keyed_tables(tables, n - 1);
        let tail = keyed_table(list, n as nat, list.len() as int);
        let all = keyed_tables(tables, n);
        assert(all == head + tail);
        assert forall|a: int| 0 <= a < all.len() implies (#[trigger] all[a]).0.len() <= n by {
            if a < head.len() {
                assert(all[a] == head[a]);
            } else {
                assert(all[a] == tail[a - head.len()]);
            }
        }
        assert forall|a: int, b: int| 0 <= a < b < all.len() implies (#[trigger] all[a]).0 != (
        #[trigger] all[b]).0 by {
            if b < head.len() {
                assert(all[a] == head[a]);
                assert(all[b] == head[b]);
            } else if a < head.len() {
                assert(all[a] == head[a]);
                assert(all[b] == tail[b - head.len()]);
                assert(head[a].0.len() <= n - 1);
                assert(tail[b - head.len()].0.len() == n);
            } else {
                assert(all[a] == tail[a - head.len()]);
                assert(all[b] == tail[b - head.len()]);
            }
        }
    }
}

/// Where the counts of a counter's tables stand in one list, each with its
/// value written out, no written value stands twice.
pub proof fn lemma_keys_once<N: NumericType>(
    tables: Seq<Vec<(u64, u64)>>,
    s: Seq<u8>,
    digits: nat,
)
    requires
        counts_written::<N>(tables, s, digits),
    ensures
        forall|a: int, b: int|
            0 <= a < b < keyed_tables(tables, digits as int).len() ==> (#[trigger] keyed_tables(
                tables,
                digits as int,
            )[a]).0 != (#[trigger] keyed_tables(tables, digits as int)[b]).0,
{
    lemma_keyed_tables::<N>(tables, s, digits, digits as int);
}

/// A window counts if and only if the run of digits from its first position
/// on is at least as long.
pub proof fn lemma_window_valid_in_run<N: NumericType>(s: Seq<u8>, i: int, w: int)
    requires
        0 <= i,
        1 <= w,
    ensures
        window_valid::<N>(s, i, w) == (run_length_at::<N>(s, i) >= w),
    decreases w,
{
    if w > 1 {
        lemma_window_valid_in_run::<N>(s, i + 1, w - 1);
        if window_valid::<N>(s, i, w) {
            assert(N::numeric(s[i]));
            assert(window_valid::<N>(s, i + 1, w - 1));
        }
        if i < s.len() && N::numeric(s[i]) && window_valid::<N>(s, i + 1, w - 1) {
            assert forall|j: int| i <= j < i + w implies N::numeric(#[trigger] s[j]) by {
                if j > i {
                    assert(i + 1 <= j < i + 1 + (w - 1));
                }
            }
        }
    } else {
        if window_valid::<N>(s, i, w) {
            assert(N::numeric(s[i]));
        }
        assert(run_length_at::<N>(s, i + 1) >= 0);
    }
}

/// The windows of a run that start at or after position `n`, if the run has
/// begun before it.
spec fn slots_pending<N: NumericType>(s: Seq<u8>, w: int, n: int) -> nat {
    if 1 <= n <= s.len() && N::numeric(s[n - 1]) {
        slots_in_run(run_length_at::<N>(s, n), w)
    } else {
        0
    }
}

/// The windows that start before position `n`, and those that start later
/// in a run that has begun before `n`, are as many as the windows in the runs
/// that have begun before `n`.
proof fn lemma_sum_law_before<N: NumericType>(s: Seq<u8>, w: int, n: int)
    requires
        1 <= w,
        0 <= n <= s.len(),
    ensures
        windows_before::<N>(s, w, n).len() + slots_pending::<N>(s, w, n) == window_slots_before::<
            N,
        >(s, w, n),
    decreases n,
{
    if n > 0 {
        lemma_sum_law_before::<N>(s, w, n - 1);
        lemma_window_valid_in_run::<N>(s, n - 1, w);
    }
}

/// Sum law: the table of a width holds, all counts together, as many values
/// as there are windows of that width in the runs of the stream: in a run of
/// `len` digits, `len - w + 1` of them, or none if that is below zero.
pub proof fn lemma_sum_law<N: NumericType>(s: Seq<u8>, w: int)
    requires
        1 <= w,
    ensures
        windows::<N>(s, w).len() == window_slots::<N>(s, w),
{
    lemma_sum_law_before::<N>(s, w, s.len() as int);
}

/// The sum of the counts of the first `j` pairs of `list`.
pub open spec fn listed_total(list: Seq<(u64, u64)>, j: int) -> nat
    decreases j,
{
    if j <= 0 {
        0
    } else {
        listed_total(list, j - 1) + list[j - 1].1 as nat
    }
}

/// The value `k`, `c` times.
spec fn copies(k: nat, c: nat) -> Multiset<nat>
    decreases c,
{
    if c == 0 {
        Multiset::empty()
    } else {
        copies(k, (c - 1) as nat).insert(k)
    }
}

/// The value `k`, `c` times, is `c` values, all of them `k`.
proof fn lemma_copies(k: nat, c: nat)
    ensures
        copies(k, c).len() == c,
        forall|x: nat| #[trigger] copies(k, c).count(x) == (if x == k {
            c
        } else {
            0
        }),
    decreases c,
{
    if c > 0 {
        lemma_copies(k, (c - 1) as nat);
    }
}

/// The values of the first `j` pairs of `list`, each as often as its pair
/// says.
spec fn listed_values(list: Seq<(u64, u64)>, j: int) -> Multiset<nat>
    decreases j,
{
    if j <= 0 {
        Multiset::empty()
    } else {
        listed_values(list, j - 1).add(copies(list[j - 1].0 as nat, list[j - 1].1 as nat))
    }
}

/// The values of the first `j` pairs of a list are as many as the counts of
/// the pairs add up to, and each occurs as often as the pairs count it.
proof fn lemma_listed_values(list: Seq<(u64, u64)>, j: int)
    ensures
        listed_values(list, j).len() == listed_total(list, j),
        forall|x: nat| #[trigger] listed_values(list, j).count(x) == listed_count(list, j, x),
    decreases j,
{
    if j > 0 {
        lemma_listed_values(list, j - 1);
        lemma_copies(list[j - 1].0 as nat, list[j - 1].1 as nat);
    }
}

/// The counts in a table written out add up to the number of values that
/// the table holds.
pub proof fn lemma_written_total(list: Seq<(u64, u64)>, table: Multiset<nat>)
    requires
        writes_out(list, table),
    ensures
        listed_total(list, list.len() as int) == table.len(),
{
    let count = |x: nat| table.count(x);
    assert(lists(list, count));
    lemma_listed_count(list, count, list.len() as int);
    lemma_listed_values(list, list.len() as int);
    assert(listed_values(list, list.len() as int) =~= table);
}

/// Sum law, of the tables that a counter hands out: the counts in the table
/// of a width add up to the number of windows of that width in the runs of
/// the stream.
pub proof fn lemma_sum_law_written<N: NumericType>(list: Seq<(u64, u64)>, s: Seq<u8>, w: int)
    requires
        1 <= w,
        writes_out(list, windows::<N>(s, w)),
    ensures
        listed_total(list, list.len() as int) == window_slots::<N>(s, w),
{
    lemma_written_total(list, windows::<N>(s, w));
    lemma_sum_law::<N>(s, w);
}

/// Width containment: a value is counted no more often than its prefix, the
/// value without its last digit, is counted at the width below.
pub proof fn lemma_width_containment<N: NumericType>(s: Seq<u8>, w: int, v: nat)
    requires
        2 <= w,
    ensures
        windows::<N>(s, w).count(v) <= windows::<N>(s, w - 1).count(v / 16),
{
    let n = s.len() as int;
    lemma_prefixes_complete::<N>(s, w, n, w);
    lemma_prefix_total_holds(|k: nat| windows_before::<N>(s, w, n).count(k), v);
}

/// A window in the first of two streams put together, where the second
/// begins with a byte that is no digit, is the window that it is in the
/// first alone.
proof fn lemma_window_cut<N: NumericType>(head: Seq<u8>, tail: Seq<u8>, i: int, w: int)
    requires
        0 <= i < head.len(),
        0 <= w,
        tail.len() >= 1,
        !N::numeric(tail[0]),
    ensures
        window_valid::<N>(head + tail, i, w) == window_valid::<N>(head, i, w),
        i + w <= head.len() ==> window_value(head + tail, i, w) == window_value(head, i, w),
    decreases w,
{
    let whole = head + tail;
    if i + w <= head.len() {
        if window_valid::<N>(head, i, w) {
            assert forall|j: int| i <= j < i + w implies N::numeric(#[trigger] whole[j]) by {
                assert(whole[j] == head[j]);
            }
        }
        if window_valid::<N>(whole, i, w) {
            assert forall|j: int| i <= j < i + w implies N::numeric(#[trigger] head[j]) by {
                assert(whole[j] == head[j]);
            }
        }
        if w > 0 {
            lemma_window_cut::<N>(head, tail, i, w - 1);
            assert(whole[i + w - 1] == head[i + w - 1]);
        }
    } else if i + w <= whole.len() {
        assert(whole[head.len() as int] == tail[0]);
        assert(!N::numeric(whole[head.len() as int]));
    }
}

/// The windows that start in the first of two streams put together, where
/// the second begins with a byte that is no digit, are the windows of the
/// first alone.
proof fn lemma_windows_before_cut<N: NumericType>(head: Seq<u8>, tail: Seq<u8>, w: int, n: int)
    requires
        1 <= w,
        0 <= n <= head.len(),
        tail.len() >= 1,
        !N::numeric(tail[0]),
    ensures
        windows_before::<N>(head + tail, w, n) == windows_before::<N>(head, w, n),
    decreases n,
{
    if n > 0 {
        lemma_windows_before_cut::<N>(head, tail, w, n - 1);
        lemma_window_cut::<N>(head, tail, n - 1, w);
    }
}

/// The windows of two streams put together that start before position `m`
/// of the second, where the second begins with a byte that is no digit, are
/// the windows of the first and the windows of the second before `m`.
proof fn lemma_windows_before_joined<N: NumericType>(
    head: Seq<u8>,
    tail: Seq<u8>,
    w: int,
    m: int,
)
    requires
        1 <= w,
        0 <= m <= tail.len(),
        tail.len() >= 1,
        !N::numeric(tail[0]),
    ensures
        windows_before::<N>(head + tail, w, head.len() + m) == windows::<N>(head, w).add(
            windows_before::<N>(tail, w, m),
        ),
    decreases m,
{
    let whole = head + tail;
    if m == 0 {
        lemma_windows_before_cut::<N>(head, tail, w, head.len() as int);
        assert(windows_before::<N>(whole, w, head.len() + m) =~= windows::<N>(head, w).add(
            windows_before::<N>(tail, w, m),
        ));
    } else {
        lemma_windows_before_joined::<N>(head, tail, w, m - 1);
        lemma_window_shifted::<N>(head, tail, m - 1, w);
        assert(windows_before::<N>(whole, w, head.len() + m) =~= windows::<N>(head, w).add(
            windows_before::<N>(tail, w, m),
        ));
    }
}

/// No leakage across runs: where a byte `gap` that is no digit stands
/// between two streams, no window reaches across it, so the table of the
/// whole is the table of the first with the table of the second added.
pub proof fn lemma_no_leakage<N: NumericType>(before: Seq<u8>, gap: u8, after: Seq<u8>, w: int)
    requires
        1 <= w,
        !N::numeric(gap),
    ensures
        windows::<N>(before.push(gap) + after, w) == windows::<N>(before, w).add(
            windows::<N>(after, w),
        ),
{
    let tail = seq![gap] + after;
    let whole = before + tail;
    assert(whole =~= before.push(gap) + after);
    assert(tail[0] == gap);
    lemma_windows_before_joined::<N>(before, tail, w, tail.len() as int);
    assert(windows::<N>(whole, w) == windows::<N>(before, w).add(windows::<N>(tail, w)));
    lemma_windows_after_gap::<N>(gap, after, w, after.len() as int);
}

/// A byte that is no digit before a stream adds no window to it.
proof fn lemma_windows_after_gap<N: NumericType>(gap: u8, after: Seq<u8>, w: int, m: int)
    requires
        1 <= w,
        !N::numeric(gap),
        0 <= m <= after.len(),
    ensures
        windows_before::<N>(seq![gap] + after, w, 1 + m) == windows_before::<N>(after, w, m),
    decreases m,
{
    let head = seq![gap];
    let tail = head + after;
    if m == 0 {
        assert(tail[0] == gap);
        assert(!window_valid::<N>(tail, 0, w));
        assert(windows_before::<N>(tail, w, 0) =~= Multiset::empty());
    } else {
        lemma_windows_after_gap::<N>(gap, after, w, m - 1);
        lemma_window_shifted::<N>(head, after, m - 1, w);
    }
}

} // verus!
