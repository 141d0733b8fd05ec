//! What a counter has tallied part-way through the stream, and how the
//! tallies become the count tables.
//!
//! While the stream is read, a counter tallies the windows that start at a
//! position only when it knows the longest of them: when as many digits
//! have followed as the largest width, or when the run has ended. An eager
//! counter then tallies every window that starts there. A late counter
//! tallies the longest only, and adds its prefixes when the stream has ended.

use crate::digits::NumericType;
use crate::model::{
    lemma_window_valid_push, lemma_window_valid_shorter, lemma_window_value_push, window_valid,
    window_value, windows_before,
};
use vstd::multiset::Multiset;
use vstd::prelude::*;

verus! {

/// Whether a counter for widths up to `digits` tallies the window of width
/// `w` at position `i` while it reads: an eager one every window, a late one
/// only the longest at that position.
pub open spec fn window_tallied<N: NumericType>(
    s: Seq<u8>,
    i: int,
    w: int,
    digits: int,
    late: bool,
) -> bool {
    &&& window_valid::<N>(s, i, w)
    &&& late ==> w == digits || !window_valid::<N>(s, i, w + 1)
}

/// The values of the windows of width `w` before position `n` that a counter
/// tallies while it reads.
pub open spec fn tallied_before<N: NumericType>(
    s: Seq<u8>,
    w: int,
    n: int,
    digits: int,
    late: bool,
) -> Multiset<nat>
    decreases n,
{
    if n <= 0 {
        Multiset::empty()
    } else if window_tallied::<N>(s, n - 1, w, digits, late) {
        tallied_before::<N>(s, w, n - 1, digits, late).insert(window_value(s, n - 1, w))
    } else {
        tallied_before::<N>(s, w, n - 1, digits, late)
    }
}

/// The sum of what `count` says of the sixteen values that have the prefix
/// `p`.
#[verifier::opaque]
pub open spec fn prefix_total(count: spec_fn(nat) -> nat, p: nat) -> nat {
    count(16 * p) + count(16 * p + 1) + count(16 * p + 2) + count(16 * p + 3) + count(16 * p + 4)
        + count(16 * p + 5) + count(16 * p + 6) + count(16 * p + 7) + count(16 * p + 8) + count(
        16 * p + 9,
    ) + count(16 * p + 10) + count(16 * p + 11) + count(16 * p + 12) + count(16 * p + 13) + count(
        16 * p + 14,
    ) + count(16 * p + 15)
}

/// Whether one more byte leaves a window at position `i` as it was: the
/// window lies in `s`, or it reaches a byte at `q` that is no digit.
proof fn lemma_window_valid_settled<N: NumericType>(s: Seq<u8>, b: u8, i: int, k: int, q: int)
    requires
        0 <= i,
        i + k <= s.len() || (i <= q <= s.len() && !N::numeric(s.push(b)[q])),
    ensures
        window_valid::<N>(s.push(b), i, k) == window_valid::<N>(s, i, k),
{
    let t = s.push(b);
    if i + k <= s.len() {
        lemma_window_valid_push::<N>(s, b, i, k);
    } else if i + k <= t.len() {
        assert(!N::numeric(t[q]));
    }
}

/// What is tallied at a position does not change with one more byte, once
/// the longest window there is known.
proof fn lemma_tallied_push<N: NumericType>(
    s: Seq<u8>,
    b: u8,
    i: int,
    w: int,
    digits: int,
    late: bool,
    q: int,
)
    requires
        0 <= i,
        1 <= w <= digits,
        i + digits <= s.len() || (i <= q <= s.len() && !N::numeric(s.push(b)[q])),
    ensures
        window_tallied::<N>(s.push(b), i, w, digits, late) == window_tallied::<N>(
            s,
            i,
            w,
            digits,
            late,
        ),
{
    lemma_window_valid_settled::<N>(s, b, i, w, q);
    if w < digits {
        lemma_window_valid_settled::<N>(s, b, i, w + 1, q);
    }
}

/// What is tallied before position `n` does not change with one more byte
/// `b`, if the windows of the largest width that start before `n` lie in
/// `s`, or if a byte at `q`, at or after `n - 1`, is no digit.
pub proof fn lemma_tallied_before_push<N: NumericType>(
    s: Seq<u8>,
    b: u8,
    w: int,
    n: int,
    digits: int,
    late: bool,
    q: int,
)
    requires
        1 <= w <= digits,
        0 <= n,
        n == 0 || n + digits <= s.len() + 1 || (n - 1 <= q <= s.len() && !N::numeric(
            s.push(b)[q],
        )),
    ensures
        tallied_before::<N>(s.push(b), w, n, digits, late) == tallied_before::<N>(
            s,
            w,
            n,
            digits,
            late,
        ),
    decreases n,
{
    if n > 0 {
        lemma_tallied_before_push::<N>(s, b, w, n - 1, digits, late, q);
        lemma_tallied_push::<N>(s, b, n - 1, w, digits, late, q);
        if window_tallied::<N>(s, n - 1, w, digits, late) {
            lemma_window_value_push(s, b, n - 1, w);
        }
    }
}

/// No window starts at a position that holds no digit, or after the end.
pub proof fn lemma_tallied_before_gap<N: NumericType>(
    s: Seq<u8>,
    w: int,
    n: int,
    digits: int,
    late: bool,
)
    requires
        1 <= w,
        1 <= n,
        n > s.len() || !N::numeric(s[n - 1]),
    ensures
        tallied_before::<N>(s, w, n, digits, late) == tallied_before::<N>(
            s,
            w,
            n - 1,
            digits,
            late,
        ),
{
    if n <= s.len() {
        assert(!N::numeric(s[n - 1]));
    }
}

/// There are no more tallied windows before position `n` than positions.
pub proof fn lemma_tallied_before_len<N: NumericType>(
    s: Seq<u8>,
    w: int,
    n: int,
    digits: int,
    late: bool,
)
    requires
        0 <= n,
    ensures
        tallied_before::<N>(s, w, n, digits, late).len() <= n,
    decreases n,
{
    if n > 0 {
        lemma_tallied_before_len::<N>(s, w, n - 1, digits, late);
    }
}

/// An eager counter tallies every window.
pub proof fn lemma_tallied_eager<N: NumericType>(s: Seq<u8>, w: int, n: int, digits: int)
    ensures
        tallied_before::<N>(s, w, n, digits, false) == windows_before::<N>(s, w, n),
    decreases n,
{
    if n > 0 {
        lemma_tallied_eager::<N>(s, w, n - 1, digits);
    }
}

/// A late counter tallies every window of the largest width.
pub proof fn lemma_tallied_widest<N: NumericType>(s: Seq<u8>, n: int, digits: int)
    ensures
        tallied_before::<N>(s, digits, n, digits, true) == windows_before::<N>(s, digits, n),
    decreases n,
{
    if n > 0 {
        lemma_tallied_widest::<N>(s, n - 1, digits);
    }
}

/// The windows that start where the last `width` bytes of `s` start, when
/// those bytes are digits and `width` is no more than the largest width: the
/// windows of every width up to `width` count, and that of `width` is the
/// longest.
pub proof fn lemma_tallied_at_tail<N: NumericType>(
    s: Seq<u8>,
    width: int,
    w: int,
    digits: int,
    late: bool,
)
    requires
        0 <= width <= digits,
        width <= s.len(),
        window_valid::<N>(s, s.len() - width, width),
        1 <= w,
    ensures
        window_tallied::<N>(s, s.len() - width, w, digits, late) == (w <= width && (late ==> w
            == width)),
{
    let i = s.len() - width;
    if w <= width {
        lemma_window_valid_shorter::<N>(s, i, width, w);
        if w < width {
            lemma_window_valid_shorter::<N>(s, i, width, w + 1);
        }
    }
}

/// The windows of one width are the windows that a late counter tallies at
/// that width and the prefixes of the windows that are one digit wider.
pub proof fn lemma_prefixes_complete<N: NumericType>(s: Seq<u8>, w: int, n: int, digits: int)
    requires
        2 <= w <= digits,
    ensures
        forall|p: nat|
            #[trigger] windows_before::<N>(s, w - 1, n).count(p) == tallied_before::<N>(
                s,
                w - 1,
                n,
                digits,
                true,
            ).count(p) + prefix_total(|k: nat| windows_before::<N>(s, w, n).count(k), p),
    decreases n,
{
    assert forall|p: nat|
        #[trigger] windows_before::<N>(s, w - 1, n).count(p) == tallied_before::<N>(
            s,
            w - 1,
            n,
            digits,
            true,
        ).count(p) + prefix_total(|k: nat| windows_before::<N>(s, w, n).count(k), p) by {
        if n > 0 {
            lemma_prefixes_complete::<N>(s, w, n - 1, digits);
            let i = n - 1;
            let narrow = windows_before::<N>(s, w - 1, n - 1);
            let wide = windows_before::<N>(s, w, n - 1);
            let kept = tallied_before::<N>(s, w - 1, n - 1, digits, true);
            assert(narrow.count(p) == kept.count(p) + prefix_total(|k: nat| wide.count(k), p));
            if window_valid::<N>(s, i, w) {
                lemma_window_valid_shorter::<N>(s, i, w, w - 1);
                let v = window_value(s, i, w);
                assert(v / 16 == window_value(s, i, w - 1));
                lemma_prefix_total_insert(wide, v, p);
            }
        } else {
            lemma_prefix_total_none(|k: nat| windows_before::<N>(s, w, n).count(k), p);
        }
    }
}

/// One more value `v` adds one to the total of its prefix and nothing to the
/// total of another.
proof fn lemma_prefix_total_insert(m: Multiset<nat>, v: nat, p: nat)
    ensures
        prefix_total(|k: nat| m.insert(v).count(k), p) == prefix_total(|k: nat| m.count(k), p) + (if v
            / 16 == p {
            1nat
        } else {
            0nat
        }),
{
    reveal(prefix_total);
    let after = m.insert(v);
    assert forall|k: nat| #[trigger] after.count(k) == m.count(k) + (if k == v {
        1nat
    } else {
        0nat
    }) by {
        if k == v {
            vstd::multiset::lemma_insert_increases_count_by_1(m, v);
        } else {
            vstd::multiset::lemma_insert_other_elements_unchanged(m, v, k);
        }
    }
}

/// A count that is zero everywhere has the total zero.
pub proof fn lemma_prefix_total_none(f: spec_fn(nat) -> nat, p: nat)
    requires
        forall|k: nat| #[trigger] f(k) == 0,
    ensures
        prefix_total(f, p) == 0,
{
    reveal(prefix_total);
}

/// Two counts that agree on every value have the same totals.
pub proof fn lemma_prefix_total_same(f: spec_fn(nat) -> nat, g: spec_fn(nat) -> nat, p: nat)
    requires
        forall|k: nat| #[trigger] f(k) == g(k),
    ensures
        prefix_total(f, p) == prefix_total(g, p),
{
    reveal(prefix_total);
}

/// A count that is nowhere above another has no total above the other's.
pub proof fn lemma_prefix_total_le(f: spec_fn(nat) -> nat, g: spec_fn(nat) -> nat, p: nat)
    requires
        forall|k: nat| #[trigger] f(k) <= g(k),
    ensures
        prefix_total(f, p) <= prefix_total(g, p),
{
    reveal(prefix_total);
}

/// The total of a prefix is at least the count of each value that has it.
pub proof fn lemma_prefix_total_holds(f: spec_fn(nat) -> nat, v: nat)
    ensures
        f(v) <= prefix_total(f, v / 16),
{
    reveal(prefix_total);
}

} // verus!
