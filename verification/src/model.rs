//! What the counters compute, stated over the bytes that were fed to them.
//!
//! A window is a span of consecutive positions of the stream. It counts when
//! every byte in it is a digit of the alphabet, so a window never reaches
//! across a byte that is none. Its value is the number that its digits spell
//! in base 16, the first digit highest.

use crate::digits::{hex_value, NumericType};
use vstd::multiset::Multiset;
use vstd::prelude::*;

verus! {

/// The largest width that fits the 64-bit register, one nibble to a digit.
pub const MAX_DIGITS: usize = 16;

/// Sixteen to the power `w`: the number of values of width `w`.
pub open spec fn pow16(w: nat) -> nat
    decreases w,
{
    if w == 0 {
        1
    } else {
        16 * pow16((w - 1) as nat)
    }
}

/// Whether the `w` bytes of `s` from position `i` on exist and are all
/// digits of the alphabet `N`.
pub open spec fn window_valid<N: NumericType>(s: Seq<u8>, i: int, w: int) -> bool {
    &&& 0 <= i
    &&& 0 <= w
    &&& i + w <= s.len()
    &&& forall|j: int| i <= j < i + w ==> N::numeric(#[trigger] s[j])
}

/// The number that the `w` bytes of `s` from position `i` on spell in base
/// 16, the first byte highest.
pub open spec fn window_value(s: Seq<u8>, i: int, w: int) -> nat
    decreases w,
{
    if w <= 0 {
        0
    } else {
        16 * window_value(s, i, w - 1) + hex_value(s[i + w - 1])
    }
}

/// The values of the windows of width `w` that start before position `n`,
/// each as often as it occurs.
pub open spec fn windows_before<N: NumericType>(s: Seq<u8>, w: int, n: int) -> Multiset<nat>
    decreases n,
{
    if n <= 0 {
        Multiset::empty()
    } else if window_valid::<N>(s, n - 1, w) {
        windows_before::<N>(s, w, n - 1).insert(window_value(s, n - 1, w))
    } else {
        windows_before::<N>(s, w, n - 1)
    }
}

/// The values of all windows of width `w` in `s`, each as often as it occurs:
/// the count table of width `w`.
pub open spec fn windows<N: NumericType>(s: Seq<u8>, w: int) -> Multiset<nat> {
    windows_before::<N>(s, w, s.len() as int)
}

/// The number of digits of `N` that follow one another in `s` from position
/// `i` on.
pub open spec fn run_length_at<N: NumericType>(s: Seq<u8>, i: int) -> nat
    decreases s.len() - i,
{
    if 0 <= i < s.len() && N::numeric(s[i]) {
        1 + run_length_at::<N>(s, i + 1)
    } else {
        0
    }
}

/// Whether a run of digits starts at position `i`: a digit that follows no
/// digit.
pub open spec fn run_starts_at<N: NumericType>(s: Seq<u8>, i: int) -> bool {
    &&& 0 <= i < s.len()
    &&& N::numeric(s[i])
    &&& (i == 0 || !N::numeric(s[i - 1]))
}

/// The number of windows of width `w` that a run of `len` digits holds.
pub open spec fn slots_in_run(len: nat, w: int) -> nat {
    if len - w + 1 > 0 {
        (len - w + 1) as nat
    } else {
        0
    }
}

/// The sum, over the runs of `s` that start before position `n`, of the
/// number of windows of width `w` that each holds.
pub open spec fn window_slots_before<N: NumericType>(s: Seq<u8>, w: int, n: int) -> nat
    decreases n,
{
    if n <= 0 {
        0
    } else if run_starts_at::<N>(s, n - 1) {
        window_slots_before::<N>(s, w, n - 1) + slots_in_run(run_length_at::<N>(s, n - 1), w)
    } else {
        window_slots_before::<N>(s, w, n - 1)
    }
}

/// The sum, over the runs of `s`, of the number of windows of width `w` that
/// each holds.
pub open spec fn window_slots<N: NumericType>(s: Seq<u8>, w: int) -> nat {
    window_slots_before::<N>(s, w, s.len() as int)
}

/// The powers of sixteen grow with the exponent. A table of width 6 has
/// `2^24` places, and the values of width 16 are those of a 64-bit word.
pub proof fn lemma_pow16_grows(a: nat, b: nat)
    requires
        a <= b,
    ensures
        1 <= pow16(a) <= pow16(b),
        b <= 6 ==> pow16(b) <= 0x100_0000,
        b <= 16 ==> pow16(b) <= 0x1_0000_0000_0000_0000,
    decreases b,
{
    if b > 0 {
        if a < b {
            lemma_pow16_grows(a, (b - 1) as nat);
        } else {
            lemma_pow16_grows((a - 1) as nat, (b - 1) as nat);
        }
    }
    if b <= 6 {
        assert(pow16(6) == 0x100_0000) by {
            reveal_with_fuel(pow16, 7);
        }
        lemma_pow16_ordered(b, 6);
    }
    if b <= 16 {
        assert(pow16(16) == 0x1_0000_0000_0000_0000) by {
            reveal_with_fuel(pow16, 17);
        }
        lemma_pow16_ordered(b, 16);
    }
}

/// The powers of sixteen grow with the exponent.
proof fn lemma_pow16_ordered(a: nat, b: nat)
    requires
        a <= b,
    ensures
        pow16(a) <= pow16(b),
    decreases b,
{
    if a < b {
        lemma_pow16_ordered(a, (b - 1) as nat);
    }
}

/// A value of width `w` is below sixteen to the `w`.
pub proof fn lemma_window_value_bound(s: Seq<u8>, i: int, w: int)
    requires
        0 <= w,
    ensures
        window_value(s, i, w) < pow16(w as nat),
    decreases w,
{
    if w > 0 {
        lemma_window_value_bound(s, i, w - 1);
    }
}

/// The value of a window without its last digit is the sixteenth part of
/// the window's value.
pub proof fn lemma_window_value_prefix(s: Seq<u8>, i: int, w: int)
    requires
        1 <= w,
    ensures
        window_value(s, i, w) / 16 == window_value(s, i, w - 1),
{
}

/// A window holds every shorter window that starts where it starts.
pub proof fn lemma_window_valid_shorter<N: NumericType>(s: Seq<u8>, i: int, w: int, k: int)
    requires
        window_valid::<N>(s, i, w),
        0 <= k <= w,
    ensures
        window_valid::<N>(s, i, k),
{
}

/// A window that lies in `s` has the same value after one more byte.
pub proof fn lemma_window_value_push(s: Seq<u8>, b: u8, i: int, w: int)
    requires
        0 <= i,
        i + w <= s.len(),
    ensures
        window_value(s.push(b), i, w) == window_value(s, i, w),
    decreases w,
{
    if w > 0 {
        lemma_window_value_push(s, b, i, w - 1);
        assert(s.push(b)[i + w - 1] == s[i + w - 1]);
    }
}

/// A window that lies in `s` counts after one more byte if and only if it
/// counted before.
pub proof fn lemma_window_valid_push<N: NumericType>(s: Seq<u8>, b: u8, i: int, w: int)
    requires
        i + w <= s.len(),
    ensures
        window_valid::<N>(s.push(b), i, w) == window_valid::<N>(s, i, w),
{
    let t = s.push(b);
    if window_valid::<N>(s, i, w) {
        assert forall|j: int| i <= j < i + w implies N::numeric(#[trigger] t[j]) by {
            assert(t[j] == s[j]);
        }
    }
    if window_valid::<N>(t, i, w) {
        assert forall|j: int| i <= j < i + w implies N::numeric(#[trigger] s[j]) by {
            assert(t[j] == s[j]);
        }
    }
}

/// There are no more windows before position `n` than positions.
pub proof fn lemma_windows_before_len<N: NumericType>(s: Seq<u8>, w: int, n: int)
    requires
        0 <= n,
    ensures
        windows_before::<N>(s, w, n).len() <= n,
    decreases n,
{
    if n > 0 {
        lemma_windows_before_len::<N>(s, w, n - 1);
    }
}

/// A window in the second of two streams put together is the window that it
/// is in the second alone.
pub proof fn lemma_window_shifted<N: NumericType>(head: Seq<u8>, tail: Seq<u8>, i: int, w: int)
    requires
        0 <= i,
        0 <= w,
    ensures
        window_valid::<N>(head + tail, head.len() + i, w) == window_valid::<N>(tail, i, w),
        i + w <= tail.len() ==> window_value(head + tail, head.len() + i, w) == window_value(
            tail,
            i,
            w,
        ),
    decreases w,
{
    let whole = head + tail;
    if window_valid::<N>(tail, i, w) {
        assert forall|j: int| head.len() + i <= j < head.len() + i + w implies N::numeric(
            #[trigger] whole[j],
        ) by {
            assert(whole[j] == tail[j - head.len()]);
        }
    }
    if window_valid::<N>(whole, head.len() + i, w) {
        assert forall|j: int| i <= j < i + w implies N::numeric(#[trigger] tail[j]) by {
            assert(whole[head.len() + j] == tail[j]);
        }
    }
    if w > 0 && i + w <= tail.len() {
        lemma_window_shifted::<N>(head, tail, i, w - 1);
        assert(whole[head.len() + i + w - 1] == tail[i + w - 1]);
    }
}

/// No window starts so late that it does not lie in the stream.
pub proof fn lemma_windows_before_unfit<N: NumericType>(s: Seq<u8>, w: int, n: int, m: int)
    requires
        1 <= w,
        0 <= n <= m,
        s.len() - w + 1 <= n,
    ensures
        windows_before::<N>(s, w, m) == windows_before::<N>(s, w, n),
    decreases m,
{
    if n < m {
        lemma_windows_before_unfit::<N>(s, w, n, m - 1);
    }
}

/// The windows that lie in `s` are the same after one more byte.
pub proof fn lemma_windows_before_push<N: NumericType>(s: Seq<u8>, b: u8, w: int, n: int)
    requires
        0 <= n,
        n + w <= s.len() + 1,
    ensures
        windows_before::<N>(s.push(b), w, n) == windows_before::<N>(s, w, n),
    decreases n,
{
    if n > 0 {
        lemma_windows_before_push::<N>(s, b, w, n - 1);
        lemma_window_valid_push::<N>(s, b, n - 1, w);
        lemma_window_value_push(s, b, n - 1, w);
    }
}

/// One more byte adds to the table of a width the window that ends with
/// it, if that window counts, and nothing else.
pub proof fn lemma_windows_push<N: NumericType>(s: Seq<u8>, b: u8, w: int)
    requires
        1 <= w,
    ensures
        windows::<N>(s.push(b), w) == (if window_valid::<N>(s.push(b), s.len() + 1 - w, w) {
            windows::<N>(s, w).insert(window_value(s.push(b), s.len() + 1 - w, w))
        } else {
            windows::<N>(s, w)
        }),
{
    let t = s.push(b);
    let at = s.len() + 1 - w;
    if at < 0 {
        lemma_windows_before_unfit::<N>(t, w, 0, t.len() as int);
        lemma_windows_before_unfit::<N>(s, w, 0, s.len() as int);
    } else {
        lemma_windows_before_unfit::<N>(t, w, at + 1, t.len() as int);
        lemma_windows_before_push::<N>(s, b, w, at);
        lemma_windows_before_unfit::<N>(s, w, at, s.len() as int);
    }
}

} // verus!
