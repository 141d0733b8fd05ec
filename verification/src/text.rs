//! Values and count tables as text.
//!
//! A value of width `w` is written as its `w` hexadecimal digits, in lower
//! case. The report of a counter has one line for every width from 1 on: the
//! number of values that occur at that width, a space, and the list of
//! their counts in ascending order of the values, in square brackets and
//! parted by a comma and a space.

use crate::digits::{hex_value, HexDigit, NumericType};
use crate::model::{pow16, window_valid, window_value};
use vstd::prelude::*;

verus! {

/// The character of the hexadecimal digit `n`, in lower case.
pub open spec fn digit_char(n: nat) -> u8 {
    if n < 10 {
        (0x30 + n) as u8
    } else {
        (0x61 + n - 10) as u8
    }
}

/// The lowest `w` hexadecimal digits of `v` as characters, the highest
/// first.
pub open spec fn digit_text(v: nat, w: nat) -> Seq<u8>
    decreases w,
{
    if w == 0 {
        Seq::empty()
    } else {
        digit_text(v / 16, (w - 1) as nat).push(digit_char(v % 16))
    }
}

/// The decimal digits of `n` as characters, the highest first.
pub open spec fn decimal_text(n: nat) -> Seq<u8>
    decreases n,
{
    if n < 10 {
        seq![(0x30 + n) as u8]
    } else {
        decimal_text(n / 10).push((0x30 + n % 10) as u8)
    }
}

/// The counts of the first `j` pairs of `list` in decimal, parted by a comma
/// and a space.
pub open spec fn counts_text(list: Seq<(u64, u64)>, j: int) -> Seq<u8>
    decreases j,
{
    if j <= 0 {
        Seq::empty()
    } else if j == 1 {
        decimal_text(list[0].1 as nat)
    } else {
        counts_text(list, j - 1) + seq![0x2cu8, 0x20u8] + decimal_text(list[j - 1].1 as nat)
    }
}

/// The line of the report for one table: how many values it holds, and
/// their counts.
pub open spec fn line_text(list: Seq<(u64, u64)>) -> Seq<u8> {
    decimal_text(list.len()) + seq![0x20u8, 0x5bu8] + counts_text(list, list.len() as int)
        + seq![0x5du8, 0x0au8]
}

/// The lines of the report for the first `j` of `tables`.
pub open spec fn report_text(tables: Seq<Vec<(u64, u64)>>, j: int) -> Seq<u8>
    decreases j,
{
    if j <= 0 {
        Seq::empty()
    } else {
        report_text(tables, j - 1) + line_text(tables[j - 1]@)
    }
}

/// The pairs of the first `j` entries of `list`, each value written with
/// `width` digits.
pub open spec fn keyed_table(list: Seq<(u64, u64)>, width: nat, j: int) -> Seq<(Seq<u8>, u64)>
    decreases j,
{
    if j <= 0 {
        Seq::empty()
    } else {
        keyed_table(list, width, j - 1).push(
            (digit_text(list[j - 1].0 as nat, width), list[j - 1].1),
        )
    }
}

/// The pairs of the first `j` of `tables` in turn, the values of the table
/// at index `i` written with `i + 1` digits.
pub open spec fn keyed_tables(tables: Seq<Vec<(u64, u64)>>, j: int) -> Seq<(Seq<u8>, u64)>
    decreases j,
{
    if j <= 0 {
        Seq::empty()
    } else {
        keyed_tables(tables, j - 1) + keyed_table(
            tables[j - 1]@,
            j as nat,
            tables[j - 1]@.len() as int,
        )
    }
}

/// Whether `keyed` holds the pairs of `text`, each number written out.
pub open spec fn holds_keyed(keyed: Seq<(Vec<u8>, u64)>, text: Seq<(Seq<u8>, u64)>) -> bool {
    &&& keyed.len() == text.len()
    &&& forall|i: int|
        0 <= i < keyed.len() ==> (#[trigger] keyed[i]).0@ == text[i].0 && keyed[i].1 == text[i].1
}

/// The character of the hexadecimal digit `n`, in lower case.
pub fn hex_digit(n: u8) -> (c: u8)
    requires
        n < 16,
    ensures
        c == digit_char(n as nat),
{
    if n < 10 {
        0x30 + n
    } else {
        0x61 + (n - 10)
    }
}

/// Writes the lowest `width` hexadecimal digits of `number`, the highest
/// first.
pub fn digit_string(number: u64, width: usize) -> (text: Vec<u8>)
    ensures
        text@ == digit_text(number as nat, width as nat),
{
    let mut text: Vec<u8> = vec![0u8; width];
    let mut number: u64 = number;
    let ghost whole = number;
    let mut left: usize = width;
    while left != 0
        invariant
            left <= width,
            text@.len() == width,
            digit_text(whole as nat, width as nat) == digit_text(number as nat, left as nat)
                + text@.subrange(left as int, width as int),
        decreases left,
    {
        proof {
            assert(number & 0xf == number % 16) by (bit_vector);
            assert(number >> 4 == number / 16) by (bit_vector);
        }
        let c: u8 = hex_digit((number & 0xf) as u8);
        let ghost earlier = text@;
        left -= 1;
        text[left] = c;
        proof {
            assert(text@.subrange(left as int, width as int) =~= seq![c] + earlier.subrange(
                left + 1,
                width as int,
            ));
            assert(digit_text(number as nat, (left + 1) as nat) + earlier.subrange(
                left + 1,
                width as int,
            ) =~= digit_text((number / 16) as nat, left as nat) + text@.subrange(
                left as int,
                width as int,
            ));
        }
        number = number >> 4;
    }
    proof {
        assert(text@.subrange(0, width as int) =~= text@);
        assert(digit_text(number as nat, 0) + text@ =~= text@);
    }
    text
}

/// The digits of a value as written are digits of the hexadecimal alphabet,
/// and they spell the value.
pub proof fn lemma_digit_text_reads_back(v: nat, w: nat)
    requires
        v < pow16(w),
    ensures
        digit_text(v, w).len() == w,
        window_valid::<HexDigit>(digit_text(v, w), 0, w as int),
        window_value(digit_text(v, w), 0, w as int) == v,
    decreases w,
{
    if w > 0 {
        let head = digit_text(v / 16, (w - 1) as nat);
        let c = digit_char(v % 16);
        let text = head.push(c);
        lemma_digit_text_reads_back(v / 16, (w - 1) as nat);
        assert(HexDigit::numeric(c));
        assert(hex_value(c) == v % 16);
        assert forall|j: int| 0 <= j < w implies HexDigit::numeric(#[trigger] text[j]) by {
            if j < w - 1 {
                assert(text[j] == head[j]);
            }
        }
        crate::model::lemma_window_value_push(head, c, 0, w - 1);
    }
}

/// The counts of all of `tables` in one list, each with its value written
/// in as many digits as its table is wide: the table at index `i` holds the
/// values of width `i + 1`.
pub fn keyed_counts(tables: &Vec<Vec<(u64, u64)>>) -> (keyed: Vec<(Vec<u8>, u64)>)
    ensures
        holds_keyed(keyed@, keyed_tables(tables@, tables@.len() as int)),
{
    let mut keyed: Vec<(Vec<u8>, u64)> = Vec::new();
    let widths: usize = tables.len();
    let mut i: usize = 0;
    while i < widths
        invariant
            i <= widths == tables@.len(),
            holds_keyed(keyed@, keyed_tables(tables@, i as int)),
        decreases widths - i,
    {
        let table = &tables[i];
        let ghost done = keyed_tables(tables@, i as int);
        let mut j: usize = 0;
        while j < table.len()
            invariant
                i < widths == tables@.len(),
                j <= table@.len(),
                table@ == tables@[i as int]@,
                holds_keyed(keyed@, done + keyed_table(table@, (i + 1) as nat, j as int)),
            decreases table@.len() - j,
        {
            let (number, count) = table[j];
            let text = digit_string(number, i + 1);
            let ghost earlier = keyed@;
            keyed.push((text, count));
            proof {
                let wanted = done + keyed_table(table@, (i + 1) as nat, j + 1);
                assert(wanted =~= (done + keyed_table(table@, (i + 1) as nat, j as int)).push(
                    (digit_text(number as nat, (i + 1) as nat), count),
                ));
                assert forall|k: int| 0 <= k < keyed@.len() implies (#[trigger] keyed@[k]).0@
                    == wanted[k].0 && keyed@[k].1 == wanted[k].1 by {
                    if k < earlier.len() {
                        assert(keyed@[k] == earlier[k]);
                    }
                }
            }
            j += 1;
        }
        i += 1;
    }
    keyed
}

/// Two values of one width that are written alike are the same value.
pub proof fn lemma_digit_text_tells_apart(a: nat, b: nat, w: nat)
    requires
        a < pow16(w),
        b < pow16(w),
        digit_text(a, w) == digit_text(b, w),
    ensures
        a == b,
{
    lemma_digit_text_reads_back(a, w);
    lemma_digit_text_reads_back(b, w);
}

/// Appends the decimal digits of `n` to `out`.
pub fn push_decimal(out: &mut Vec<u8>, n: u64)
    ensures
        final(out)@ == old(out)@ + decimal_text(n as nat),
    decreases n,
{
    if n >= 10 {
        push_decimal(out, n / 10);
    }
    let ghost earlier = out@;
    out.push(0x30 + (n % 10) as u8);
    proof {
        if n >= 10 {
            assert(out@ =~= old(out)@ + decimal_text(n as nat));
        } else {
            assert(out@ =~= old(out)@ + decimal_text(n as nat));
        }
    }
}

/// Appends the line of the report for one table to `out`.
pub fn push_line(out: &mut Vec<u8>, list: &Vec<(u64, u64)>)
    ensures
        final(out)@ == old(out)@ + line_text(list@),
{
    let ghost start = out@;
    push_decimal(out, list.len() as u64);
    out.push(0x20);
    out.push(0x5b);
    let ghost opened = out@;
    assert(opened =~= start + decimal_text(list@.len()) + seq![0x20u8, 0x5bu8]);
    let mut j: usize = 0;
    while j < list.len()
        invariant
            j <= list@.len(),
            out@ == opened + counts_text(list@, j as int),
        decreases list@.len() - j,
    {
        let ghost earlier = out@;
        if j != 0 {
            out.push(0x2c);
            out.push(0x20);
        }
        let ghost parted = out@;
        push_decimal(out, list[j].1);
        proof {
            if j != 0 {
                assert(parted =~= earlier + seq![0x2cu8, 0x20u8]);
            }
            assert(out@ =~= opened + counts_text(list@, j + 1));
        }
        j += 1;
    }
    let ghost listed = out@;
    out.push(0x5d);
    out.push(0x0a);
    assert(out@ =~= start + line_text(list@));
}

/// The report: a line for every one of `tables` in turn.
pub fn report(tables: &Vec<Vec<(u64, u64)>>) -> (text: Vec<u8>)
    ensures
        text@ == report_text(tables@, tables@.len() as int),
{
    let mut text: Vec<u8> = Vec::new();
    let mut j: usize = 0;
    while j < tables.len()
        invariant
            j <= tables@.len(),
            text@ == report_text(tables@, j as int),
        decreases tables@.len() - j,
    {
        push_line(&mut text, &tables[j]);
        j += 1;
    }
    text
}

} // verus!
