use numcount::{
    EarlyCount, HashMapCounter, HexDigit, LateCount, NumericType, Original, Process, StdNumeric,
    Variant, VecCounter,
};
use std::collections::BTreeMap;

fn run<P: Process>(digits: usize, data: &[u8]) -> Vec<Vec<(u64, u64)>> {
    let mut counter = P::new(digits).unwrap();
    for &byte in data {
        assert!(counter.fed() < u64::MAX);
        counter.on_byte(byte);
    }
    counter.finalize().into_count()
}

fn nibble(byte: u8) -> u64 {
    match byte {
        b'0'..=b'9' => (byte - b'0') as u64,
        b'a'..=b'f' => (byte - b'a') as u64 + 10,
        b'A'..=b'F' => (byte - b'A') as u64 + 10,
        _ => unreachable!(),
    }
}

/// Counts every window of every width by looking at each position in turn.
fn by_hand<N: NumericType>(digits: usize, data: &[u8]) -> Vec<Vec<(u64, u64)>> {
    let mut tables = Vec::new();
    for width in 1..=digits {
        let mut table: BTreeMap<u64, u64> = BTreeMap::new();
        for start in 0..data.len() {
            if start + width > data.len() {
                break;
            }
            let window = &data[start..start + width];
            if window.iter().all(|&b| N::is_numeric(b)) {
                let value = window.iter().fold(0u64, |v, &b| (v << 4) | nibble(b));
                *table.entry(value).or_insert(0) += 1;
            }
        }
        tables.push(table.into_iter().collect());
    }
    tables
}

fn noise(len: usize, seed: u64) -> Vec<u8> {
    let alphabet = b"0123456789abcdefABCDEF_.xyz \n";
    let mut state = seed;
    let mut data = Vec::new();
    for _ in 0..len {
        state = state.wrapping_mul(6364136223846793005).wrapping_add(1442695040888963407);
        data.push(alphabet[(state >> 33) as usize % alphabet.len()]);
    }
    data
}

fn inputs() -> Vec<Vec<u8>> {
    let mut all: Vec<Vec<u8>> = vec![
        b"".to_vec(),
        b"_".to_vec(),
        b"7".to_vec(),
        b"1234567890".to_vec(),
        b"_1234_5678_90_7".to_vec(),
        b"1234567890_ffff".to_vec(),
        b"1_23_456_7890_abcde_f01234".to_vec(),
        b"1_23_456_7890_abcde_987654_f012341_23_456_123".to_vec(),
        b"000000000000000000000000".to_vec(),
        b"aAaAaA__Ff".to_vec(),
    ];
    for seed in 0..8 {
        all.push(noise(300, seed));
    }
    all
}

#[test]
fn strategies_agree() {
    for data in inputs() {
        for digits in 0..=8 {
            let eager = run::<Variant<EarlyCount, HashMapCounter, HexDigit>>(digits, &data);
            let late = run::<Variant<LateCount, HashMapCounter, HexDigit>>(digits, &data);
            assert_eq!(eager, late);
            let eager = run::<Variant<EarlyCount, HashMapCounter, StdNumeric>>(digits, &data);
            let late = run::<Variant<LateCount, HashMapCounter, StdNumeric>>(digits, &data);
            assert_eq!(eager, late);
        }
    }
}

#[test]
fn backends_agree() {
    for data in inputs() {
        for digits in 0..=3 {
            let sparse = run::<Variant<EarlyCount, HashMapCounter, HexDigit>>(digits, &data);
            let dense = run::<Variant<EarlyCount, VecCounter, HexDigit>>(digits, &data);
            assert_eq!(sparse, dense);
            let sparse = run::<Variant<LateCount, HashMapCounter, StdNumeric>>(digits, &data);
            let dense = run::<Variant<LateCount, VecCounter, StdNumeric>>(digits, &data);
            assert_eq!(sparse, dense);
        }
    }
}

#[test]
fn counters_match_counting_by_hand() {
    for data in inputs() {
        for digits in [0usize, 1, 2, 3, 5, 8, 16] {
            let expected = by_hand::<HexDigit>(digits, &data);
            assert_eq!(run::<Variant<EarlyCount, HashMapCounter, HexDigit>>(digits, &data), expected);
            assert_eq!(run::<Variant<LateCount, HashMapCounter, HexDigit>>(digits, &data), expected);
            assert_eq!(run::<Original<HexDigit>>(digits, &data), expected);
            let expected = by_hand::<StdNumeric>(digits, &data);
            assert_eq!(run::<Variant<EarlyCount, HashMapCounter, StdNumeric>>(digits, &data), expected);
            assert_eq!(run::<Variant<LateCount, HashMapCounter, StdNumeric>>(digits, &data), expected);
            assert_eq!(run::<Original<StdNumeric>>(digits, &data), expected);
        }
    }
}

fn run_lengths<N: NumericType>(data: &[u8]) -> Vec<usize> {
    let mut runs = Vec::new();
    let mut current = 0;
    for &byte in data {
        if N::is_numeric(byte) {
            current += 1;
        } else if current != 0 {
            runs.push(current);
            current = 0;
        }
    }
    if current != 0 {
        runs.push(current);
    }
    runs
}

#[test]
fn sum_law() {
    for data in inputs() {
        let digits = 6;
        let runs = run_lengths::<HexDigit>(&data);
        let tables = run::<Variant<LateCount, VecCounter, HexDigit>>(digits, &data);
        for width in 1..=digits {
            let slots: usize = runs.iter().map(|&len| (len + 1).saturating_sub(width)).sum();
            let total: u64 = tables[width - 1].iter().map(|&(_, count)| count).sum();
            assert_eq!(total, slots as u64);
        }
    }
}

#[test]
fn sum_law_exact_values() {
    // Runs of 4, 4, 2 and 1 digits.
    let tables = run::<Variant<EarlyCount, HashMapCounter, StdNumeric>>(5, b"_1234_5678_90_7");
    let totals: Vec<u64> =
        tables.iter().map(|table| table.iter().map(|&(_, count)| count).sum()).collect();
    assert_eq!(totals, vec![11, 7, 4, 2, 0]);
}

#[test]
fn width_containment() {
    for data in inputs() {
        let tables = run::<Variant<EarlyCount, HashMapCounter, HexDigit>>(8, &data);
        for width in 2..=8 {
            let narrower: BTreeMap<u64, u64> = tables[width - 2].iter().copied().collect();
            for &(value, count) in &tables[width - 1] {
                assert!(narrower[&(value >> 4)] >= count);
            }
        }
    }
}

#[test]
fn no_leakage_across_a_gap() {
    let before = b"12345".to_vec();
    let after = b"67890".to_vec();
    let mut whole = before.clone();
    whole.push(b'_');
    whole.extend_from_slice(&after);
    let digits = 4;
    let first = run::<Variant<LateCount, HashMapCounter, StdNumeric>>(digits, &before);
    let second = run::<Variant<LateCount, HashMapCounter, StdNumeric>>(digits, &after);
    let joined = run::<Variant<LateCount, HashMapCounter, StdNumeric>>(digits, &whole);
    for width in 1..=digits {
        let mut sum: BTreeMap<u64, u64> = BTreeMap::new();
        for &(value, count) in first[width - 1].iter().chain(second[width - 1].iter()) {
            *sum.entry(value).or_insert(0) += count;
        }
        let sum: Vec<(u64, u64)> = sum.into_iter().collect();
        assert_eq!(joined[width - 1], sum);
    }
    // "56" would be a window if the gap let digits through.
    assert!(joined[1].iter().all(|&(value, _)| value != 0x56));
}

#[test]
fn a_letter_is_a_gap_for_decimal_digits() {
    let tables = run::<Variant<EarlyCount, HashMapCounter, StdNumeric>>(2, b"12a34");
    assert_eq!(tables[0], vec![(1, 1), (2, 1), (3, 1), (4, 1)]);
    assert_eq!(tables[1], vec![(0x12, 1), (0x34, 1)]);
    let tables = run::<Variant<EarlyCount, HashMapCounter, HexDigit>>(2, b"12a34");
    assert_eq!(tables[1], vec![(0x12, 1), (0x2a, 1), (0x34, 1), (0xa3, 1)]);
}

#[test]
fn capitals_count_as_their_small_letters() {
    let tables = run::<Variant<LateCount, HashMapCounter, HexDigit>>(2, b"aA_Ff");
    assert_eq!(tables[0], vec![(0xa, 2), (0xf, 2)]);
    assert_eq!(tables[1], vec![(0xaa, 1), (0xff, 1)]);
}

#[test]
fn boundary_width_sixteen() {
    let data = b"0123456789abcdef";
    let eager = run::<Variant<EarlyCount, HashMapCounter, HexDigit>>(16, data);
    let late = run::<Variant<LateCount, HashMapCounter, HexDigit>>(16, data);
    assert_eq!(eager, late);
    assert_eq!(late.len(), 16);
    assert_eq!(late[15], vec![(0x0123456789abcdef, 1)]);
    for width in 1..=16usize {
        let prefix = 0x0123456789abcdefu64 >> (4 * (16 - width));
        assert!(late[width - 1].contains(&(prefix, 1)));
        assert_eq!(late[width - 1].len(), 17 - width);
        assert!(late[width - 1].iter().all(|&(_, count)| count == 1));
    }
}

#[test]
fn boundary_width_sixteen_one_digit_repeated() {
    let data = b"ffffffffffffffff";
    let eager = run::<Variant<EarlyCount, HashMapCounter, HexDigit>>(16, data);
    let late = run::<Variant<LateCount, HashMapCounter, HexDigit>>(16, data);
    assert_eq!(eager, late);
    for width in 1..=16usize {
        let value = u64::MAX >> (4 * (16 - width));
        assert_eq!(late[width - 1], vec![(value, 17 - width as u64)]);
    }
}

#[test]
fn a_run_longer_than_the_register() {
    // Seventeen digits at the largest width: two windows of sixteen.
    let data = b"0123456789abcdef0";
    let tables = run::<Variant<LateCount, HashMapCounter, HexDigit>>(16, data);
    assert_eq!(tables[15], vec![(0x0123456789abcdef, 1), (0x123456789abcdef0, 1)]);
    assert_eq!(tables[0][0], (0, 2));
    let tables = run::<Variant<EarlyCount, HashMapCounter, HexDigit>>(16, data);
    assert_eq!(tables[15], vec![(0x0123456789abcdef, 1), (0x123456789abcdef0, 1)]);
}

#[test]
fn a_run_shorter_than_the_largest_width() {
    let tables = run::<Variant<LateCount, VecCounter, StdNumeric>>(5, b"42");
    assert_eq!(tables[0], vec![(2, 1), (4, 1)]);
    assert_eq!(tables[1], vec![(0x42, 1)]);
    assert!(tables[2].is_empty());
    assert!(tables[3].is_empty());
    assert!(tables[4].is_empty());
}

#[test]
fn no_width_no_table() {
    assert!(run::<Variant<EarlyCount, HashMapCounter, HexDigit>>(0, b"1234").is_empty());
    assert!(run::<Variant<LateCount, VecCounter, HexDigit>>(0, b"1234").is_empty());
    assert!(run::<Original<HexDigit>>(0, b"1234").is_empty());
}

#[test]
fn nothing_fed_nothing_counted() {
    let tables = run::<Variant<LateCount, HashMapCounter, HexDigit>>(3, b"");
    assert_eq!(tables, vec![vec![], vec![], vec![]]);
}

#[test]
fn fed_counts_the_bytes() {
    let mut counter = Variant::<EarlyCount, HashMapCounter, HexDigit>::new(2).unwrap();
    assert_eq!(counter.fed(), 0);
    counter.on_byte(b'1');
    counter.on_byte(b'_');
    assert_eq!(counter.fed(), 2);
}
