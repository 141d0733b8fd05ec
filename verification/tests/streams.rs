use numcount::{
    EarlyCount, EngineError, HashMapCounter, HexDigit, LateCount, Process, StdNumeric, Variant,
    VecCounter,
};

fn count<P: Process>(digits: usize, data: &[u8]) -> Vec<Vec<(u64, u64)>> {
    let mut counter = P::new(digits).unwrap();
    for &byte in data {
        assert!(counter.fed() < u64::MAX);
        counter.on_byte(byte);
    }
    counter.finalize().into_count()
}

fn ones(values: &[u64]) -> Vec<(u64, u64)> {
    values.iter().map(|&v| (v, 1)).collect()
}

#[test]
fn ten_digits_in_a_row_eager_sparse() {
    let tables = count::<Variant<EarlyCount, HashMapCounter, StdNumeric>>(2, b"1234567890");
    assert_eq!(tables.len(), 2);
    assert_eq!(tables[0], ones(&[0, 1, 2, 3, 4, 5, 6, 7, 8, 9]));
    assert_eq!(
        tables[1],
        ones(&[0x12, 0x23, 0x34, 0x45, 0x56, 0x67, 0x78, 0x89, 0x90])
    );
}

#[test]
fn ten_digits_in_a_row_late_dense() {
    let tables = count::<Variant<LateCount, VecCounter, StdNumeric>>(2, b"1234567890");
    assert_eq!(tables.len(), 2);
    assert_eq!(tables[0], ones(&[0, 1, 2, 3, 4, 5, 6, 7, 8, 9]));
    assert_eq!(
        tables[1],
        ones(&[0x12, 0x23, 0x34, 0x45, 0x56, 0x67, 0x78, 0x89, 0x90])
    );
}

#[test]
fn four_runs_between_underscores() {
    let data = b"_1234_5678_90_7";
    let width1 = vec![
        (0, 1),
        (1, 1),
        (2, 1),
        (3, 1),
        (4, 1),
        (5, 1),
        (6, 1),
        (7, 2),
        (8, 1),
        (9, 1),
    ];
    let width2 = ones(&[0x12, 0x23, 0x34, 0x56, 0x67, 0x78, 0x90]);
    let expected = vec![width1, width2];
    assert_eq!(count::<Variant<EarlyCount, HashMapCounter, StdNumeric>>(2, data), expected);
    assert_eq!(count::<Variant<LateCount, HashMapCounter, StdNumeric>>(2, data), expected);
    assert_eq!(count::<Variant<EarlyCount, VecCounter, StdNumeric>>(2, data), expected);
    assert_eq!(count::<Variant<LateCount, VecCounter, StdNumeric>>(2, data), expected);
}

#[test]
fn two_hexadecimal_digits() {
    let expected = vec![vec![(0xf, 2)], vec![(0xff, 1)]];
    assert_eq!(count::<Variant<EarlyCount, HashMapCounter, HexDigit>>(2, b"ff"), expected);
    assert_eq!(count::<Variant<LateCount, HashMapCounter, HexDigit>>(2, b"ff"), expected);
    assert_eq!(count::<Variant<EarlyCount, VecCounter, HexDigit>>(2, b"ff"), expected);
    assert_eq!(count::<Variant<LateCount, VecCounter, HexDigit>>(2, b"ff"), expected);
}

#[test]
fn dense_store_at_its_limit() {
    let data = b"0123456789abcdef_fedcba";
    let dense = count::<Variant<LateCount, VecCounter, HexDigit>>(6, data);
    let sparse = count::<Variant<EarlyCount, HashMapCounter, HexDigit>>(6, data);
    assert_eq!(dense, sparse);
    assert_eq!(dense[5].len(), 12);
    assert_eq!(dense[5][0], (0x012345, 1));
    assert_eq!(dense[5][11], (0xfedcba, 1));
}

#[test]
fn finalizing_is_told() {
    let mut counter = Variant::<EarlyCount, HashMapCounter, HexDigit>::new(2).unwrap();
    assert!(!counter.is_finalized());
    counter.on_byte(b'1');
    assert!(!counter.is_finalized());
    let counter = counter.finalize();
    assert!(counter.is_finalized());
    assert_eq!(counter.fed(), 1);
    assert_eq!(counter.into_count(), vec![vec![(1, 1)], vec![]]);
}

#[test]
fn width_above_register_is_refused() {
    let made = Variant::<EarlyCount, HashMapCounter, HexDigit>::new(17);
    assert!(matches!(made, Err(EngineError::InvalidWidth)));
    let made = Variant::<LateCount, VecCounter, HexDigit>::new(17);
    assert!(matches!(made, Err(EngineError::InvalidWidth)));
}

#[test]
fn dense_store_is_refused_above_its_limit() {
    let made = Variant::<EarlyCount, VecCounter, HexDigit>::new(7);
    assert!(matches!(made, Err(EngineError::BackendInfeasible)));
    let made = Variant::<EarlyCount, VecCounter, HexDigit>::new(16);
    assert!(matches!(made, Err(EngineError::BackendInfeasible)));
    assert!(Variant::<EarlyCount, HashMapCounter, HexDigit>::new(16).is_ok());
}
