use numcount::{
    EarlyCount, HashMapCounter, HexDigit, LateCount, Process, Variant, DIGIT_MAP,
};

fn test_out<P: Process>(d: usize, b: &[u8]) -> Vec<Vec<(u64, u64)>> {
    let mut a = P::new(d).unwrap();
    for b in b.iter().copied() {
        assert!(a.fed() < u64::MAX);
        a.on_byte(b);
    }
    let tables = a.finalize().into_count();
    for digits in (1..(d + 1)).rev() {
        println!("Digit counts for width = {}", digits);
        for (number, count) in tables[digits - 1].iter() {
            println!("  {:0width$x}: {}", number, count, width = digits);
        }
    }
    tables
}

fn total(table: &[(u64, u64)]) -> u64 {
    table.iter().map(|&(_, count)| count).sum()
}

#[test]
fn kimundi_test_main() {
    type Ctx = Variant<EarlyCount, HashMapCounter, HexDigit>;
    println!("-1----------------------------");
    let tables = test_out::<Ctx>(2, b"1234567890");
    assert_eq!(total(&tables[0]), 10);
    assert_eq!(total(&tables[1]), 9);
    println!("-2----------------------------");
    let tables = test_out::<Ctx>(2, b"_1234_5678_90_7");
    assert_eq!(total(&tables[0]), 11);
    assert_eq!(total(&tables[1]), 7);
    println!("-3----------------------------");
    let tables = test_out::<Ctx>(5, b"1234567890_ffff");
    assert_eq!(tables[0], vec![
        (0, 1), (1, 1), (2, 1), (3, 1), (4, 1), (5, 1), (6, 1), (7, 1), (8, 1), (9, 1), (15, 4),
    ]);
    assert_eq!(tables[3].last(), Some(&(0xffff, 1)));
    assert_eq!(total(&tables[4]), 6);
    println!("-4----------------------------");
    let tables = test_out::<Ctx>(5, b"1_23_456_7890_abcde_f01234");
    assert_eq!(total(&tables[0]), 21);
    assert_eq!(total(&tables[4]), 3);
    assert_eq!(tables[4], vec![(0x01234, 1), (0xabcde, 1), (0xf0123, 1)]);
    println!("-5----------------------------");
    let tables = test_out::<Ctx>(5, b"1_23_456_7890_abcde_f012341_23_456_123");
    assert_eq!(total(&tables[0]), 30);
    assert_eq!(tables[4], vec![(0x01234, 1), (0x12341, 1), (0xabcde, 1), (0xf0123, 1)]);
    println!("-fin--------------------------");
}

#[test]
fn kimundi_test_map() {
    assert_eq!(DIGIT_MAP[b'a' as usize], 10);
    assert_eq!(DIGIT_MAP[b'f' as usize], 15);
    assert_eq!(DIGIT_MAP[b'A' as usize], 10);
    assert_eq!(DIGIT_MAP[b'F' as usize], 15);
    assert_eq!(DIGIT_MAP[b'0' as usize], 0);
    assert_eq!(DIGIT_MAP[b'9' as usize], 9);
    assert_eq!(DIGIT_MAP[b'_' as usize], 255);
}

#[test]
fn variant_test_main() {
    type Ctx = Variant<LateCount, HashMapCounter, HexDigit>;
    println!("-1----------------------------");
    let tables = test_out::<Ctx>(2, b"1234567890");
    assert_eq!(total(&tables[0]), 10);
    assert_eq!(total(&tables[1]), 9);
    println!("-2----------------------------");
    let tables = test_out::<Ctx>(2, b"_1234_5678_90_7");
    assert_eq!(total(&tables[0]), 11);
    assert_eq!(total(&tables[1]), 7);
    println!("-3----------------------------");
    let tables = test_out::<Ctx>(5, b"1234567890_ffff");
    assert_eq!(tables[3].last(), Some(&(0xffff, 1)));
    assert_eq!(total(&tables[4]), 6);
    println!("-4----------------------------");
    let tables = test_out::<Ctx>(5, b"1_23_456_7890_abcde_f01234");
    assert_eq!(tables[4], vec![(0x01234, 1), (0xabcde, 1), (0xf0123, 1)]);
    println!("-5----------------------------");
    let tables = test_out::<Ctx>(5, b"1_23_456_7890_abcde_987654_f012341_23_456_123");
    assert_eq!(total(&tables[0]), 36);
    assert_eq!(
        tables[4],
        vec![
            (0x01234, 1),
            (0x12341, 1),
            (0x87654, 1),
            (0x98765, 1),
            (0xabcde, 1),
            (0xf0123, 1),
        ]
    );
    println!("-fin--------------------------");
}

#[test]
fn variant_test_map() {
    assert_eq!(DIGIT_MAP[b'a' as usize], 10);
    assert_eq!(DIGIT_MAP[b'f' as usize], 15);
    assert_eq!(DIGIT_MAP[b'A' as usize], 10);
    assert_eq!(DIGIT_MAP[b'F' as usize], 15);
    assert_eq!(DIGIT_MAP[b'0' as usize], 0);
    assert_eq!(DIGIT_MAP[b'9' as usize], 9);
    assert_eq!(DIGIT_MAP[b'_' as usize], 255);
}
