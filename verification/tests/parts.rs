use numcount::counter::fold_prefixes;
use numcount::digits::{classify, digit_map};
use numcount::driver::{feed, find_marker, main_loop, skip_marker, Driver};
use numcount::hash::{hash_prefix, output_hash};
use numcount::listing::{list_tables, sort_entries};
use numcount::register::mask;
use numcount::text::{digit_string, keyed_counts, push_decimal, push_line, report};
use numcount::{
    is_not_numeric, BytesState, CountStrat, CounterForWidth, CounterStrategy, EarlyCount,
    EngineError, HashMapCounter, HashMapCounterWidth, HexDigit, LateCount, NumericType, Original,
    Process, StdNumeric, Variant, Variant1, VecCounter, VecCounterWidth, DENSE_MAX_DIGITS,
    HEX_MASKS, MAX_DIGITS, NOT_DIGIT,
};

#[test]
fn classifier_decimal() {
    for byte in 0..=255u8 {
        let expected = if byte.is_ascii_digit() { byte - b'0' } else { NOT_DIGIT };
        assert_eq!(classify::<StdNumeric>(byte), expected);
        assert_eq!(StdNumeric::is_numeric(byte), byte.is_ascii_digit());
    }
}

#[test]
fn classifier_hex() {
    for byte in 0..=255u8 {
        let expected = match byte {
            b'0'..=b'9' => byte - b'0',
            b'a'..=b'f' => byte - b'a' + 10,
            b'A'..=b'F' => byte - b'A' + 10,
            _ => NOT_DIGIT,
        };
        assert_eq!(classify::<HexDigit>(byte), expected);
        assert_eq!(digit_map(byte), expected);
        assert_eq!(HexDigit::is_numeric(byte), byte.is_ascii_hexdigit());
    }
}

#[test]
fn not_numeric() {
    assert!(!is_not_numeric::<StdNumeric>(&b"0123".to_vec()));
    assert!(is_not_numeric::<StdNumeric>(&b"01a3".to_vec()));
    assert!(!is_not_numeric::<HexDigit>(&b"01a3".to_vec()));
    assert!(is_not_numeric::<HexDigit>(&b"01g3".to_vec()));
    assert!(is_not_numeric::<HexDigit>(&b"_".to_vec()));
    assert!(!is_not_numeric::<HexDigit>(&Vec::new()));
}

#[test]
fn masks() {
    assert_eq!(HEX_MASKS.len(), MAX_DIGITS + 1);
    for width in 0..=16usize {
        let expected = if width == 16 { u64::MAX } else { (1u64 << (4 * width)) - 1 };
        assert_eq!(mask(width), expected);
        assert_eq!(HEX_MASKS[width], expected);
    }
}

#[test]
fn register_fills_and_slides() {
    let mut state = BytesState::new(3);
    assert_eq!((state.digits, state.current_number, state.current_digits), (3, 0, 0));
    assert!(!state.is_full());
    state.push(1);
    state.push(2);
    assert_eq!((state.current_number, state.current_digits), (0x12, 2));
    state.push(3);
    assert!(state.is_full());
    assert_eq!(state.current_number & mask(3), 0x123);
    state.push(4);
    assert_eq!((state.current_number, state.current_digits), (0x1234, 3));
    assert_eq!(state.current_number & mask(3), 0x234);
    assert_eq!(state.current_number & mask(1), 0x4);
    assert_eq!(state.current_number & mask(0), 0);
    state.clear();
    assert_eq!(state.current_digits, 0);
    state.push(0xf);
    assert_eq!(state.current_number & mask(1), 0xf);
}

#[test]
fn register_of_no_width_is_full() {
    let mut state = BytesState::new(0);
    assert!(state.is_full());
    state.push(7);
    assert_eq!(state.current_digits, 0);
}

#[test]
fn strategies_say_when_they_count() {
    assert!(!EarlyCount::count_late());
    assert!(LateCount::count_late());
}

fn table_counts<W: CounterForWidth>(mut table: W) {
    assert!(table.entries().is_empty());
    table.count_number(0x2a, 1);
    table.count_number(0x07, 3);
    table.count_number(0x2a, 2);
    let listed = sort_entries(table.entries());
    assert_eq!(listed, vec![(0x07, 3), (0x2a, 3)]);
}

#[test]
fn sparse_table_counts() {
    table_counts(HashMapCounterWidth::new(2));
}

#[test]
fn dense_table_counts() {
    table_counts(VecCounterWidth::new(2));
}

fn store_counts<C: CounterStrategy>() {
    let mut store = C::new(3);
    store.width(1).count_number(0x5, 1);
    store.width(3).count_number(0x123, 2);
    store.width(3).count_number(0x124, 1);
    store.width(3).count_number(0x200, 4);
    {
        let (current, prev) = store.width_and_prev_width(3);
        assert_eq!(sort_entries(current.entries()), vec![(0x123, 2), (0x124, 1), (0x200, 4)]);
        prev.count_number(0x12, 5);
    }
    assert_eq!(store.table(2).entries(), vec![(0x12, 5)]);
    assert_eq!(
        list_tables(&store, 3),
        vec![vec![(0x5, 1)], vec![(0x12, 5)], vec![(0x123, 2), (0x124, 1), (0x200, 4)]]
    );
    {
        let (current, prev) = store.width_and_prev_width(3);
        fold_prefixes(&*current, prev);
    }
    assert_eq!(sort_entries(store.table(2).entries()), vec![(0x12, 8), (0x20, 4)]);
}

#[test]
fn sparse_store_counts() {
    assert_eq!(HashMapCounter::limit(), MAX_DIGITS);
    store_counts::<HashMapCounter>();
}

#[test]
fn dense_store_counts() {
    assert_eq!(VecCounter::limit(), DENSE_MAX_DIGITS);
    assert_eq!(DENSE_MAX_DIGITS, 6);
    store_counts::<VecCounter>();
}

#[test]
fn sorting_orders_by_value() {
    let sorted = sort_entries(vec![(9, 1), (3, 7), (0xffff_ffff_ffff_ffff, 2), (0, 5), (4, 1)]);
    assert_eq!(sorted, vec![(0, 5), (3, 7), (4, 1), (9, 1), (0xffff_ffff_ffff_ffff, 2)]);
    assert!(sort_entries(Vec::new()).is_empty());
}

#[test]
fn digit_strings() {
    assert_eq!(digit_string(0x12af, 4), b"12af".to_vec());
    assert_eq!(digit_string(0x12af, 6), b"0012af".to_vec());
    assert_eq!(digit_string(0x12af, 2), b"af".to_vec());
    assert_eq!(digit_string(0, 1), b"0".to_vec());
    assert_eq!(digit_string(7, 0), Vec::<u8>::new());
    assert_eq!(digit_string(u64::MAX, 16), b"ffffffffffffffff".to_vec());
    assert_eq!(digit_string(0x0123456789abcdef, 16), b"0123456789abcdef".to_vec());
    assert_eq!(digit_string(1, 18), b"000000000000000001".to_vec());
}

#[test]
fn digit_strings_read_back() {
    let tables = {
        let mut counter = Variant::<LateCount, HashMapCounter, HexDigit>::new(3).unwrap();
        feed(&mut counter, b"0a9_fff_10");
        counter.finalize().into_count()
    };
    for (i, table) in tables.iter().enumerate() {
        for &(value, count) in table {
            let text = digit_string(value, i + 1);
            let again = {
                let mut counter = Variant::<EarlyCount, HashMapCounter, HexDigit>::new(3).unwrap();
                feed(&mut counter, &text);
                counter.finalize().into_count()
            };
            assert!(count >= 1);
            assert_eq!(again[i], vec![(value, 1)]);
        }
    }
}

#[test]
fn decimals() {
    let mut out = b"n=".to_vec();
    push_decimal(&mut out, 0);
    out.push(b' ');
    push_decimal(&mut out, 7);
    out.push(b' ');
    push_decimal(&mut out, 10);
    out.push(b' ');
    push_decimal(&mut out, 1234567890);
    out.push(b' ');
    push_decimal(&mut out, u64::MAX);
    assert_eq!(out, b"n=0 7 10 1234567890 18446744073709551615".to_vec());
}

#[test]
fn report_lines() {
    let mut out = Vec::new();
    push_line(&mut out, &vec![]);
    assert_eq!(out, b"0 []\n".to_vec());
    let mut out = Vec::new();
    push_line(&mut out, &vec![(3, 12)]);
    assert_eq!(out, b"1 [12]\n".to_vec());
    let mut out = b">".to_vec();
    push_line(&mut out, &vec![(0, 1), (5, 20), (9, 300)]);
    assert_eq!(out, b">3 [1, 20, 300]\n".to_vec());
}

#[test]
fn report_of_four_runs() {
    let mut counter = Variant::<EarlyCount, HashMapCounter, StdNumeric>::new(3).unwrap();
    feed(&mut counter, b"_1234_5678_90_7");
    let tables = counter.finalize().into_count();
    let text = report(&tables);
    let expected = format!(
        "{} {:?}\n{} {:?}\n{} {:?}\n",
        10,
        [1, 1, 1, 1, 1, 1, 1, 2, 1, 1],
        7,
        [1, 1, 1, 1, 1, 1, 1],
        4,
        [1, 1, 1, 1]
    );
    assert_eq!(text, expected.into_bytes());
    assert_eq!(report(&Vec::new()), Vec::<u8>::new());
}

#[test]
fn hash_of_known_inputs() {
    // The first four bytes of the SHA-256 digests of "" and "abc".
    assert_eq!(output_hash(b""), b"e3b0c442".to_vec());
    assert_eq!(output_hash(b"abc"), b"ba7816bf".to_vec());
    assert_ne!(output_hash(b"abc"), output_hash(b"abd"));
}

#[test]
fn hash_prefix_shows_four_bytes() {
    assert_eq!(hash_prefix(&[0x00, 0x1f, 0xa0, 0xff, 0x77]), b"001fa0ff".to_vec());
    assert_eq!(hash_prefix(&[0xab, 0x0c]), b"ab0c".to_vec());
    assert_eq!(hash_prefix(&[]), Vec::<u8>::new());
}

#[test]
fn marker_is_skipped() {
    assert_eq!(skip_marker(b"3.1415"), 2);
    assert_eq!(skip_marker(b".1415"), 1);
    assert_eq!(skip_marker(b"1415."), 5);
    assert_eq!(skip_marker(b"1415"), 4);
    assert_eq!(skip_marker(b""), 0);
    assert_eq!(skip_marker(b"a.b.c"), 2);
}

fn fed_by<P: Process>(data: &[u8], marker: bool) -> Vec<Vec<(u64, u64)>> {
    let mut counter = P::new(2).unwrap();
    assert!(counter.fed() as u128 + data.len() as u128 <= u64::MAX as u128);
    if marker {
        main_loop(&mut counter, data);
    } else {
        feed(&mut counter, data);
    }
    counter.finalize().into_count()
}

#[test]
fn main_loop_counts_what_follows_the_marker() {
    type Counter = Variant<LateCount, HashMapCounter, StdNumeric>;
    let expected = vec![vec![(1, 2), (4, 1), (5, 1)], vec![(0x14, 1), (0x15, 1), (0x41, 1)]];
    assert_eq!(fed_by::<Counter>(b"3.1415", true), expected);
    assert_eq!(fed_by::<Counter>(b"1415", false), expected);
    assert_eq!(fed_by::<Counter>(b"99.1415", true), expected);
    assert_eq!(fed_by::<Counter>(b"1415", true), vec![vec![], vec![]]);
    // Only the first marker is skipped; a later one is a byte like another.
    assert_eq!(
        fed_by::<Counter>(b"3.14.15", true),
        vec![vec![(1, 2), (4, 1), (5, 1)], vec![(0x14, 1), (0x15, 1)]]
    );
}

#[test]
fn feeding_adds_to_what_was_fed() {
    let mut counter = Variant1::new(2).unwrap();
    feed(&mut counter, b"12");
    assert_eq!(counter.fed(), 2);
    feed(&mut counter, b"3_");
    main_loop(&mut counter, b"xx.4");
    assert_eq!(counter.fed(), 5);
    let tables = counter.finalize().into_count();
    assert_eq!(tables[0], vec![(1, 1), (2, 1), (3, 1), (4, 1)]);
    assert_eq!(tables[1], vec![(0x12, 1), (0x23, 1)]);
}

#[test]
fn plain_counter_counts_the_same() {
    assert_eq!(
        fed_by::<Original<StdNumeric>>(b"_1234_5678_90_7", false),
        fed_by::<Variant<EarlyCount, HashMapCounter, StdNumeric>>(b"_1234_5678_90_7", false)
    );
    assert_eq!(
        fed_by::<Original<HexDigit>>(b"ff", false),
        vec![vec![(0xf, 2)], vec![(0xff, 1)]]
    );
    assert_eq!(
        fed_by::<Original<StdNumeric>>(b"ff", false),
        vec![vec![], vec![]]
    );
}

#[test]
fn plain_counter_refuses_a_width_above_the_register() {
    assert!(matches!(Original::<HexDigit>::new(17), Err(EngineError::InvalidWidth)));
    assert!(Original::<HexDigit>::new(16).is_ok());
}

#[test]
fn first_counter_is_eager_sparse_and_hexadecimal() {
    let mut counter = Variant1::new(5).unwrap();
    feed(&mut counter, b"1_23_456_7890_abcde_f01234");
    let tables = counter.finalize().into_count();
    assert_eq!(tables[4], vec![(0x01234, 1), (0xabcde, 1), (0xf0123, 1)]);
}

#[test]
fn marker_is_found() {
    assert_eq!(find_marker(b"3.1415"), Some(1));
    assert_eq!(find_marker(b"a.b.c"), Some(1));
    assert_eq!(find_marker(b"1415."), Some(4));
    assert_eq!(find_marker(b"1415"), None);
    assert_eq!(find_marker(b""), None);
}

fn driven(chunks: &[&[u8]]) -> Vec<Vec<(u64, u64)>> {
    let mut counter = Variant::<LateCount, HashMapCounter, StdNumeric>::new(3).unwrap();
    let mut driver = Driver::new();
    assert!(!driver.started);
    for chunk in chunks {
        assert!(counter.fed() as u128 + chunk.len() as u128 <= u64::MAX as u128);
        driver.push(&mut counter, chunk);
    }
    counter.finalize().into_count()
}

#[test]
fn driver_feeds_what_follows_the_marker() {
    let whole = fed_by3(b"99.14159_26");
    assert_eq!(driven(&[b"99.14159_26"]), whole);
    assert_eq!(driven(&[b"99", b".14159_26"]), whole);
    assert_eq!(driven(&[b"9", b"9.", b"141", b"", b"59_", b"26"]), whole);
    assert_eq!(driven(&[b"99.", b"14159_26"]), whole);
    // A second marker is a byte like another, in the same buffer or a later one.
    assert_eq!(driven(&[b"1.2.3"]), driven(&[b"1.2", b".3"]));
    assert_eq!(driven(&[b"1.2.3"])[0], vec![(2, 1), (3, 1)]);
    assert_eq!(driven(&[b"1.2.3"])[1], vec![]);
    // Without a marker nothing is fed.
    assert_eq!(driven(&[b"123", b"456"]), vec![vec![], vec![], vec![]]);
}

fn fed_by3(data: &[u8]) -> Vec<Vec<(u64, u64)>> {
    let mut counter = Variant::<LateCount, HashMapCounter, StdNumeric>::new(3).unwrap();
    main_loop(&mut counter, data);
    counter.finalize().into_count()
}

#[test]
fn driver_remembers_the_marker() {
    let mut counter = Variant1::new(1).unwrap();
    let mut driver = Driver::new();
    driver.push(&mut counter, b"12");
    assert!(!driver.started);
    assert_eq!(counter.fed(), 0);
    driver.push(&mut counter, b"3.4");
    assert!(driver.started);
    assert_eq!(counter.fed(), 1);
    driver.push(&mut counter, b"56");
    assert_eq!(counter.fed(), 3);
}

#[test]
fn counts_keyed_by_their_digits() {
    let tables = vec![vec![(0x1, 1), (0xa, 2)], vec![(0x0a, 7), (0x1a, 1)], vec![], vec![(0x00ff, 3)]];
    let keyed = keyed_counts(&tables);
    assert_eq!(
        keyed,
        vec![
            (b"1".to_vec(), 1),
            (b"a".to_vec(), 2),
            (b"0a".to_vec(), 7),
            (b"1a".to_vec(), 1),
            (b"00ff".to_vec(), 3),
        ]
    );
    assert!(keyed_counts(&Vec::new()).is_empty());
}

#[test]
fn keys_of_a_counter_are_all_different() {
    let mut counter = Variant::<EarlyCount, HashMapCounter, HexDigit>::new(4).unwrap();
    feed(&mut counter, b"0011_0001_1000_aAbB_0a_00a");
    let keyed = keyed_counts(&counter.finalize().into_count());
    for (i, (key, _)) in keyed.iter().enumerate() {
        for (other, _) in &keyed[i + 1..] {
            assert_ne!(key, other);
        }
    }
    assert!(keyed.contains(&(b"aabb".to_vec(), 1)));
    assert!(keyed.contains(&(b"00".to_vec(), 6)));
}
