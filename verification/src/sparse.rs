//! The sparse count store: one hash map for every width, keyed by value and
//! hashed with the Fx hasher.

use crate::counter::{lists, well_formed, CounterForWidth, CounterStrategy};
use crate::model::{pow16, MAX_DIGITS};
use fxhash::FxHasher;
use std::collections::hash_map::Entry;
use std::collections::HashMap;
use std::hash::BuildHasherDefault;
use vstd::prelude::*;
use vstd::std_specs::hash::EntrySpecFns;

verus! {

/// `fxhash::FxHasher`, carried through as it is.
#[verifier::external_type_specification]
#[verifier::external_body]
pub struct ExFxHasher(FxHasher);

/// `std::hash::BuildHasherDefault`, carried through as it is.
#[verifier::external_type_specification]
#[verifier::external_body]
#[verifier::reject_recursive_types(H)]
pub struct ExBuildHasherDefault<H>(BuildHasherDefault<H>);

/// A hash map that hashes with the Fx hasher.
pub type FastHashMap<K, V> = HashMap<K, V, BuildHasherDefault<FxHasher>>;

/// `HashMap::entry` on a map that hashes its `u64` keys with
/// `fxhash::FxHasher`.
///
/// The hasher starts from the same state for every key and holds nothing
/// but what was written to it, so equal keys hash alike and the map finds
/// every key that it holds. Hence the entry is that of `key`, and it holds
/// the value that the map has for `key`, if any. When the entry is let go,
/// the map is the one from before with the entry's last value for `key`, or
/// without `key` if the entry was left without a value.
#[verifier::external_body]
fn fx_entry<'a>(map: &'a mut FastHashMap<u64, u64>, key: u64) -> (entry: Entry<'a, u64, u64>)
    ensures
        entry.spec_key() == key,
        entry.value() == old(map)@.get(key),
        final(map)@ == (match entry.final_value() {
            Some(value) => old(map)@.insert(key, value),
            None => old(map)@.remove(key),
        }),
{
    map.entry(key)
}

/// `HashMap::iter` on a map that hashes its `u64` keys with
/// `fxhash::FxHasher`, each pair copied out.
///
/// The list holds every key of the map once, with its value, and nothing
/// else. Nothing is said of the order.
#[verifier::external_body]
fn fx_pairs(map: &FastHashMap<u64, u64>) -> (list: Vec<(u64, u64)>)
    ensures
        forall|j: int|
            0 <= j < list@.len() ==> map@.contains_key((#[trigger] list@[j]).0) && map@[list@[j].0]
                == list@[j].1,
        forall|j: int, k: int| 0 <= j < k < list@.len() ==> list@[j].0 != list@[k].0,
        forall|key: u64| #[trigger]
            map@.contains_key(key) ==> exists|j: int|
                0 <= j < list@.len() && #[trigger] list@[j].0 == key,
{
    map.iter().map(|(key, value)| (*key, *value)).collect()
}

/// The table of one width, as a hash map from value to count.
pub struct HashMapCounterWidth {
    map: FastHashMap<u64, u64>,
    width: usize,
}

impl HashMapCounterWidth {
    /// An empty table for `width`.
    pub fn new(width: usize) -> (table: Self)
        requires
            width <= MAX_DIGITS,
        ensures
            table.well_formed(),
            table.width() == width,
            forall|x: nat| #[trigger] table.count(x) == 0,
    {
        HashMapCounterWidth { map: HashMap::default(), width }
    }
}

impl CounterForWidth for HashMapCounterWidth {
    closed spec fn width(&self) -> nat {
        self.width as nat
    }

    closed spec fn count(&self, value: nat) -> nat {
        if value <= u64::MAX && self.map@.contains_key(value as u64) {
            self.map@[value as u64] as nat
        } else {
            0
        }
    }

    closed spec fn well_formed(&self) -> bool {
        &&& self.width <= MAX_DIGITS
        &&& forall|key: u64| #[trigger]
            self.map@.contains_key(key) ==> self.map@[key] >= 1 && key < pow16(self.width as nat)
    }

    proof fn lemma_counted_in_range(&self, x: nat) {
        assert(self.map@.contains_key(x as u64));
    }

    fn count_number(&mut self, v: u64, delta: u64) {
        let slot = fx_entry(&mut self.map, v).or_insert(0);
        *slot = *slot + delta;
    }

    fn entries(&self) -> (list: Vec<(u64, u64)>) {
        let list = fx_pairs(&self.map);
        proof {
            let count = |x: nat| self.count(x);
            assert forall|x: nat| #[trigger] count(x) >= 1 implies exists|j: int|
                0 <= j < list@.len() && #[trigger] list@[j].0 == x by {
                assert(self.map@.contains_key(x as u64));
            }
            assert(lists(list@, count));
        }
        list
    }
}

/// The sparse store: a hash map for every width. It holds no more than what
/// was counted, so it serves every width that the register has room for.
pub struct HashMapCounter {
    count_maps: Vec<HashMapCounterWidth>,
}

impl CounterStrategy for HashMapCounter {
    type ForWidth = HashMapCounterWidth;

    closed spec fn tables(&self) -> Seq<HashMapCounterWidth> {
        self.count_maps@
    }

    open spec fn max_digits() -> nat {
        MAX_DIGITS as nat
    }

    fn limit() -> (digits: usize) {
        MAX_DIGITS
    }

    fn new(digits: usize) -> (store: Self) {
        let mut count_maps: Vec<HashMapCounterWidth> = Vec::new();
        let mut number_width: usize = 0;
        while number_width < digits + 1
            invariant
                digits <= MAX_DIGITS,
                number_width <= digits + 1,
                count_maps@.len() == number_width,
                forall|w: int|
                    0 <= w < number_width ==> (#[trigger] count_maps@[w]).well_formed()
                        && count_maps@[w].width() == w,
                forall|w: int, x: nat|
                    0 <= w < number_width ==> #[trigger] count_maps@[w].count(x) == 0,
            decreases digits + 1 - number_width,
        {
            count_maps.push(HashMapCounterWidth::new(number_width));
            number_width += 1;
        }
        HashMapCounter { count_maps }
    }

    fn width_and_prev_width(&mut self, width: usize) -> (pair: (
        &mut HashMapCounterWidth,
        &mut HashMapCounterWidth,
    )) {
        let (prev, current) = self.count_maps.as_mut_slice().split_at_mut(width);
        let current = current.first_mut().unwrap();
        let prev = prev.last_mut().unwrap();
        (current, prev)
    }

    fn width(&mut self, width: usize) -> (table: &mut HashMapCounterWidth) {
        &mut self.count_maps[width]
    }

    fn table(&self, width: usize) -> (table: &HashMapCounterWidth) {
        &self.count_maps[width]
    }
}

} // verus!
