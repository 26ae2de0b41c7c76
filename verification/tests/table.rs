use slot_table::{HashTable, State, TABLE_SIZE};

const LETTERS: [&str; 26] = [
    "a", "b", "c", "d", "e", "f", "g", "h", "i", "j", "k", "l", "m", "n", "o", "p", "q", "r", "s",
    "t", "u", "v", "w", "x", "y", "z",
];

fn states(table: &HashTable) -> Vec<State> {
    table.entries().iter().map(|entry| entry.2).collect()
}

fn occupied(table: &HashTable) -> usize {
    states(table).iter().filter(|state| **state == State::Occupied).count()
}

#[test]
fn new_table_has_26_unused_slots() {
    let table = HashTable::new();
    let entries = table.entries();
    assert_eq!(TABLE_SIZE, 26);
    assert_eq!(entries.len(), 26);
    for (i, entry) in entries.iter().enumerate() {
        assert_eq!(*entry, (i, "", State::NeverUsed));
    }
}

#[test]
fn default_table_equals_new_table() {
    let table: HashTable = Default::default();
    assert_eq!(table.entries(), HashTable::new().entries());
}

#[test]
fn hash_is_the_position_of_the_last_letter() {
    let table = HashTable::new();
    assert_eq!(table.hash("a"), 0);
    assert_eq!(table.hash("z"), 25);
    assert_eq!(table.hash("apple"), 4);
    assert_eq!(table.hash("grape"), 4);
    assert_eq!(table.hash("orange"), 4);
    assert_eq!(table.hash("strawberry"), 24);
    assert_eq!(table.hash("za"), 0);
    assert_eq!(table.hash("az"), 25);
    assert_eq!(table.hash("abcdefghij"), 9);
    for (i, letter) in LETTERS.iter().enumerate() {
        assert_eq!(table.hash(letter), i);
    }
}

#[test]
fn add_stores_the_key_in_its_home_slot() {
    let mut table = HashTable::new();
    assert!(table.add("apple"));
    let entries = table.entries();
    assert_eq!(entries[4], (4, "apple", State::Occupied));
    for (i, entry) in entries.iter().enumerate() {
        if i != 4 {
            assert_eq!(*entry, (i, "", State::NeverUsed));
        }
    }
}

#[test]
fn colliding_key_lands_in_the_next_slot() {
    let mut table = HashTable::new();
    assert!(table.add("a"));
    assert!(table.add("ba"));
    let entries = table.entries();
    assert_eq!(entries[0], (0, "a", State::Occupied));
    assert_eq!(entries[1], (1, "ba", State::Occupied));
    assert_eq!(occupied(&table), 2);
}

#[test]
fn colliding_key_skips_every_occupied_slot() {
    let mut table = HashTable::new();
    assert!(table.add("c"));
    assert!(table.add("d"));
    assert!(table.add("e"));
    assert!(table.add("xc"));
    let entries = table.entries();
    assert_eq!(entries[2], (2, "c", State::Occupied));
    assert_eq!(entries[3], (3, "d", State::Occupied));
    assert_eq!(entries[4], (4, "e", State::Occupied));
    assert_eq!(entries[5], (5, "xc", State::Occupied));
}

#[test]
fn probe_wraps_from_the_last_slot_to_the_first() {
    let mut table = HashTable::new();
    assert!(table.add("z"));
    assert!(table.add("az"));
    let entries = table.entries();
    assert_eq!(entries[25], (25, "z", State::Occupied));
    assert_eq!(entries[0], (0, "az", State::Occupied));
}

#[test]
fn probe_wraps_and_goes_on_past_occupied_slots() {
    let mut table = HashTable::new();
    assert!(table.add("y"));
    assert!(table.add("z"));
    assert!(table.add("a"));
    assert!(table.add("b"));
    assert!(table.add("my"));
    let entries = table.entries();
    assert_eq!(entries[24], (24, "y", State::Occupied));
    assert_eq!(entries[25], (25, "z", State::Occupied));
    assert_eq!(entries[0], (0, "a", State::Occupied));
    assert_eq!(entries[1], (1, "b", State::Occupied));
    assert_eq!(entries[2], (2, "my", State::Occupied));
}

#[test]
fn probe_takes_a_tombstoned_slot_on_its_way() {
    let mut table = HashTable::new();
    assert!(table.add("c"));
    assert!(table.add("d"));
    assert!(table.add("e"));
    assert!(table.delete("d"));
    assert!(table.add("xc"));
    let entries = table.entries();
    assert_eq!(entries[2], (2, "c", State::Occupied));
    assert_eq!(entries[3], (3, "xc", State::Occupied));
    assert_eq!(entries[4], (4, "e", State::Occupied));
}

#[test]
fn adding_a_key_twice_stores_it_twice() {
    let mut table = HashTable::new();
    assert!(table.add("apple"));
    assert!(table.add("apple"));
    let entries = table.entries();
    assert_eq!(entries[4], (4, "apple", State::Occupied));
    assert_eq!(entries[5], (5, "apple", State::Occupied));
}

#[test]
fn full_table_refuses_a_27th_key() {
    let mut table = HashTable::new();
    for letter in LETTERS.iter() {
        assert!(table.add(letter));
    }
    assert_eq!(occupied(&table), 26);
    let before = table.entries();
    for (i, entry) in before.iter().enumerate() {
        assert_eq!(*entry, (i, LETTERS[i], State::Occupied));
    }
    assert!(!table.add("extra"));
    assert!(!table.add("a"));
    assert!(!table.add("z"));
    assert_eq!(table.entries(), before);
}

#[test]
fn one_home_slot_fills_the_whole_table() {
    let mut table = HashTable::new();
    for count in 0..26 {
        assert_eq!(occupied(&table), count);
        assert!(table.add("kiwi"));
    }
    let before = table.entries();
    for (i, entry) in before.iter().enumerate() {
        assert_eq!(*entry, (i, "kiwi", State::Occupied));
    }
    assert!(!table.add("kiwi"));
    assert_eq!(table.entries(), before);
}

#[test]
fn last_free_slot_is_found_from_every_home() {
    for free in 0..26 {
        for home in 0..26 {
            let mut table = HashTable::new();
            for letter in LETTERS.iter() {
                assert!(table.add(letter));
            }
            assert!(table.delete(LETTERS[free]));
            assert!(table.add(LETTERS[home]));
            let entries = table.entries();
            assert_eq!(entries[free], (free, LETTERS[home], State::Occupied));
            assert_eq!(occupied(&table), 26);
        }
    }
}

#[test]
fn tombstoned_slot_is_used_again() {
    let mut table = HashTable::new();
    assert!(table.add("x"));
    assert_eq!(table.entries()[23], (23, "x", State::Occupied));
    assert!(table.delete("x"));
    assert_eq!(table.entries()[23], (23, "x", State::Tombstoned));
    assert!(table.add("yx"));
    let entries = table.entries();
    assert_eq!(entries[23], (23, "yx", State::Occupied));
    assert_eq!(occupied(&table), 1);
    for (i, entry) in entries.iter().enumerate() {
        if i != 23 {
            assert_eq!(*entry, (i, "", State::NeverUsed));
        }
    }
}

#[test]
fn tombstone_reuse_when_the_first_key_was_sent_elsewhere() {
    let mut table = HashTable::new();
    assert!(table.add("e"));
    assert!(table.add("apple"));
    assert_eq!(table.entries()[5], (5, "apple", State::Occupied));
    assert!(table.delete("apple"));
    assert_eq!(table.entries()[4], (4, "e", State::Tombstoned));
    assert!(table.add("grape"));
    let entries = table.entries();
    assert_eq!(entries[4], (4, "grape", State::Occupied));
    assert_eq!(entries[5], (5, "apple", State::Occupied));
}

#[test]
fn delete_keeps_the_key_in_the_tombstoned_slot() {
    let mut table = HashTable::new();
    assert!(table.add("apple"));
    assert!(table.delete("apple"));
    assert_eq!(table.entries()[4], (4, "apple", State::Tombstoned));
}

#[test]
fn delete_looks_at_the_home_slot_only() {
    let mut table = HashTable::new();
    assert!(table.add("a"));
    assert!(table.add("ba"));
    assert_eq!(table.entries()[1], (1, "ba", State::Occupied));
    assert!(table.delete("ba"));
    let entries = table.entries();
    assert_eq!(entries[0], (0, "a", State::Tombstoned));
    assert_eq!(entries[1], (1, "ba", State::Occupied));
    assert!(!table.delete("ba"));
    assert_eq!(table.entries(), entries);
}

#[test]
fn delete_misses_a_probed_key_once_its_home_is_vacant() {
    let mut table = HashTable::new();
    assert!(table.add("a"));
    assert!(table.add("ba"));
    assert!(table.delete("a"));
    let before = table.entries();
    assert_eq!(before[0], (0, "a", State::Tombstoned));
    assert_eq!(before[1], (1, "ba", State::Occupied));
    assert!(!table.delete("ba"));
    assert_eq!(table.entries(), before);
}

#[test]
fn delete_does_not_compare_keys() {
    let mut table = HashTable::new();
    assert!(table.add("apple"));
    assert!(table.delete("grape"));
    assert_eq!(table.entries()[4], (4, "apple", State::Tombstoned));
}

#[test]
fn failed_delete_on_unused_slot_changes_nothing() {
    let mut table = HashTable::new();
    assert!(table.add("b"));
    let before = table.entries();
    assert!(!table.delete("a"));
    assert!(!table.delete("a"));
    assert!(!table.delete("pizza"));
    assert_eq!(table.entries(), before);
}

#[test]
fn failed_delete_on_tombstoned_slot_changes_nothing() {
    let mut table = HashTable::new();
    assert!(table.add("a"));
    assert!(table.delete("a"));
    let before = table.entries();
    assert_eq!(before[0], (0, "a", State::Tombstoned));
    assert!(!table.delete("a"));
    assert!(!table.delete("a"));
    assert_eq!(table.entries(), before);
}

#[test]
fn slot_never_returns_to_unused() {
    let mut table = HashTable::new();
    assert!(table.add("q"));
    assert_eq!(states(&table)[16], State::Occupied);
    assert!(table.delete("q"));
    assert_eq!(states(&table)[16], State::Tombstoned);
    assert!(!table.delete("q"));
    assert_eq!(states(&table)[16], State::Tombstoned);
    assert!(table.add("q"));
    assert_eq!(states(&table)[16], State::Occupied);
}

#[test]
fn wrap_next_index_hands_out_the_start_slot_of_a_new_table() {
    let mut table = HashTable::new();
    {
        let slot = table.wrap_next_index(7).expect("a new table has room");
        assert_eq!(*slot, ("", State::NeverUsed));
        slot.0 = "h";
        slot.1 = State::Occupied;
    }
    let entries = table.entries();
    assert_eq!(entries[7], (7, "h", State::Occupied));
    assert_eq!(occupied(&table), 1);
}

#[test]
fn wrap_next_index_probes_past_occupied_slots_and_wraps() {
    let mut table = HashTable::new();
    assert!(table.add("y"));
    assert!(table.add("z"));
    assert!(table.add("a"));
    {
        let slot = table.wrap_next_index(24).expect("the table has room");
        slot.0 = "found";
        slot.1 = State::Tombstoned;
    }
    assert_eq!(table.entries()[1], (1, "found", State::Tombstoned));
    {
        let slot = table.wrap_next_index(24).expect("the table has room");
        assert_eq!(*slot, ("found", State::Tombstoned));
    }
    assert_eq!(table.entries()[1], (1, "found", State::Tombstoned));
}

#[test]
fn wrap_next_index_from_the_table_size_starts_at_slot_0() {
    let mut table = HashTable::new();
    assert!(table.add("a"));
    {
        let slot = table.wrap_next_index(TABLE_SIZE).expect("the table has room");
        slot.0 = "second";
        slot.1 = State::Occupied;
    }
    assert_eq!(table.entries()[1], (1, "second", State::Occupied));
}

#[test]
fn wrap_next_index_finds_nothing_in_a_full_table() {
    let mut table = HashTable::new();
    for letter in LETTERS.iter() {
        assert!(table.add(letter));
    }
    let before = table.entries();
    for start in 0..=TABLE_SIZE {
        assert!(table.wrap_next_index(start).is_none());
    }
    assert_eq!(table.entries(), before);
}

#[test]
fn end_to_end_by_calls() {
    let mut table = HashTable::new();
    assert_eq!(table.hash("apple"), 4);
    assert!(table.add("apple"));
    assert!(table.add("grape"));
    assert_eq!(table.entries()[5], (5, "grape", State::Occupied));
    assert!(table.delete("apple"));
    assert_eq!(table.entries()[4], (4, "apple", State::Tombstoned));
    assert_eq!(table.hash("strawberry"), 24);
    assert!(table.add("strawberry"));
    assert!(table.add("orange"));
    let entries = table.entries();
    assert_eq!(entries[4], (4, "orange", State::Occupied));
    assert_eq!(entries[5], (5, "grape", State::Occupied));
    assert_eq!(entries[24], (24, "strawberry", State::Occupied));
    assert_eq!(occupied(&table), 3);
    for (i, entry) in entries.iter().enumerate() {
        if i != 4 && i != 5 && i != 24 {
            assert_eq!(*entry, (i, "", State::NeverUsed));
        }
    }
}
