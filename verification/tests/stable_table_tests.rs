use brane::stable_table::{StableTable, StableTableKey};

fn key(index: usize, version: usize) -> StableTableKey {
    StableTableKey { index, version }
}

#[test]
fn add_then_get_returns_value() {
    let mut table: StableTable<StableTableKey, u32> = StableTable::new();
    let a = table.add(10);
    let b = table.add(20);
    assert_eq!(a, key(0, 0));
    assert_eq!(b, key(1, 0));
    assert_eq!(table.get(a), Some(&10));
    assert_eq!(table.get(b), Some(&20));
}

#[test]
fn get_with_unknown_index_or_version_is_none() {
    let mut table: StableTable<StableTableKey, u32> = StableTable::new();
    let a = table.add(1);
    assert_eq!(table.get(key(5, 0)), None);
    assert_eq!(table.get(key(a.index, 3)), None);
}

#[test]
fn remove_invalidates_key_and_reports_success() {
    let mut table: StableTable<StableTableKey, u32> = StableTable::new();
    let a = table.add(7);
    assert!(table.remove(a));
    assert_eq!(table.get(a), None);
    // Removing again finds nothing.
    assert!(!table.remove(a));
    assert!(!table.remove(key(9, 0)));
}

#[test]
fn removed_slot_is_reused_with_bumped_version() {
    let mut table: StableTable<StableTableKey, u32> = StableTable::new();
    let a = table.add(1);
    let b = table.add(2);
    assert!(table.remove(a));
    let c = table.add(3);
    assert_eq!(c, key(0, 1));
    assert_eq!(table.get(c), Some(&3));
    assert_eq!(table.get(a), None);
    // The other key never changed.
    assert_eq!(table.get(b), Some(&2));
    assert_eq!(table.entries.len(), 2);
}

#[test]
fn remove_leaves_other_slots() {
    let mut table: StableTable<StableTableKey, &str> = StableTable::new();
    let a = table.add("a");
    let b = table.add("b");
    let c = table.add("c");
    assert!(table.remove(b));
    assert_eq!(table.get(a), Some(&"a"));
    assert_eq!(table.get(c), Some(&"c"));
}

#[test]
fn get_mut_changes_only_that_value() {
    let mut table: StableTable<StableTableKey, u32> = StableTable::new();
    let a = table.add(1);
    let b = table.add(2);
    if let Some(v) = table.get_mut(a) {
        *v = 100;
    }
    assert_eq!(table.get(a), Some(&100));
    assert_eq!(table.get(b), Some(&2));
    assert!(table.get_mut(key(a.index, 1)).is_none());
}

#[test]
fn index_and_index_mut() {
    let mut table: StableTable<StableTableKey, String> = StableTable::new();
    let a = table.add("x".to_string());
    assert_eq!(table.index(a), "x");
    table.index_mut(a).push('y');
    assert_eq!(table.index(a), "xy");
}

#[test]
fn iter_visits_slots_in_order_with_current_keys() {
    let mut table: StableTable<StableTableKey, u32> = StableTable::new();
    let a = table.add(1);
    table.add(2);
    table.add(3);
    assert!(table.remove(a));
    let mut it = table.iter();
    let mut seen = Vec::new();
    while let Some((k, v)) = it.next() {
        seen.push((k, *v));
    }
    // A removed slot keeps its value and is still visited, under its new
    // version.
    assert_eq!(seen, vec![(key(0, 1), 1), (key(1, 0), 2), (key(2, 0), 3)]);
}

#[test]
fn iter_mut_changes_values_in_place() {
    let mut table: StableTable<StableTableKey, u32> = StableTable::new();
    table.add(1);
    table.add(2);
    {
        let mut it = table.iter_mut();
        while let Some((_, v)) = it.next() {
            *v *= 10;
        }
    }
    assert_eq!(table.get(key(0, 0)), Some(&10));
    assert_eq!(table.get(key(1, 0)), Some(&20));
}

#[test]
fn default_table_is_empty() {
    let table: StableTable<StableTableKey, u8> = StableTable::default();
    assert!(table.entries.is_empty());
    assert!(table.unused_keys.is_empty());
}

#[test]
fn freed_slot_cannot_be_freed_twice() {
    let mut table: StableTable<StableTableKey, u32> = StableTable::new();
    let a = table.add(1);
    let b = table.add(2);
    assert!(table.remove(a));
    // The slot's next key is on the free stack; removing it is refused.
    assert!(!table.remove(key(0, 1)));
    assert_eq!(table.unused_keys, vec![key(0, 1)]);
    let c = table.add(3);
    let d = table.add(4);
    assert_eq!(c, key(0, 1));
    assert_eq!(d, key(2, 0));
    assert_eq!(table.get(b), Some(&2));
    assert_eq!(table.get(c), Some(&3));
}

#[test]
fn removed_key_is_never_revived() {
    let mut table: StableTable<StableTableKey, u32> = StableTable::new();
    let k0 = table.add(5);
    assert!(table.remove(k0));
    for round in 0..4u32 {
        let k = table.add(round);
        assert_ne!(k, k0);
        assert_eq!(table.get(k0), None);
        assert!(table.remove(k));
        assert_eq!(table.get(k0), None);
    }
}
