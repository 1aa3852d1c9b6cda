use mesi_cache::cache::{CacheEntry, CacheTable, Permission};
use mesi_cache::messages::{Message, MessageType};

fn entry(address: i32, data: &str) -> CacheEntry {
    CacheEntry { address, data: data.to_string(), dirty: false, permission: Permission::Shared }
}

fn holds(t: &mut CacheTable, address: i32) -> bool {
    t.get(&address).is_some()
}

#[test]
fn new_table_is_empty() {
    let t = CacheTable::new(4);
    assert_eq!(t.len(), 0);
    assert!(t.is_empty());
}

#[test]
fn inserts_below_capacity_evict_nothing() {
    let mut t = CacheTable::new(3);
    for a in 1..=3 {
        assert_eq!(t.insert(entry(a, "x")), None);
        assert_eq!(t.len(), a as usize);
    }
    assert!(!t.is_empty());
}

#[test]
fn inserts_past_capacity_keep_len_at_capacity() {
    let mut t = CacheTable::new(3);
    for a in 1..=10 {
        t.insert(entry(a, "x"));
        assert_eq!(t.len(), std::cmp::min(a as usize, 3));
    }
}

#[test]
fn lru_ordering_spares_recently_read_entry() {
    let mut t = CacheTable::new(3);
    t.insert(entry(1, "a"));
    t.insert(entry(2, "b"));
    t.insert(entry(3, "c"));
    assert!(holds(&mut t, 1));
    let evicted = t.insert(entry(4, "d"));
    assert_eq!(evicted, Some(entry(2, "b")));
    assert!(t.get(&2).is_none());
    assert!(holds(&mut t, 1));
    assert!(holds(&mut t, 3));
    assert!(holds(&mut t, 4));
}

#[test]
fn update_permission_promotes_entry() {
    let mut t = CacheTable::new(2);
    t.insert(entry(1, "a"));
    t.insert(entry(2, "b"));
    assert!(t.update_permission(1, Permission::Modified));
    let evicted = t.insert(entry(3, "c"));
    assert_eq!(evicted.map(|e| e.address), Some(2));
    let kept = t.get(&1).unwrap();
    assert_eq!(kept.permission, Permission::Modified);
    assert_eq!(kept.data, "a");
}

#[test]
fn update_permission_on_absent_address() {
    let mut t = CacheTable::new(2);
    t.insert(entry(1, "a"));
    assert!(!t.update_permission(7, Permission::Exclusive));
    assert_eq!(t.len(), 1);
    assert!(t.get(&7).is_none());
    assert_eq!(t.get(&1).unwrap().permission, Permission::Shared);
}

#[test]
fn remove_absent_changes_nothing() {
    let mut t = CacheTable::new(2);
    t.insert(entry(1, "a"));
    assert_eq!(t.remove(&5), None);
    assert_eq!(t.len(), 1);
}

#[test]
fn remove_present_drops_one_entry() {
    let mut t = CacheTable::new(3);
    t.insert(entry(1, "a"));
    t.insert(entry(2, "b"));
    assert_eq!(t.remove(&1), Some(entry(1, "a")));
    assert_eq!(t.len(), 1);
    assert!(t.get(&1).is_none());
    assert_eq!(t.remove(&1), None);
}

#[test]
fn removed_entry_frees_a_slot() {
    let mut t = CacheTable::new(2);
    t.insert(entry(1, "a"));
    t.insert(entry(2, "b"));
    t.remove(&2);
    assert_eq!(t.insert(entry(3, "c")), None);
    assert!(holds(&mut t, 1));
    assert!(holds(&mut t, 3));
}

#[test]
fn insert_then_get_round_trip() {
    let mut t = CacheTable::new(2);
    let e = CacheEntry {
        address: -42,
        data: "payload".to_string(),
        dirty: true,
        permission: Permission::Exclusive,
    };
    t.insert(e.clone());
    assert_eq!(t.get(&-42), Some(&e));
}

#[test]
fn duplicate_insert_at_capacity_evicts_nothing() {
    let mut t = CacheTable::new(2);
    t.insert(entry(1, "a"));
    t.insert(entry(2, "b"));
    let replacement = CacheEntry {
        address: 1,
        data: "z".to_string(),
        dirty: true,
        permission: Permission::Invalid,
    };
    assert_eq!(t.insert(replacement.clone()), None);
    assert_eq!(t.len(), 2);
    assert_eq!(t.get(&1), Some(&replacement));
    assert!(holds(&mut t, 2));
}

#[test]
fn replaced_entry_becomes_most_recent() {
    let mut t = CacheTable::new(2);
    t.insert(entry(1, "a"));
    t.insert(entry(2, "b"));
    t.insert(entry(1, "a2"));
    assert_eq!(t.insert(entry(3, "c")), Some(entry(2, "b")));
}

#[test]
fn capacity_two_scenario() {
    let mut t = CacheTable::new(2);
    assert_eq!(t.insert(entry(1, "a")), None);
    assert_eq!(t.insert(entry(2, "b")), None);
    assert_eq!(t.insert(entry(3, "c")), Some(entry(1, "a")));
    assert_eq!(t.len(), 2);
    assert_eq!(t.get(&2), Some(&entry(2, "b")));
    assert_eq!(t.insert(entry(4, "d")), Some(entry(3, "c")));
    assert_eq!(t.len(), 2);
    assert!(t.get(&3).is_none());
    assert!(t.get(&1).is_none());
    assert_eq!(t.get(&2), Some(&entry(2, "b")));
    assert_eq!(t.get(&4), Some(&entry(4, "d")));
}

#[test]
fn capacity_one_keeps_latest() {
    let mut t = CacheTable::new(1);
    t.insert(entry(1, "a"));
    assert!(t.update_permission(1, Permission::Modified));
    assert_eq!(t.insert(entry(2, "b")).map(|e| e.permission), Some(Permission::Modified));
    assert_eq!(t.len(), 1);
    assert!(holds(&mut t, 2));
}

#[test]
fn miss_does_not_change_order() {
    let mut t = CacheTable::new(2);
    t.insert(entry(1, "a"));
    t.insert(entry(2, "b"));
    assert!(t.get(&9).is_none());
    assert_eq!(t.insert(entry(3, "c")), Some(entry(1, "a")));
}

#[test]
fn extreme_addresses() {
    let mut t = CacheTable::new(2);
    t.insert(entry(i32::MIN, "lo"));
    t.insert(entry(i32::MAX, "hi"));
    assert_eq!(t.get(&i32::MIN).unwrap().data, "lo");
    assert_eq!(t.get(&i32::MAX).unwrap().data, "hi");
}

#[test]
fn messages_carry_their_fields() {
    let m = Message {
        message_type: MessageType::Response(0x40, 7),
        requestor_id: 3,
        data: vec![1, 2, 3],
        address: 0x40,
    };
    let copy = m.clone();
    assert_eq!(copy, m);
    assert_ne!(MessageType::Request(1), MessageType::Forward(1));
    assert_eq!(MessageType::Evict(5), MessageType::Evict(5));
    assert_ne!(MessageType::Nop, MessageType::Evict(0));
}
