use dict::{hash_f, Dict, DictEntry, DictIface};
use std::collections::hash_map::DefaultHasher;
use std::hash::{Hash, Hasher};

fn std_hash<V: Hash>(v: V) -> u64 {
    let mut h = DefaultHasher::new();
    v.hash(&mut h);
    h.finish()
}

fn assert_ascending<T>(d: &Dict<T>) {
    let e = d.entries();
    for i in 1..e.len() {
        assert!(e[i - 1].hash < e[i].hash);
    }
    for x in e {
        assert_eq!(x.hash, hash_f(&x.key));
    }
}

#[test]
fn documented_scenario() {
    let mut dict = Dict::<String>::new();
    assert_eq!(dict.is_empty(), true);
    assert_eq!(dict.len(), 0);
    assert_eq!(dict.add("key".to_string(), "val".to_string()), true);
    assert_eq!(dict.is_empty(), false);
    assert_eq!(dict.len(), 1);
    assert_eq!(dict.add("key".to_string(), "other_val".to_string()), false);
    assert_eq!(dict.len(), 1);
    assert_eq!(dict.add("other_key".to_string(), "other_val".to_string()), true);
    assert_eq!(dict.len(), 2);
    assert_eq!(dict.get("key").unwrap(), "val");
    assert_eq!(dict.contains_key("key"), true);
    assert_eq!(dict.remove_key("key").unwrap(), "val");
    assert_eq!(dict.contains_key("key"), false);
    assert_eq!(dict.len(), 1);
}

#[test]
fn first_value_wins() {
    let mut d = Dict::<u32>::new();
    assert!(d.add("a".to_string(), 1));
    assert!(!d.add("a".to_string(), 2));
    assert!(!d.add("a".to_string(), 3));
    assert_eq!(d.len(), 1);
    assert_eq!(d.get("a"), Some(&1));
}

#[test]
fn add_then_get() {
    let mut d = Dict::<i64>::new();
    for (i, k) in ["x", "y", "z", "", "long key with spaces"].iter().enumerate() {
        assert!(d.add(k.to_string(), i as i64 * 10));
        assert_eq!(d.get(k), Some(&(i as i64 * 10)));
        assert!(d.contains_key(k));
    }
    assert_eq!(d.len(), 5);
}

#[test]
fn remove_present_key() {
    let mut d = Dict::<String>::new();
    assert!(d.add("one".to_string(), "1".to_string()));
    assert!(d.add("two".to_string(), "2".to_string()));
    assert!(d.add("three".to_string(), "3".to_string()));
    assert_eq!(d.remove_key("two"), Some("2".to_string()));
    assert_eq!(d.len(), 2);
    assert!(!d.contains_key("two"));
    assert_eq!(d.get("two"), None);
    assert_eq!(d.get("one").map(|s| s.as_str()), Some("1"));
    assert_eq!(d.get("three").map(|s| s.as_str()), Some("3"));
    assert_ascending(&d);
}

#[test]
fn absent_key_reports_absence() {
    let mut d = Dict::<u8>::new();
    assert_eq!(d.get("nothing"), None);
    assert!(!d.contains_key("nothing"));
    assert_eq!(d.remove_key("nothing"), None);
    assert!(d.add("something".to_string(), 7));
    assert_eq!(d.get("nothing"), None);
    assert!(!d.contains_key("nothing"));
    assert_eq!(d.remove_key("nothing"), None);
    assert_eq!(d.len(), 1);
    assert_eq!(d.get("something"), Some(&7));
}

#[test]
fn entries_stay_in_hash_order() {
    let mut d = Dict::<usize>::new();
    for i in 0..200usize {
        assert!(d.add(format!("key{}", i), i));
        assert_ascending(&d);
    }
    for i in (0..200usize).step_by(3) {
        assert_eq!(d.remove_key(&format!("key{}", i)), Some(i));
        assert_ascending(&d);
    }
    assert_eq!(d.len(), 200 - 67);
    for i in 0..200usize {
        assert_eq!(d.contains_key(&format!("key{}", i)), i % 3 != 0);
    }
}

#[test]
fn emptiness_after_one_add() {
    let mut d = Dict::<()>::new();
    assert_eq!(d.len(), 0);
    assert!(d.is_empty());
    assert!(d.entries().is_empty());
    assert!(d.add("k".to_string(), ()));
    assert_eq!(d.len(), 1);
    assert!(!d.is_empty());
}

#[test]
fn remove_last_entry_empties() {
    let mut d = Dict::<u8>::new();
    assert!(d.add("only".to_string(), 9));
    assert_eq!(d.remove_key("only"), Some(9));
    assert!(d.is_empty());
    assert_eq!(d.remove_key("only"), None);
    assert!(d.add("only".to_string(), 10));
    assert_eq!(d.get("only"), Some(&10));
}

#[test]
fn entries_expose_key_and_value() {
    let mut d = Dict::<u32>::new();
    assert!(d.add("alpha".to_string(), 1));
    assert!(d.add("beta".to_string(), 2));
    let mut seen: Vec<(String, u32)> = d.entries().iter().map(|e| (e.key.clone(), e.val)).collect();
    seen.sort();
    assert_eq!(seen, vec![("alpha".to_string(), 1), ("beta".to_string(), 2)]);
    assert_ascending(&d);
}

#[test]
fn hash_matches_default_hasher() {
    assert_eq!(hash_f("key"), std_hash("key"));
    assert_eq!(hash_f("key"), std_hash(&"key".to_string()));
    assert_eq!(hash_f(""), std_hash(""));
    assert_ne!(hash_f("key"), hash_f("other_key"));
    assert_eq!(hash_f("key"), hash_f("key"));
}

#[test]
fn stored_hash_is_key_hash() {
    let mut d = Dict::<u8>::new();
    assert!(d.add("key".to_string(), 1));
    assert_eq!(d.entries()[0].hash, std_hash("key"));
}

#[test]
fn entry_hashes_as_its_key() {
    let mut d = Dict::<u8>::new();
    assert!(d.add("key".to_string(), 1));
    let e: &DictEntry<u8> = &d.entries()[0];
    assert_eq!(std_hash(e), std_hash("key".to_string()));
}
