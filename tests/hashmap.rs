use chained_hashmap::key::hash_key;
use chained_hashmap::{HashKey, HashMap, KeyValue, DEFAULT_MAX_SIZE};

#[test]
fn insert_and_get_item() {
    let (key, value) = ("guimauve", 1);
    let mut hashmap: HashMap<&str, i32> = HashMap::new();
    hashmap.insert(key, value);
    let result = *hashmap.get(&key).unwrap();
    assert_eq!(result, value);

    let (key, value) = ("rust", 2);
    hashmap.insert(key, value);
    let result = *hashmap.get(&key).unwrap();
    assert_eq!(result, value);

    println!("HashMap: {hashmap:?}");
}

#[test]
fn insert_two_then_remove_one() {
    let mut hashmap: HashMap<&str, i32> = HashMap::new();
    assert_eq!(hashmap.insert("guimauve", 1), None);
    assert_eq!(hashmap.insert("rust", 2), None);
    assert_eq!(hashmap.get(&"guimauve"), Some(&1));
    assert_eq!(hashmap.get(&"rust"), Some(&2));
    assert_eq!(hashmap.len(), 2);

    assert_eq!(hashmap.remove(&"guimauve"), Some(1));
    assert_eq!(hashmap.get(&"guimauve"), None);
    assert_eq!(hashmap.get(&"rust"), Some(&2));
    assert_eq!(hashmap.len(), 1);
}

#[test]
fn insert_then_get_finds_value() {
    let mut hashmap: HashMap<String, u64> = HashMap::new();
    assert_eq!(hashmap.insert(String::from("alpha"), 7), None);
    assert_eq!(hashmap.get(&String::from("alpha")), Some(&7));
    assert_eq!(hashmap.get(&String::from("beta")), None);
}

#[test]
fn get_on_empty_table_is_absent() {
    let hashmap: HashMap<&str, i32> = HashMap::new();
    assert_eq!(hashmap.get(&"anything"), None);
    assert_eq!(hashmap.len(), 0);
}

#[test]
fn second_insert_returns_previous_value() {
    let mut hashmap: HashMap<&str, &str> = HashMap::new();
    assert_eq!(hashmap.insert("k", "first"), None);
    assert_eq!(hashmap.len(), 1);
    assert_eq!(hashmap.insert("k", "second"), Some("first"));
    assert_eq!(hashmap.len(), 1);
    assert_eq!(hashmap.get(&"k"), Some(&"second"));
}

#[test]
fn remove_present_key_keeps_others() {
    let mut hashmap: HashMap<&str, i32> = HashMap::new();
    hashmap.insert("a", 1);
    hashmap.insert("b", 2);
    hashmap.insert("c", 3);
    assert_eq!(hashmap.remove(&"b"), Some(2));
    assert_eq!(hashmap.len(), 2);
    assert_eq!(hashmap.get(&"b"), None);
    assert_eq!(hashmap.get(&"a"), Some(&1));
    assert_eq!(hashmap.get(&"c"), Some(&3));
}

#[test]
fn remove_absent_key_changes_nothing() {
    let mut hashmap: HashMap<&str, i32> = HashMap::new();
    assert_eq!(hashmap.remove(&"missing"), None);
    assert_eq!(hashmap.len(), 0);
    hashmap.insert("present", 5);
    assert_eq!(hashmap.remove(&"missing"), None);
    assert_eq!(hashmap.len(), 1);
    assert_eq!(hashmap.get(&"present"), Some(&5));
}

#[test]
fn colliding_keys_are_independent() {
    // With a single slot every key shares one chain.
    let mut hashmap: HashMap<&str, i32> = HashMap::with_capacity(1);
    assert_eq!(hashmap.insert("first", 1), None);
    assert_eq!(hashmap.insert("second", 2), None);
    assert_eq!(hashmap.insert("third", 3), None);
    assert_eq!(hashmap.len(), 3);
    assert_eq!(hashmap.get(&"first"), Some(&1));
    assert_eq!(hashmap.get(&"second"), Some(&2));
    assert_eq!(hashmap.get(&"third"), Some(&3));

    // Update in the middle of the chain.
    assert_eq!(hashmap.insert("second", 20), Some(2));
    assert_eq!(hashmap.len(), 3);

    // Remove from the middle, then the tail, then the head.
    assert_eq!(hashmap.remove(&"second"), Some(20));
    assert_eq!(hashmap.get(&"first"), Some(&1));
    assert_eq!(hashmap.get(&"third"), Some(&3));
    assert_eq!(hashmap.remove(&"third"), Some(3));
    assert_eq!(hashmap.get(&"first"), Some(&1));
    assert_eq!(hashmap.remove(&"first"), Some(1));
    assert_eq!(hashmap.len(), 0);
    assert_eq!(hashmap.get(&"first"), None);
}

#[test]
fn removing_head_of_chain_keeps_successor() {
    let mut hashmap: HashMap<&str, i32> = HashMap::with_capacity(1);
    hashmap.insert("head", 1);
    hashmap.insert("tail", 2);
    assert_eq!(hashmap.remove(&"head"), Some(1));
    assert_eq!(hashmap.get(&"tail"), Some(&2));
    assert_eq!(hashmap.len(), 1);
    assert_eq!(hashmap.insert("head", 3), None);
    assert_eq!(hashmap.get(&"head"), Some(&3));
    assert_eq!(hashmap.len(), 2);
}

#[test]
fn clear_empties_the_table() {
    let mut hashmap: HashMap<&str, i32> = HashMap::with_capacity(4);
    hashmap.insert("x", 1);
    hashmap.insert("y", 2);
    hashmap.insert("z", 3);
    hashmap.clear();
    assert_eq!(hashmap.len(), 0);
    assert_eq!(hashmap.get(&"x"), None);
    assert_eq!(hashmap.get(&"y"), None);
    assert_eq!(hashmap.get(&"z"), None);
    assert_eq!(hashmap.insert("x", 9), None);
    assert_eq!(hashmap.get(&"x"), Some(&9));
}

#[test]
fn many_keys_in_few_slots() {
    let mut hashmap: HashMap<String, usize> = HashMap::with_capacity(3);
    for i in 0..200usize {
        assert_eq!(hashmap.insert(format!("key{i}"), i), None);
    }
    assert_eq!(hashmap.len(), 200);
    for i in 0..200usize {
        assert_eq!(hashmap.get(&format!("key{i}")), Some(&i));
    }
    for i in (0..200usize).step_by(2) {
        assert_eq!(hashmap.remove(&format!("key{i}")), Some(i));
    }
    assert_eq!(hashmap.len(), 100);
    for i in 0..200usize {
        let expected = if i % 2 == 0 { None } else { Some(&i) };
        assert_eq!(hashmap.get(&format!("key{i}")), expected);
    }
}

#[test]
fn default_table_has_default_slot_count() {
    assert_eq!(DEFAULT_MAX_SIZE, 256);
    let mut hashmap: HashMap<&str, i32> = HashMap::new();
    for i in 0..600i32 {
        let key: &'static str = Box::leak(format!("k{i}").into_boxed_str());
        hashmap.insert(key, i);
    }
    assert_eq!(hashmap.len(), 600);
}

#[test]
fn hash_depends_on_content_only() {
    let owned = String::from("guimauve");
    let borrowed: &str = "guimauve";
    assert_eq!(owned.key_hash(), borrowed.key_hash());
    assert_eq!(borrowed.key_hash(), hash_key("guimauve".as_bytes()));
    assert_eq!(hash_key(b"abc"), hash_key(b"abc"));
    assert_ne!(hash_key(b"abc"), hash_key(b"abd"));
}

#[test]
fn key_equality_compares_content() {
    let a = String::from("same");
    let b = String::from("same");
    let c = String::from("other");
    assert!(a.key_eq(&b));
    assert!(!a.key_eq(&c));
    assert!("x".key_eq(&"x"));
    assert!(!"x".key_eq(&"xy"));
    assert!(!"é".key_eq(&"e"));
}

#[test]
fn single_entry_chain_prints_its_fields() {
    let kv = KeyValue::new("k", 1);
    let text = format!("{kv:?}");
    assert!(text.contains("\"k\""));
    assert!(text.contains('1'));
}

#[test]
fn integer_keys() {
    let mut hashmap: HashMap<u64, &str> = HashMap::with_capacity(2);
    assert_eq!(hashmap.insert(1, "one"), None);
    assert_eq!(hashmap.insert(2, "two"), None);
    assert_eq!(hashmap.insert(3, "three"), None);
    assert_eq!(hashmap.insert(u64::MAX, "max"), None);
    assert_eq!(hashmap.insert(2, "deux"), Some("two"));
    assert_eq!(hashmap.len(), 4);
    assert_eq!(hashmap.get(&2), Some(&"deux"));
    assert_eq!(hashmap.get(&u64::MAX), Some(&"max"));
    assert_eq!(hashmap.remove(&1), Some("one"));
    assert_eq!(hashmap.get(&1), None);
    assert_eq!(hashmap.get(&3), Some(&"three"));

    let mut small: HashMap<u32, u32> = HashMap::new();
    assert_eq!(small.insert(0, 10), None);
    assert_eq!(small.get(&0), Some(&10));
    assert_eq!(small.get(&1), None);
}

#[test]
fn occupied_skips_empty_slots() {
    let mut hashmap: HashMap<&str, i32> = HashMap::new();
    assert_eq!(hashmap.occupied().len(), 0);
    hashmap.insert("guimauve", 1);
    assert_eq!(hashmap.occupied().len(), 1);
    hashmap.insert("rust", 2);
    let n = hashmap.occupied().len();
    assert!(n == 1 || n == 2);

    let mut one_slot: HashMap<&str, i32> = HashMap::with_capacity(1);
    one_slot.insert("a", 1);
    one_slot.insert("b", 2);
    assert_eq!(one_slot.occupied().len(), 1);
    one_slot.clear();
    assert_eq!(one_slot.occupied().len(), 0);
}

#[test]
fn chain_keeps_insertion_order() {
    let mut hashmap: HashMap<&str, i32> = HashMap::with_capacity(1);
    hashmap.insert("aa", 1);
    hashmap.insert("bb", 2);
    hashmap.insert("cc", 3);
    hashmap.insert("bb", 20);
    let text = format!("{:?}", hashmap.occupied());
    let a = text.find("\"aa\"").unwrap();
    let b = text.find("\"bb\"").unwrap();
    let c = text.find("\"cc\"").unwrap();
    assert!(a < b && b < c);
    assert!(text.contains("20"));

    assert_eq!(hashmap.remove(&"bb"), Some(20));
    let text = format!("{:?}", hashmap.occupied());
    assert!(!text.contains("\"bb\""));
    assert!(text.find("\"aa\"").unwrap() < text.find("\"cc\"").unwrap());
}

#[test]
fn new_and_cleared_tables_show_no_occupied_slot() {
    let mut hashmap: HashMap<&str, i32> = HashMap::new();
    assert_eq!(format!("{:?}", hashmap.occupied()), "[]");
    hashmap.insert("guimauve", 1);
    assert_ne!(format!("{:?}", hashmap.occupied()), "[]");
    hashmap.clear();
    assert_eq!(format!("{:?}", hashmap.occupied()), "[]");
}
