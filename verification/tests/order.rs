use yoctofy::model::CrateId;
use yoctofy::order::{is_text_before, OrderedMap, OrderedSet};

#[test]
fn texts_in_order() {
    assert!(is_text_before("a", "b"));
    assert!(is_text_before("a", "aa"));
    assert!(is_text_before("", "a"));
    assert!(!is_text_before("a", "a"));
    assert!(!is_text_before("b", "ab"));
    assert!(is_text_before("z", "é"));
    assert!(is_text_before("\u{ffff}", "\u{10000}"));
}

#[test]
fn set_keeps_each_key_once() {
    let mut set: OrderedSet<String> = OrderedSet::new();
    assert!(set.insert("b".to_string()));
    assert!(set.insert("a".to_string()));
    assert!(!set.insert("b".to_string()));
    assert!(set.insert("c".to_string()));
    assert_eq!(*set.keys(), vec!["a", "b", "c"]);
    assert!(set.contains(&"c".to_string()));
    assert!(!set.contains(&"d".to_string()));
}

#[test]
fn crates_in_order() {
    let mut set: OrderedSet<CrateId> = OrderedSet::new();
    set.insert(CrateId::new("b", "1"));
    set.insert(CrateId::new("a", "2"));
    set.insert(CrateId::new("a", "10"));
    let names: Vec<String> =
        set.keys().iter().map(|id| format!("{} {}", id.name, id.version)).collect();
    assert_eq!(names, vec!["a 10", "a 2", "b 1"]);
}

#[test]
fn map_keeps_the_last_value() {
    let mut map: OrderedMap<String, u8> = OrderedMap::new();
    map.insert("b".to_string(), 1);
    map.insert("a".to_string(), 2);
    map.insert("b".to_string(), 3);
    assert_eq!(*map.keys(), vec!["a", "b"]);
    assert_eq!(*map.values(), vec![2, 3]);
    assert_eq!(map.get(&"b".to_string()), Some(&3));
    assert_eq!(map.get(&"c".to_string()), None);
}

#[test]
fn map_keeps_the_first_value_when_told_so() {
    let mut map: OrderedMap<String, u8> = OrderedMap::new();
    map.insert_if_absent("b".to_string(), 1);
    map.insert_if_absent("b".to_string(), 3);
    map.insert_if_absent("a".to_string(), 2);
    assert_eq!(*map.values(), vec![2, 1]);
}
