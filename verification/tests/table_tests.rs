use helix_db::table::InstanceTable;

fn names(table: &InstanceTable<u32>) -> Vec<String> {
    table.keys().into_iter().cloned().collect()
}

#[test]
fn new_table_is_empty() {
    let table: InstanceTable<u32> = InstanceTable::new();
    assert_eq!(table.len(), 0);
    assert!(table.is_empty());
    assert!(!table.contains_key("a"));
    assert!(table.get("a").is_none());
    assert!(table.keys().is_empty());
}

#[test]
fn insert_adds_new_names_at_the_end() {
    let mut table: InstanceTable<u32> = InstanceTable::new();
    assert_eq!(table.insert("b".to_string(), 2), None);
    assert_eq!(table.insert("a".to_string(), 1), None);
    assert_eq!(table.insert("c".to_string(), 3), None);
    assert_eq!(table.len(), 3);
    assert!(!table.is_empty());
    assert_eq!(names(&table), vec!["b", "a", "c"]);
    assert_eq!(table.get("a"), Some(&1));
    assert_eq!(table.get("b"), Some(&2));
    assert_eq!(table.get("c"), Some(&3));
    assert_eq!(table.get("d"), None);
}

#[test]
fn insert_of_known_name_replaces_the_value_in_place() {
    let mut table: InstanceTable<u32> = InstanceTable::new();
    table.insert("b".to_string(), 2);
    table.insert("a".to_string(), 1);
    assert_eq!(table.insert("b".to_string(), 20), Some(2));
    assert_eq!(table.len(), 2);
    assert_eq!(names(&table), vec!["b", "a"]);
    assert_eq!(table.get("b"), Some(&20));
    assert_eq!(table.get("a"), Some(&1));
}

#[test]
fn remove_takes_one_name_out_and_keeps_the_order() {
    let mut table: InstanceTable<u32> = InstanceTable::new();
    table.insert("b".to_string(), 2);
    table.insert("a".to_string(), 1);
    table.insert("c".to_string(), 3);
    assert_eq!(table.remove("a"), Some(1));
    assert_eq!(names(&table), vec!["b", "c"]);
    assert_eq!(table.remove("a"), None);
    assert_eq!(table.remove("zzz"), None);
    assert_eq!(table.len(), 2);
    assert!(!table.contains_key("a"));
    assert!(table.contains_key("b"));
    assert_eq!(table.remove("b"), Some(2));
    assert_eq!(table.remove("c"), Some(3));
    assert!(table.is_empty());
}

#[test]
fn entry_at_follows_the_order() {
    let mut table: InstanceTable<u32> = InstanceTable::new();
    table.insert("x".to_string(), 10);
    table.insert("".to_string(), 20);
    let (name, value) = table.entry_at(0);
    assert_eq!((name.as_str(), *value), ("x", 10));
    let (name, value) = table.entry_at(1);
    assert_eq!((name.as_str(), *value), ("", 20));
    assert!(table.contains_key(""));
}

#[test]
fn names_are_told_apart_exactly() {
    let mut table: InstanceTable<u32> = InstanceTable::new();
    table.insert("dev".to_string(), 1);
    table.insert("Dev".to_string(), 2);
    table.insert("dev ".to_string(), 3);
    table.insert("dév".to_string(), 4);
    assert_eq!(table.len(), 4);
    assert_eq!(table.get("dev"), Some(&1));
    assert_eq!(table.get("Dev"), Some(&2));
    assert_eq!(table.get("dev "), Some(&3));
    assert_eq!(table.get("dév"), Some(&4));
    assert_eq!(table.get("de"), None);
}

#[test]
fn clone_keeps_names_values_and_order() {
    let mut table: InstanceTable<u32> = InstanceTable::new();
    table.insert("b".to_string(), 2);
    table.insert("a".to_string(), 1);
    let copy = table.clone();
    table.remove("b");
    assert_eq!(names(&copy), vec!["b", "a"]);
    assert_eq!(copy.get("b"), Some(&2));
    assert_eq!(copy.get("a"), Some(&1));
    assert_eq!(names(&table), vec!["a"]);
}
