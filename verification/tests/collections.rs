use parsecfg::{Document, Key, KeyValue, Section};

fn key(name: &str, n: i64) -> Key {
    Key::new(name, KeyValue::Integer(n))
}

fn section(name: &str) -> Section {
    Section::new(name, &[key("a", 1), key("b", 2)])
}

#[test]
fn section_basics() {
    let s = section(" my section ");
    assert_eq!(s.name().as_str(), "my_section");
    assert!(s.is_valid());
    assert_eq!(s.len(), 2);
    assert!(!s.is_empty());
    assert_eq!(Section::default().name().as_str(), "_");
    assert!(Section::default().is_empty());
    assert_eq!(s.clone(), s);
    let names: Vec<String> = s.iter().map(|k| k.name().clone()).collect();
    assert_eq!(names, vec![String::from("a"), String::from("b")]);
}

#[test]
fn section_lookup_ignores_case() {
    let s = Section::new("s", &[key("Width", 1), key("height", 2), key("WIDTH", 3)]);
    assert_eq!(s.index_of("width"), Some(0));
    assert_eq!(s.index_of("WIDTH"), Some(0));
    assert_eq!(s.index_of("Height"), Some(1));
    assert_eq!(s.index_of("depth"), None);
    assert_eq!(s.index_of(""), None);
    assert!(s.contains("HEIGHT"));
    assert!(!s.contains("heigh"));
    assert_eq!(s.get("wIdTh").unwrap().value, KeyValue::Integer(1));
    assert!(s.get("none").is_none());
    assert_eq!(s.get_at(2).unwrap().value, KeyValue::Integer(3));
    assert!(s.get_at(3).is_none());
}

#[test]
fn section_push() {
    let mut s = section("s");
    assert!(s.push(key("c", 3)));
    assert_eq!(s.len(), 3);
    assert_eq!(s.get_at(2).unwrap().name().as_str(), "c");
    assert!(!s.push(key("A", 4)));
    assert!(!s.push(key("C", 4)));
    assert_eq!(s.len(), 3);
}

#[test]
fn section_insert() {
    let mut s = section("s");
    assert!(s.insert(0, key("first", 0)));
    assert_eq!(s.index_of("first"), Some(0));
    assert_eq!(s.index_of("a"), Some(1));
    assert!(s.insert(2, key("mid", 5)));
    assert_eq!(s.index_of("mid"), Some(2));
    assert_eq!(s.index_of("b"), Some(3));
    assert!(!s.insert(4, key("past", 9)));
    assert!(!s.insert(9, key("past", 9)));
    assert!(!s.insert(0, key("B", 9)));
    assert_eq!(s.len(), 4);
    let mut empty = Section::new("e", &[]);
    assert!(!empty.insert(0, key("k", 1)));
    assert!(empty.is_empty());
}

#[test]
fn section_remove() {
    let mut s = Section::new("s", &[key("a", 1), key("b", 2), key("c", 3)]);
    assert!(s.remove("B"));
    assert_eq!(s.len(), 2);
    assert_eq!(s.index_of("c"), Some(1));
    assert!(!s.remove("b"));
    s.remove_at(5);
    assert_eq!(s.len(), 2);
    s.remove_at(0);
    assert_eq!(s.len(), 1);
    assert_eq!(s.get_at(0).unwrap().name().as_str(), "c");
    s.clear();
    assert!(s.is_empty());
    assert_eq!(s.name().as_str(), "s");
}

#[test]
fn section_rename_and_change() {
    let mut s = section("s");
    s.rename("2 new");
    assert_eq!(s.name().as_str(), "_2_new");
    assert_eq!(s.len(), 2);
    s.get_mut("B").unwrap().value = KeyValue::Integer(20);
    assert_eq!(s.get("b").unwrap().value, KeyValue::Integer(20));
    s.get_at_mut(0).unwrap().rename("z");
    assert_eq!(s.index_of("z"), Some(0));
    assert_eq!(s.get_at(1).unwrap().value, KeyValue::Integer(20));
    assert!(s.get_mut("a").is_none());
    assert!(s.get_at_mut(2).is_none());
}

#[test]
fn document_basics() {
    let d = Document::new(&[section("One"), section("Two")]);
    assert_eq!(d.len(), 2);
    assert!(!d.is_empty());
    assert!(Document::default().is_empty());
    assert_eq!(d.clone(), d);
    assert_eq!(d.index_of("two"), Some(1));
    assert_eq!(d.index_of("three"), None);
    assert!(d.contains("ONE"));
    assert!(!d.contains("on"));
    assert_eq!(d.get("one").unwrap().name().as_str(), "One");
    assert!(d.get("none").is_none());
    assert_eq!(d.get_at(1).unwrap().name().as_str(), "Two");
    assert!(d.get_at(2).is_none());
    let names: Vec<String> = d.iter().map(|s| s.name().clone()).collect();
    assert_eq!(names, vec![String::from("One"), String::from("Two")]);
}

#[test]
fn document_push_and_insert() {
    let mut d = Document::new(&[section("One")]);
    assert!(d.push(section("Two")));
    assert!(!d.push(section("ONE")));
    assert_eq!(d.len(), 2);
    assert!(d.insert(2, section("Last")));
    assert_eq!(d.index_of("last"), Some(2));
    assert!(d.insert(0, section("First")));
    assert_eq!(d.index_of("first"), Some(0));
    assert_eq!(d.index_of("one"), Some(1));
    assert!(!d.insert(5, section("Past")));
    assert!(!d.insert(1, section("two")));
    assert_eq!(d.len(), 4);
}

#[test]
fn document_remove_and_change() {
    let mut d = Document::new(&[section("One"), section("Two"), section("Three")]);
    assert!(d.remove("TWO"));
    assert!(!d.remove("two"));
    assert_eq!(d.len(), 2);
    assert_eq!(d.index_of("three"), Some(1));
    d.remove_at(7);
    assert_eq!(d.len(), 2);
    d.remove_at(0);
    assert_eq!(d.get_at(0).unwrap().name().as_str(), "Three");
    assert!(d.get_mut("three").unwrap().push(key("c", 3)));
    assert_eq!(d.get("three").unwrap().len(), 3);
    d.get_at_mut(0).unwrap().rename("Four");
    assert_eq!(d.index_of("four"), Some(0));
    assert!(d.get_mut("three").is_none());
    assert!(d.get_at_mut(1).is_none());
    d.clear();
    assert!(d.is_empty());
}
