use parsecfg::{tokenize, FromLexer, Key, KeyValue, Section};

const TEST_SECTION: &str =
    "[\tTest ]\nFruit = \"Oranges\"# Comment\nElephants = \"No Thanks!\"";

#[test]
fn section_test() {
    let mut sect = Section::new(
        "Settings",
        &[
            Key::new("Width", KeyValue::String(String::from("800"))),
            Key::new("Height", KeyValue::String(String::from("600"))),
        ],
    );

    assert_eq!(*sect.name(), String::from("Settings"));
    assert_eq!(
        *sect.get_at(0).unwrap(),
        Key::new("Width", KeyValue::String(String::from("800")))
    );
    assert_eq!(
        *sect.get_at(1).unwrap(),
        Key::new("Height", KeyValue::String(String::from("600")))
    );

    let mut lexer = match tokenize(TEST_SECTION) {
        Ok(k) => k,
        Err(e) => {
            println!("{}", e.to_string());
            panic!()
        }
    };

    sect = match Section::from_lexer(&mut lexer) {
        Ok(k) => k,
        Err(e) => {
            println!("{}", e.to_string());
            panic!()
        }
    };

    assert_eq!(*sect.name(), String::from("Test"));
    assert_eq!(
        *sect.get_at(0).unwrap(),
        Key::new("Fruit", KeyValue::String(String::from("Oranges")))
    );
    assert_eq!(
        *sect.get_at(1).unwrap(),
        Key::new("Elephants", KeyValue::String(String::from("No Thanks!")))
    );
}
