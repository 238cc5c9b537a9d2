use parsecfg::{tokenize, Document, FromLexer, Key, KeyValue, Section};

const TEST_DOCUMENT: &str =
    "[Size]# Comment\nWidth = 800u#Bon\nHeight = 600u#Lem\n[Position]\nX = 20\nY = 40";

#[test]
fn document_test() {
    let mut doc = Document::new(&[
        Section::new(
            "Banana",
            &[
                Key::new("Width", KeyValue::String(String::from("800"))),
                Key::new("Height", KeyValue::String(String::from("600"))),
            ],
        ),
        Section::new(
            "Lemon",
            &[
                Key::new("XPos", KeyValue::String(String::from("40"))),
                Key::new("YPos", KeyValue::String(String::from("60"))),
            ],
        ),
    ]);

    assert_eq!(*doc.get_at(0).unwrap().name(), "Banana");
    assert_eq!(
        doc.get_at(0).unwrap().get("Width").unwrap().value,
        KeyValue::String(String::from("800"))
    );

    let mut lexer = match tokenize(TEST_DOCUMENT) {
        Ok(k) => k,
        Err(e) => {
            println!("{}", e.to_string());
            panic!()
        }
    };

    doc = match Document::from_lexer(&mut lexer) {
        Ok(k) => k,
        Err(e) => {
            println!("{}", e.to_string());
            panic!()
        }
    };

    assert_eq!(*doc.get_at(0).unwrap().name(), "Size");
    assert_eq!(
        doc.get_at(0).unwrap().get("Width").unwrap().value,
        KeyValue::Unsigned(800u64)
    );
    assert_eq!(
        doc.get_at(0).unwrap().get("Height").unwrap().value,
        KeyValue::Unsigned(600u64)
    );

    assert_eq!(*doc.get_at(1).unwrap().name(), "Position");
    assert_eq!(
        doc.get_at(1).unwrap().get("X").unwrap().value,
        KeyValue::Integer(20i64)
    );
    assert_eq!(
        doc.get_at(1).unwrap().get("Y").unwrap().value,
        KeyValue::Integer(40i64)
    );
}
