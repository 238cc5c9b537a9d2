use parsecfg::{tokenize, FromLexer, Key, KeyValue};

const TEST_STRING: &str = "\tOrange= \"Banana\" # Comment";
const TEST_STRING_APPEND: &str = "\tOrange= \"Ban\" \"ana\" # Comment";
const TEST_IMP_INT: &str = "\tHealth   = 500  # Comment";
const TEST_IMP_FLT: &str = "\tProgress = 0.67 # Comment";
const TEST_INT: &str = "\tHealth = 400i # Comment";
const TEST_UINT: &str = "\tHealth = 300u # Comment";
const TEST_FLT: &str = "\tHealth = 200f # Comment";
const TEST_ARRAY_STR: &str = " Array =[ \"One\", # Comment\n\"Two\", \"Three\" ]";
const TEST_ARRAY_INT: &str = " Array =[ 4, 7, 64 ]";
const TEST_ARRAY_UINT: &str = " Array =[ 4u, 7u, 64u ]";
const TEST_ARRAY_FLT: &str = " Array =[ 4f, 7f, 64f ]";
const TEST_TABLE: &str = "Language={#Comment\nName=\"C++\",#Comment\nAlias=[\"c++\",\"cpp\",\"\
                          cplusplus\"]#Comment\n }";
const TEST_TUPLE: &str = "Tuple=( \"Gary\", 4f )";

fn key_of(text: &str) -> Key {
    let mut lexer = match tokenize(text) {
        Ok(k) => k,
        Err(e) => {
            println!("{}", e.to_string());
            panic!()
        }
    };
    match Key::from_lexer(&mut lexer) {
        Ok(k) => k,
        Err(e) => {
            println!("{}", e.to_string());
            panic!()
        }
    }
}

fn float_in(value: &KeyValue) -> f64 {
    match value {
        KeyValue::Float(d) => d.as_str().parse::<f64>().unwrap(),
        _ => panic!(),
    }
}

fn floats_in(value: &KeyValue) -> Vec<f64> {
    match value {
        KeyValue::FloatArray(a) => a.iter().map(|d| d.as_str().parse::<f64>().unwrap()).collect(),
        _ => panic!(),
    }
}

#[test]
fn key_test() {
    let mut key = Key::new("Banana", KeyValue::String(String::from("BoingBoingBoing")));

    assert_eq!(key.name().as_str(), "Banana");
    assert_eq!(key.value, KeyValue::String(String::from("BoingBoingBoing")));

    // String
    key = key_of(TEST_STRING);
    assert_eq!(key.name().as_str(), "Orange");
    assert_eq!(key.value, KeyValue::String(String::from("Banana")));

    // String Append
    key = key_of(TEST_STRING_APPEND);
    assert_eq!(key.name().as_str(), "Orange");
    assert_eq!(key.value, KeyValue::String(String::from("Banana")));

    // Implicit Integer
    key = key_of(TEST_IMP_INT);
    assert_eq!(key.name().as_str(), "Health");
    assert_eq!(key.value, KeyValue::Integer(500i64));

    // Implicit Float
    key = key_of(TEST_IMP_FLT);
    assert_eq!(key.name().as_str(), "Progress");
    assert_eq!(float_in(&key.value), 0.67f64);

    // Explicit Signed Integer
    key = key_of(TEST_INT);
    assert_eq!(key.name().as_str(), "Health");
    assert_eq!(key.value, KeyValue::Integer(400i64));

    // Explicit Unsigned Integer
    key = key_of(TEST_UINT);
    assert_eq!(key.name().as_str(), "Health");
    assert_eq!(key.value, KeyValue::Unsigned(300u64));

    // Explicit Float
    key = key_of(TEST_FLT);
    assert_eq!(key.name().as_str(), "Health");
    assert_eq!(float_in(&key.value), 200f64);

    // String Array
    key = key_of(TEST_ARRAY_STR);
    assert_eq!(key.name().as_str(), "Array");
    assert_eq!(
        key.value,
        KeyValue::StringArray(vec![
            String::from("One"),
            String::from("Two"),
            String::from("Three")
        ])
    );

    // Integer Array
    key = key_of(TEST_ARRAY_INT);
    assert_eq!(key.name().as_str(), "Array");
    assert_eq!(key.value, KeyValue::IntegerArray(vec![4i64, 7i64, 64i64]));

    // Unsigned Integer Array
    key = key_of(TEST_ARRAY_UINT);
    assert_eq!(key.name().as_str(), "Array");
    assert_eq!(key.value, KeyValue::UnsignedArray(vec![4u64, 7u64, 64u64]));

    // Float Array
    key = key_of(TEST_ARRAY_FLT);
    assert_eq!(key.name().as_str(), "Array");
    assert_eq!(floats_in(&key.value), vec![4f64, 7f64, 64f64]);

    // Tuple
    key = key_of(TEST_TUPLE);
    assert_eq!(key.name().as_str(), "Tuple");
    match &key.value {
        KeyValue::Tuple(items) => {
            assert_eq!(items.len(), 2);
            assert_eq!(items[0], KeyValue::String(String::from("Gary")));
            assert_eq!(float_in(&items[1]), 4f64);
        }
        _ => panic!(),
    }

    // Table
    key = key_of(TEST_TABLE);
    assert_eq!(key.name().as_str(), "Language");
    assert_eq!(
        key.value,
        KeyValue::Table(vec![
            Key::new("Name", KeyValue::String(String::from("C++"))),
            Key::new(
                "Alias",
                KeyValue::StringArray(vec![
                    String::from("c++"),
                    String::from("cpp"),
                    String::from("cplusplus")
                ])
            )
        ])
    );
}
