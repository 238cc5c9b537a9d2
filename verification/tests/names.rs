use parsecfg::{
    as_valid_name, box_error, indent, is_valid_name, make_error, CfgError, Key, KeyValue,
};

#[test]
fn valid_names() {
    assert!(is_valid_name("a"));
    assert!(is_valid_name("_"));
    assert!(is_valid_name("Width"));
    assert!(is_valid_name("_9"));
    assert!(is_valid_name("x_1_Y"));
}

#[test]
fn invalid_names() {
    assert!(!is_valid_name(""));
    assert!(!is_valid_name("9a"));
    assert!(!is_valid_name("a b"));
    assert!(!is_valid_name(" a"));
    assert!(!is_valid_name("a-b"));
    assert!(!is_valid_name("caf\u{e9}"));
    assert!(!is_valid_name("\u{212a}"));
}

#[test]
fn valid_name_is_left_as_it_is() {
    assert_eq!(as_valid_name("Width", '_'), "Width");
    assert_eq!(as_valid_name("_x9", '#'), "_x9");
}

#[test]
fn name_is_trimmed() {
    assert_eq!(as_valid_name("  Width\t\n", '_'), "Width");
    assert_eq!(as_valid_name("\u{a0}a\u{3000}", '_'), "a");
}

#[test]
fn blank_name_is_the_replacement() {
    assert_eq!(as_valid_name("", '_'), "_");
    assert_eq!(as_valid_name("   ", 'x'), "x");
    assert_eq!(as_valid_name("", '5'), "5");
}

#[test]
fn bad_characters_are_replaced() {
    assert_eq!(as_valid_name("a b-c", '_'), "a_b_c");
    assert_eq!(as_valid_name("No Thanks!", '_'), "No_Thanks_");
    assert_eq!(as_valid_name("caf\u{e9}s", 'e'), "cafes");
    assert_eq!(as_valid_name("#", '_'), "_");
}

#[test]
fn leading_digit_gets_an_underscore() {
    assert_eq!(as_valid_name("9 lives", '_'), "_9_lives");
    assert_eq!(as_valid_name("1", '_'), "_1");
    assert_eq!(as_valid_name("#a", '5'), "_5a");
}

#[test]
fn sanitizing_twice_changes_nothing() {
    for s in ["", "  ", "Width", "9 lives", " a b ", "#", "caf\u{e9}", "a\tb", "__", "1.5"] {
        let once = as_valid_name(s, '_');
        assert_eq!(as_valid_name(&once, '_'), once);
        assert!(is_valid_name(&once));
        let other = as_valid_name(s, '#');
        assert_eq!(as_valid_name(&other, '#'), other);
    }
}

#[test]
fn sanitizing_twice_differs_for_some_replacements() {
    assert_eq!(as_valid_name("", '5'), "5");
    assert_eq!(as_valid_name("5", '5'), "_5");
    assert_eq!(as_valid_name("#a", ' '), " a");
    assert_eq!(as_valid_name(" a", ' '), "a");
}

#[test]
fn key_names() {
    let mut key = Key::new(" my key ", KeyValue::Integer(1));
    assert_eq!(key.name().as_str(), "my_key");
    assert!(key.is_valid());
    key.rename("7up");
    assert_eq!(key.name().as_str(), "_7up");
    assert_eq!(key.value, KeyValue::Integer(1));
    assert!(key.is_valid());
    let plain = Key::default();
    assert_eq!(plain.name().as_str(), "_");
    assert_eq!(plain.value, KeyValue::String(String::new()));
    assert_eq!(KeyValue::default(), KeyValue::String(String::new()));
    assert_eq!(key.clone(), key);
}

#[test]
fn indenting() {
    assert_eq!(indent("a", 0), "a");
    assert_eq!(indent("a", 2), "\t\ta");
    assert_eq!(indent("a\nb", 1), "\ta\n\tb");
    assert_eq!(indent("a\n", 1), "\ta\n\t");
    assert_eq!(indent("", 3), "\t\t\t");
    assert_eq!(indent("\n\n", 1), "\t\n\t\n\t");
}

#[test]
fn message_errors() {
    assert_eq!(CfgError::new("went wrong").message(), "went wrong");
    assert_eq!(make_error("went wrong").to_string(), "went wrong");
    assert_eq!(box_error("boxed").message(), "boxed");
    assert_eq!(make_error("").message(), "");
}
