use translator::translation::{Def, Translation, TranslationError};

fn round_trip(text: &str) -> String {
    Translation::parse(text).unwrap().to_text()
}

#[test]
fn parse_plain_text_round_trips() {
    assert_eq!(round_trip("Hello"), "Hello");
    assert_eq!(round_trip(""), "");
}

#[test]
fn parse_placeholders_round_trip() {
    for text in [
        "Hello {:0}",
        "{:0}",
        "{:1}{:0}",
        "Value {:12} of {:3}!",
        "a {b} c",
        "{ : }",
        "x{y",
        "Température: {:0} °C",
        "{:18446744073709551615}",
    ] {
        assert_eq!(round_trip(text), text);
    }
}

#[test]
fn parse_rejects_malformed_markers() {
    for text in [
        "}{:",
        "Hello {:0",
        "{:",
        "{:}",
        "{:x}",
        "{:1a}",
        "{:01}",
        "{:-1}",
        "{:18446744073709551616}",
        "{:99999999999999999999999}",
    ] {
        assert_eq!(Translation::parse(text), Err(TranslationError::Parse), "{}", text);
    }
}

#[test]
fn parse_equal_texts_give_equal_translations() {
    let a = Translation::parse("Open {:0}").unwrap();
    let b = Def::from_def("Open {:0}").unwrap();
    let c = Translation::from_text("Open {:1}").unwrap();
    assert!(a.same_as(&b));
    assert_eq!(a, b);
    assert!(!a.same_as(&c));
    assert!(a.duplicate().same_as(&a));
    assert_eq!(Translation::from("Open {:0}").unwrap(), a);
}

#[test]
fn translate_substitutes_runtime_argument() {
    let key = Translation::parse("Hello {:0}").unwrap();
    let value = Translation::parse("Bonjour {:0}").unwrap();
    assert_eq!(value.translate(&key, "Hello Bob"), Ok("Bonjour Bob".to_string()));
}

#[test]
fn translate_rejects_reordered_placeholders() {
    let key = Translation::parse("{:0} of {:1}").unwrap();
    let value = Translation::parse("{:1} de {:0}!").unwrap();
    assert_eq!(value.translate(&key, "3 of 5"), Err(TranslationError::Mismatch));
    let value = Translation::parse("{:0} de {:1}!").unwrap();
    assert_eq!(value.translate(&key, "3 of 5"), Ok("3 de 5!".to_string()));
}

#[test]
fn translate_rejects_dropped_placeholder() {
    let key = Translation::parse("{:0}").unwrap();
    let value = Translation::parse("x").unwrap();
    assert_eq!(value.translate(&key, "a"), Err(TranslationError::Mismatch));
    let value = Translation::parse("{:0}{:0}").unwrap();
    assert_eq!(value.translate(&key, "a"), Err(TranslationError::Mismatch));
}

#[test]
fn translate_fits_argument_containing_next_literal() {
    let key = Translation::parse("{:0}.").unwrap();
    let value = Translation::parse("{:0}!").unwrap();
    assert_eq!(value.translate(&key, "1.2."), Ok("1.2!".to_string()));
    assert!(key.fits("1.2."));
    assert!(!key.fits("1.2"));
}

#[test]
fn translate_adjacent_placeholders() {
    let key = Translation::parse("{:0}{:1}.").unwrap();
    let value = Translation::parse("[{:0}|{:1}]").unwrap();
    assert_eq!(value.translate(&key, "ab."), Ok("[|ab]".to_string()));
}

#[test]
fn translate_rejects_text_of_another_shape() {
    let key = Translation::parse("Hello {:0}").unwrap();
    let value = Translation::parse("Bonjour {:0}").unwrap();
    assert_eq!(value.translate(&key, "Bye Bob"), Err(TranslationError::Mismatch));
    let key = Translation::parse("{:0}!").unwrap();
    assert_eq!(value.translate(&key, "Bob?"), Err(TranslationError::Mismatch));
}

#[test]
fn translate_rejects_unknown_placeholder() {
    let key = Translation::parse("Hello {:0}").unwrap();
    let value = Translation::parse("Bonjour {:1}").unwrap();
    assert_eq!(value.translate(&key, "Hello Bob"), Err(TranslationError::Mismatch));
}

#[test]
fn translate_without_placeholders() {
    let key = Translation::parse("Open").unwrap();
    let value = Translation::parse("Ouvrir").unwrap();
    assert_eq!(value.translate(&key, "Open"), Ok("Ouvrir".to_string()));
}

#[test]
fn order_is_segment_wise() {
    let lit = Translation::parse("a").unwrap();
    let ph = Translation::parse("{:0}").unwrap();
    assert!(lit < ph);
    let a = Translation::parse("ab").unwrap();
    let b = Translation::parse("b").unwrap();
    assert!(a < b);
}
