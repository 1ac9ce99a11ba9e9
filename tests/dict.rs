use translator::dict::{Dict, DictError};
use translator::records::Extractor;
use translator::translation::Translation;

fn t(text: &str) -> Translation {
    Translation::parse(text).unwrap()
}

fn value_of(d: &Dict, key: &str) -> Option<Option<String>> {
    d.get(&t(key)).map(|v| v.as_ref().map(|x| x.to_text()))
}

fn texts(d: Dict) -> Vec<(String, Option<String>)> {
    let mut v: Vec<(String, Option<String>)> = d
        .into_entries()
        .into_iter()
        .map(|(k, v)| (k.to_text(), v.map(|x| x.to_text())))
        .collect();
    v.sort();
    v
}

#[test]
fn from_dict_reads_pairs() {
    let d = Dict::from_dict("Open\tOuvrir\nClose\t\nHello {:0}\tBonjour {:0}").unwrap();
    assert_eq!(d.len(), 3);
    assert_eq!(value_of(&d, "Open"), Some(Some("Ouvrir".to_string())));
    assert_eq!(value_of(&d, "Close"), Some(None));
    assert_eq!(value_of(&d, "Hello {:0}"), Some(Some("Bonjour {:0}".to_string())));
    assert_eq!(value_of(&d, "Ouvrir"), None);
}

#[test]
fn from_dict_later_row_wins() {
    let d = Dict::from_dict("A\tX\nA\tY").unwrap();
    assert_eq!(d.len(), 1);
    assert_eq!(value_of(&d, "A"), Some(Some("Y".to_string())));
}

#[test]
fn from_dict_empty() {
    let d = Dict::from_dict("").unwrap();
    assert_eq!(d.len(), 0);
}

#[test]
fn from_dict_errors() {
    assert_eq!(Dict::from_dict("Open").err(), Some(DictError::Parse(Some(0))));
    assert_eq!(Dict::from_dict("Open {:x}\tOuvrir").err(), Some(DictError::Parse(Some(0))));
    assert_eq!(Dict::from_dict("Open\tOuvrir {:0").err(), Some(DictError::Parse(Some(0))));
    assert_eq!(Dict::from_dict("a\tb\nc {:\td").err(), Some(DictError::Parse(Some(1))));
    assert_eq!(Dict::from_dict("a\tb\tc").err(), Some(DictError::Parse(Some(0))));
    // Records of unequal length are refused by the record reader.
    assert_eq!(Dict::from_dict("a\tb\nc\td\te").err(), Some(DictError::Parse(None)));
}

#[test]
fn from_src_later_row_with_same_key_wins() {
    let ex = Extractor::source_rows();
    let d = Dict::from_src("A\tB\t1\tOpen\nA\tB\t1\tClose", &ex).unwrap();
    assert_eq!(d.len(), 1);
    assert_eq!(value_of(&d, "Close"), Some(None));
    assert_eq!(value_of(&d, "Open"), None);
}

#[test]
fn from_src_distinct_keys() {
    let ex = Extractor::source_rows();
    let d = Dict::from_src("A\tB\t1\tOpen\nA\tB\t2\tOpen\nA\tC\t1\tSave {:0}", &ex).unwrap();
    assert_eq!(texts(d), vec![("Open".to_string(), None), ("Save {:0}".to_string(), None)]);
}

#[test]
fn from_src_errors() {
    let ex = Extractor::source_rows();
    assert_eq!(Dict::from_src("A\tB\t1", &ex).err(), Some(DictError::Parse(Some(0))));
    assert_eq!(Dict::from_src("A\tB\t1\tOpen\tx", &ex).err(), Some(DictError::Parse(Some(0))));
    assert_eq!(Dict::from_src("A\tB\t1\t{:}", &ex).err(), Some(DictError::Parse(Some(0))));
    assert_eq!(
        Dict::from_src("A\tB\t1\tOk\nA\tB\t2\t{:}", &ex).err(),
        Some(DictError::Parse(Some(1)))
    );
}

#[test]
fn from_src_dst_joins_on_extraction_key() {
    let ex = Extractor::source_rows();
    let d = Dict::from_src_dst("A\tB\t1\tOpen", "A\tB\t1\tOuvrir", &ex).unwrap();
    assert_eq!(d.len(), 1);
    assert_eq!(value_of(&d, "Open"), Some(Some("Ouvrir".to_string())));
}

#[test]
fn from_src_dst_without_destination() {
    let ex = Extractor::source_rows();
    let d = Dict::from_src_dst(
        "A\tB\t1\tOpen\nA\tB\t2\tClose",
        "A\tB\t2\tFermer\nA\tB\t3\tSauver",
        &ex,
    )
    .unwrap();
    assert_eq!(
        texts(d),
        vec![("Close".to_string(), Some("Fermer".to_string())), ("Open".to_string(), None)]
    );
}

#[test]
fn from_src_dst_errors() {
    let ex = Extractor::source_rows();
    assert_eq!(
        Dict::from_src_dst("A\tB\t1\tOpen", "A\tB", &ex).err(),
        Some(DictError::Parse(Some(0)))
    );
    assert_eq!(
        Dict::from_src_dst("A\tB\t1\t{:", "A\tB\t1\tX", &ex).err(),
        Some(DictError::Parse(Some(0)))
    );
    assert_eq!(
        Dict::from_src_dst("A\tB\t1\tOpen\nA\tB\t2\tClose", "A\tB\t1\tX\nA\tB\t2\t{:", &ex).err(),
        Some(DictError::Parse(Some(1)))
    );
    assert_eq!(
        Dict::from_src_dst("A\tB\t1\tOpen\tx", "", &ex).err(),
        Some(DictError::Parse(Some(0)))
    );
    assert_eq!(
        Dict::from_src_dst("A\tB\t1\tOpen\nA\tB", "A\tB\t1\tX", &ex).err(),
        Some(DictError::Parse(None))
    );
}

#[test]
fn extractor_takes_key_and_text() {
    let ex = Extractor::new(2);
    let row = vec!["a".to_string(), "b".to_string(), "text".to_string()];
    assert_eq!(
        ex.extract(&row),
        Some((vec!["a".to_string(), "b".to_string()], "text".to_string()))
    );
    assert_eq!(ex.extract(&vec!["a".to_string(), "b".to_string()]), None);
    let long = vec!["a".to_string(), "b".to_string(), "text".to_string(), "extra".to_string()];
    assert_eq!(ex.extract(&long), None);
}

#[test]
fn merge_other_wins() {
    let a = Dict::from_dict("Open\tOuvrir\nClose\t").unwrap();
    let b = Dict::from_dict("Close\tFermer\nSave\tSauver").unwrap();
    let m = a.merge(b);
    assert_eq!(
        texts(m),
        vec![
            ("Close".to_string(), Some("Fermer".to_string())),
            ("Open".to_string(), Some("Ouvrir".to_string())),
            ("Save".to_string(), Some("Sauver".to_string())),
        ]
    );
}

#[test]
fn merge_disjoint_in_either_order() {
    let ab = Dict::from_dict("Open\tOuvrir").unwrap().merge(Dict::from_dict("Save\t").unwrap());
    let ba = Dict::from_dict("Save\t").unwrap().merge(Dict::from_dict("Open\tOuvrir").unwrap());
    assert_eq!(texts(ab), texts(ba));
}

#[test]
fn swap_drops_entries_without_value() {
    let d = Dict::from_dict("a\tx\nb\t\nc {:0}\ty {:0}").unwrap();
    let s = d.swap();
    assert_eq!(
        texts(s),
        vec![("x".to_string(), Some("a".to_string())), ("y {:0}".to_string(), Some("c {:0}".to_string()))]
    );
}

#[test]
fn swap_twice_keeps_entries_with_value() {
    let d = Dict::from_dict("a\tx\nb\t\nc\tz").unwrap();
    let twice = d.swap().swap();
    assert_eq!(
        texts(twice),
        vec![("a".to_string(), Some("x".to_string())), ("c".to_string(), Some("z".to_string()))]
    );
}

#[test]
fn swap_shared_value_keeps_one_key() {
    let d = Dict::from_dict("a\tx\nb\tx").unwrap();
    let s = d.swap();
    assert_eq!(s.len(), 1);
    let v = value_of(&s, "x").unwrap().unwrap();
    assert!(v == "a" || v == "b");
}

#[test]
fn translate_unknown_text_gives_empty() {
    let d = Dict::from_dict("Open\tOuvrir").unwrap();
    let ex = Extractor::source_rows();
    let out = d.translate("A\tB\t1\tSave", &ex).unwrap();
    assert_eq!(out, vec![(vec!["A".to_string(), "B".to_string(), "1".to_string()], String::new())]);
}

#[test]
fn translate_known_texts() {
    let d = Dict::from_dict("Open\tOuvrir\nClose\t\nHello {:0}\tBonjour {:0}\nBad {:0}\tMauvais {:1}")
        .unwrap();
    let ex = Extractor::source_rows();
    let out = d
        .translate("A\tB\t1\tOpen\nA\tB\t2\tClose\nA\tB\t3\tHello {:0}\nA\tB\t4\tBad {:0}", &ex)
        .unwrap();
    let texts: Vec<String> = out.into_iter().map(|(_, s)| s).collect();
    assert_eq!(
        texts,
        vec![
            "Ouvrir".to_string(),
            String::new(),
            "Bonjour {:0}".to_string(),
            "Bad {:0}".to_string(),
        ]
    );
}

#[test]
fn translate_substitutes_runtime_arguments() {
    let d = Dict::from_dict("Hello {:0}\tBonjour {:0}").unwrap();
    let ex = Extractor::source_rows();
    let out = d.translate("A\tB\t1\tHello Bob", &ex).unwrap();
    assert_eq!(
        out,
        vec![(vec!["A".to_string(), "B".to_string(), "1".to_string()], "Bonjour Bob".to_string())]
    );
}

#[test]
fn translate_prefers_exact_key() {
    let d = Dict::from_dict("Hello {:0}\tBonjour {:0}\nHello Bob\tSalut Bob").unwrap();
    let ex = Extractor::source_rows();
    let out = d.translate("A\tB\t1\tHello Bob\nA\tB\t2\tHello Ann", &ex).unwrap();
    let texts: Vec<String> = out.into_iter().map(|(_, s)| s).collect();
    assert_eq!(texts, vec!["Salut Bob".to_string(), "Bonjour Ann".to_string()]);
}

#[test]
fn translate_fitting_key_without_value_gives_empty() {
    let d = Dict::from_dict("Hello {:0}\t").unwrap();
    let ex = Extractor::source_rows();
    let out = d.translate("A\tB\t1\tHello Bob", &ex).unwrap();
    assert_eq!(out[0].1, "");
}

#[test]
fn translate_errors() {
    let d = Dict::new();
    let ex = Extractor::source_rows();
    assert_eq!(d.translate("A\tB", &ex), Err(DictError::Parse(Some(0))));
    assert_eq!(d.translate("A\tB\t1\tx\ty", &ex), Err(DictError::Parse(Some(0))));
    assert_eq!(d.translate("A\tB\t1\t{:0", &ex), Err(DictError::Parse(Some(0))));
    assert_eq!(
        d.translate("A\tB\t1\tFine\nA\tB\t2\tx{:0", &ex),
        Err(DictError::Parse(Some(1)))
    );
}

#[test]
fn insert_replaces_value() {
    let d = Dict::new().insert(t("a"), None).insert(t("a"), Some(t("b")));
    assert_eq!(d.len(), 1);
    assert_eq!(value_of(&d, "a"), Some(Some("b".to_string())));
}
