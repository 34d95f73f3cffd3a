use translatable::collection::TranslationNodeCollection;
use translatable::config::TranslationOverlap;
use translatable::language::LanguageRegistry;
use translatable::node::{RawValue, StructuralErrorKind, TranslationNode};
use translatable::translations::{
    load_lang_static, load_translation_static, load_translations, translate, RawSource,
    TranslationError,
};

fn registry() -> LanguageRegistry {
    LanguageRegistry::new(vec![
        ("en".to_string(), "English".to_string()),
        ("es".to_string(), "Spanish".to_string()),
        ("fr".to_string(), "French".to_string()),
    ])
}

fn text(s: &str) -> RawValue {
    RawValue::Text(s.to_string())
}

fn table(entries: Vec<(&str, RawValue)>) -> RawValue {
    RawValue::Table(entries.into_iter().map(|(k, v)| (k.to_string(), v)).collect())
}

fn top(entries: Vec<(&str, RawValue)>) -> Vec<(String, RawValue)> {
    entries.into_iter().map(|(k, v)| (k.to_string(), v)).collect()
}

/// `common.toml`: `[common] greeting.es = "¡Hola {name}!"`.
fn common_source() -> RawSource {
    (
        "translations/common.toml".to_string(),
        top(vec![(
            "common",
            table(vec![("greeting", table(vec![("es", text("¡Hola {name}!"))]))]),
        )]),
    )
}

fn common_collection() -> TranslationNodeCollection {
    load_translations(&vec![common_source()], TranslationOverlap::Overwrite, &registry()).unwrap()
}

fn bindings(pairs: &[(&str, &str)]) -> Vec<(String, String)> {
    pairs.iter().map(|(k, v)| (k.to_string(), v.to_string())).collect()
}

/// Two files that both define `a.b` in English.
fn overlapping_sources() -> Vec<RawSource> {
    vec![
        (
            "first.toml".to_string(),
            top(vec![("a", table(vec![("b", table(vec![("en", text("first"))]))]))]),
        ),
        (
            "second.toml".to_string(),
            top(vec![
                ("a", table(vec![("b", table(vec![("en", text("second"))]))])),
                ("only", table(vec![("here", table(vec![("en", text("later file"))]))])),
            ]),
        ),
    ]
}

#[test]
fn language_static_path_dynamic() {
    let result = translate(
        &common_collection(),
        &registry(),
        "es",
        "common.greeting",
        &bindings(&[("name", "john")]),
    );

    assert!(result.unwrap() == "¡Hola john!".to_string())
}

#[test]
fn both_dynamic() {
    let language = "es";
    let ten = 10.to_string();
    let result = translate(
        &common_collection(),
        &registry(),
        language,
        "common.greeting",
        &bindings(&[("lol", ten.as_str()), ("name", "john")]),
    );

    assert!(result.unwrap() == "¡Hola john!".to_string())
}

#[test]
fn resolve_returns_stored_template() {
    let r = load_translation_static(&common_collection(), &registry(), "es", "common.greeting");
    assert_eq!(r.unwrap(), "¡Hola {name}!");
}

#[test]
fn end_to_end_substitution() {
    let raw = load_translation_static(&common_collection(), &registry(), "es", "common.greeting")
        .unwrap();
    let out = translatable::template::substitute(&raw, &bindings(&[("name", "John")]));
    assert_eq!(out, "¡Hola John!");
}

#[test]
fn absent_path_is_not_found() {
    let c = common_collection();
    for path in ["common.farewell", "common", "common.greeting.es", "", "common..greeting"] {
        match load_translation_static(&c, &registry(), "es", path) {
            Err(TranslationError::PathNotFound(p)) => assert_eq!(p, path),
            other => panic!("unexpected {:?}", other),
        }
    }
}

#[test]
fn missing_language_is_reported() {
    match load_translation_static(&common_collection(), &registry(), "fr", "common.greeting") {
        Err(TranslationError::LanguageNotAvailable(l, p)) => {
            assert_eq!(l, "fr");
            assert_eq!(p, "common.greeting");
        },
        other => panic!("unexpected {:?}", other),
    }
}

#[test]
fn invalid_language_has_registered_suggestions() {
    let reg = registry();
    match load_translation_static(&common_collection(), &reg, "EN", "common.greeting") {
        Err(TranslationError::InvalidLanguage(l, sugg)) => {
            assert_eq!(l, "EN");
            assert_eq!(
                sugg,
                vec![
                    ("en".to_string(), "English".to_string()),
                    ("fr".to_string(), "French".to_string()),
                ]
            );
            for (code, _) in &sugg {
                assert!(reg.is_valid(code));
            }
        },
        other => panic!("unexpected {:?}", other),
    }
}

#[test]
fn invalid_language_without_matches() {
    match load_lang_static(&registry(), "xx") {
        Err(TranslationError::InvalidLanguage(l, sugg)) => {
            assert_eq!(l, "xx");
            assert!(sugg.is_empty());
        },
        other => panic!("unexpected {:?}", other),
    }
    assert_eq!(load_lang_static(&registry(), "es").unwrap(), "es");
}

#[test]
fn suggestions_match_display_names() {
    let reg = registry();
    assert_eq!(reg.suggest("SPAN"), vec![("es".to_string(), "Spanish".to_string())]);
    assert_eq!(reg.suggest_lowered("SPAN"), vec![]);
    assert_eq!(reg.suggest_lowered("span"), vec![("es".to_string(), "Spanish".to_string())]);
}

#[test]
fn overlap_ignore_keeps_first_file() {
    let c = load_translations(&overlapping_sources(), TranslationOverlap::Ignore, &registry())
        .unwrap();
    assert_eq!(load_translation_static(&c, &registry(), "en", "a.b").unwrap(), "first");
}

#[test]
fn overlap_overwrite_keeps_last_file() {
    let c = load_translations(&overlapping_sources(), TranslationOverlap::Overwrite, &registry())
        .unwrap();
    assert_eq!(load_translation_static(&c, &registry(), "en", "a.b").unwrap(), "second");
}

#[test]
fn path_missing_in_first_file_resolves_in_later_one() {
    let c = load_translations(&overlapping_sources(), TranslationOverlap::Ignore, &registry())
        .unwrap();
    assert_eq!(load_translation_static(&c, &registry(), "en", "only.here").unwrap(), "later file");
}

#[test]
fn mixed_table_is_rejected() {
    let sources = vec![(
        "bad.toml".to_string(),
        top(vec![("a", table(vec![("en", text("x"))])), ("b", text("y"))]),
    )];
    match load_translations(&sources, TranslationOverlap::Ignore, &registry()) {
        Err(TranslationError::InvalidTomlFormat(id, e)) => {
            assert_eq!(id, "bad.toml");
            assert!(e.path.is_empty());
            assert!(matches!(e.kind, StructuralErrorKind::MixedNodeKinds));
        },
        other => panic!("unexpected {:?}", other),
    }
}

#[test]
fn invalid_language_key_is_rejected_with_path() {
    let sources = vec![(
        "bad.toml".to_string(),
        top(vec![("a", table(vec![("b", table(vec![("zz", text("x"))]))]))]),
    )];
    match load_translations(&sources, TranslationOverlap::Ignore, &registry()) {
        Err(TranslationError::InvalidTomlFormat(id, e)) => {
            assert_eq!(id, "bad.toml");
            assert_eq!(e.path, vec!["a".to_string(), "b".to_string()]);
            match e.kind {
                StructuralErrorKind::InvalidLanguageCode(code) => assert_eq!(code, "zz"),
                other => panic!("unexpected {:?}", other),
            }
        },
        other => panic!("unexpected {:?}", other),
    }
}

#[test]
fn unbalanced_template_is_rejected() {
    let sources = vec![(
        "bad.toml".to_string(),
        top(vec![("a", table(vec![("en", text("{a}}"))]))]),
    )];
    match load_translations(&sources, TranslationOverlap::Ignore, &registry()) {
        Err(TranslationError::InvalidTomlFormat(_, e)) => match e.kind {
            StructuralErrorKind::UnbalancedTemplate(code) => assert_eq!(code, "en"),
            other => panic!("unexpected {:?}", other),
        },
        other => panic!("unexpected {:?}", other),
    }
}

#[test]
fn doubled_braces_balance() {
    let sources = vec![(
        "ok.toml".to_string(),
        top(vec![("a", table(vec![("en", text("{{a}}"))]))]),
    )];
    assert!(load_translations(&sources, TranslationOverlap::Ignore, &registry()).is_ok());
}

#[test]
fn other_values_are_rejected() {
    let sources = vec![("n.toml".to_string(), top(vec![("a", RawValue::Other)]))];
    assert!(load_translations(&sources, TranslationOverlap::Ignore, &registry()).is_err());
}

#[test]
fn empty_table_is_an_empty_namespace() {
    let t = top(vec![]);
    assert!(translatable::node::translations_valid(&t, &registry()));
    let node = TranslationNode::from_table(&t, &registry()).unwrap();
    assert!(node.find_path(&vec![]).is_none());
}

#[test]
fn reload_gives_identical_collection() {
    let a = load_translations(&overlapping_sources(), TranslationOverlap::Overwrite, &registry())
        .unwrap();
    let b = load_translations(&overlapping_sources(), TranslationOverlap::Overwrite, &registry())
        .unwrap();
    for path in ["a.b", "only.here", "a", "x"] {
        let ra = load_translation_static(&a, &registry(), "en", path);
        let rb = load_translation_static(&b, &registry(), "en", path);
        assert_eq!(format!("{:?}", ra), format!("{:?}", rb));
    }
    assert_eq!(
        format!("{:?}", a.get_node("first.toml")),
        format!("{:?}", b.get_node("first.toml"))
    );
}

#[test]
fn get_node_by_identifier() {
    let c = load_translations(&overlapping_sources(), TranslationOverlap::Ignore, &registry())
        .unwrap();
    assert!(c.get_node("second.toml").is_some());
    assert!(c.get_node("third.toml").is_none());
    let node = c.get_node("first.toml").unwrap();
    let obj = node.find_path(&vec!["a".to_string(), "b".to_string()]).unwrap();
    assert_eq!(obj.get("en").unwrap(), "first");
    assert!(obj.get("es").is_none());
}
