use translatable::config::{SeekMode, TranslatableConfig, TranslationOverlap};
use translatable::translations::seek_order;

#[test]
fn defaults() {
    let c = TranslatableConfig::with_defaults();
    assert_eq!(c.path(), "./translations");
    assert_eq!(*c.seek_mode(), SeekMode::Alphabetical);
    assert_eq!(*c.overlap(), TranslationOverlap::Overwrite);
}

#[test]
fn explicit_values() {
    let c = TranslatableConfig::new(
        "lang".to_string(),
        SeekMode::Unalphabetical,
        TranslationOverlap::Ignore,
    );
    assert_eq!(c.path(), "lang");
    assert_eq!(*c.seek_mode(), SeekMode::Unalphabetical);
    assert_eq!(*c.overlap(), TranslationOverlap::Ignore);
}

#[test]
fn seek_order_is_case_insensitive() {
    let paths: Vec<String> =
        vec!["b.toml".to_string(), "A.toml".to_string(), "c.toml".to_string(), "a2.toml".to_string()];
    assert_eq!(seek_order(&paths, SeekMode::Alphabetical), vec!["A.toml", "a2.toml", "b.toml", "c.toml"]);
    assert_eq!(
        seek_order(&paths, SeekMode::Unalphabetical),
        vec!["c.toml", "b.toml", "a2.toml", "A.toml"]
    );
    assert!(seek_order(&vec![], SeekMode::Alphabetical).is_empty());
}
