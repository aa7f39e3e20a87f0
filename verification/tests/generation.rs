use egui_i18n::generate::{
    catalog_file_ext, effective_extensions, effective_languages, extension_allowed,
    is_catalog_extension, is_default_language, path_in_build_output,
};
use egui_i18n::lex::scan_source_text;
use egui_i18n::sync::language_additions;
use egui_i18n::types::LanguageExt;

fn keys(list: &[&str]) -> Vec<String> {
    list.iter().map(|s| s.to_string()).collect()
}

#[test]
fn default_language_self_seeds() {
    let text = language_additions(None, &keys(&["greet"]), true).unwrap();
    assert_eq!(text, "greet = greet\n");
}

#[test]
fn other_language_gets_placeholder() {
    let text = language_additions(None, &keys(&["greet"]), false).unwrap();
    assert_eq!(text, "greet =\n");
}

#[test]
fn sync_skips_existing_and_deduplicates() {
    let existing = "greet =\n".to_string();
    let text = language_additions(Some(&existing), &keys(&["greet", "bye", "bye"]), false);
    assert_eq!(text.unwrap(), "bye =\n");
}

#[test]
fn sync_escapes_delimiter_in_keys() {
    let text = language_additions(None, &keys(&["a=b"]), true).unwrap();
    assert_eq!(text, "a\\=b = a=b\n");
}

#[test]
fn sync_twice_adds_nothing() {
    let discovered = keys(&["alpha", "beta"]);
    let first = language_additions(None, &discovered, false).unwrap();
    // the file now holds what the first run appended
    let second = language_additions(Some(&first), &discovered, false);
    assert!(second.is_none());
}

#[test]
fn sync_twice_after_existing_content() {
    let existing = "old = kept\n".to_string();
    let first = language_additions(Some(&existing), &keys(&["old", "new"]), true).unwrap();
    assert_eq!(first, "new = new\n");
    let mut file = existing.clone();
    file.push_str(&first);
    let second = language_additions(Some(&file), &keys(&["old", "new"]), true);
    assert!(second.is_none());
}

#[test]
fn extraction_finds_three_call_sites_in_order() {
    let source = r#"
        fn main() {
            let a = tr!("first");
            let b = egui::tr!("second", {name: "x"});
            let c = egui_i18n::tr!("third");
            let d = other::tr!("nope");
            let e = egui::tr::extra!("nope too");
            unrelated("nope either");
        }
    "#;
    let found = scan_source_text(source).unwrap();
    assert_eq!(found, vec!["first".to_string(), "second".to_string(), "third".to_string()]);
}

#[test]
fn extraction_recurses_into_nested_scopes() {
    let source = r#"
        fn main() {
            let f = || {
                if true {
                    println!("{}", tr!("inner"));
                }
            };
        }
    "#;
    let found = scan_source_text(source).unwrap();
    assert_eq!(found, vec!["inner".to_string()]);
}

#[test]
fn extraction_skips_calls_without_string_literal() {
    let source = "fn main() { let k = 1; tr!(k); tr!(\"yes\"); }";
    let found = scan_source_text(source).unwrap();
    assert_eq!(found, vec!["yes".to_string()]);
}

#[test]
fn visitor_recognizes_macro_paths() {
    let v = egui_i18n::extract::TranslationVisitor::new();
    assert!(v.translations.is_empty());
    assert!(v.is_from_egui_i18n(&keys(&["tr"])));
    assert!(v.is_from_egui_i18n(&keys(&["egui", "tr"])));
    assert!(v.is_from_egui_i18n(&keys(&["egui_i18n", "tr"])));
    assert!(!v.is_from_egui_i18n(&keys(&["egui", "tr", "extra"])));
    assert!(!v.is_from_egui_i18n(&keys(&["other", "tr"])));
    assert!(!v.is_from_egui_i18n(&keys(&["tr", "other"])));
    assert!(!v.is_from_egui_i18n(&keys(&[])));
}

#[test]
fn visitor_records_keys_in_order() {
    let mut v = egui_i18n::extract::TranslationVisitor::new();
    v.record_translation("one");
    v.record_translation("two");
    assert_eq!(v.translations, vec!["one".to_string(), "two".to_string()]);
}

#[test]
fn invalid_source_is_fatal() {
    assert!(scan_source_text("fn main( {").is_none());
}

#[test]
fn extension_defaults() {
    assert_eq!(effective_extensions(&Vec::new()), vec!["rs".to_string()]);
    assert_eq!(effective_extensions(&keys(&["toml"])), vec!["toml".to_string()]);
    assert_eq!(effective_languages(&Vec::new()), vec!["en_US".to_string()]);
    assert_eq!(catalog_file_ext(&None), "tgl");
    assert_eq!(catalog_file_ext(&Some(LanguageExt::Egl)), "egl");
    assert_eq!(catalog_file_ext(&Some(LanguageExt::Ftl)), "ftl");
}

#[test]
fn extension_match_is_case_insensitive() {
    assert!(extension_allowed("RS", &keys(&["rs"])));
    assert!(extension_allowed("rs", &keys(&["RS"])));
    assert!(!extension_allowed("toml", &keys(&["rs"])));
}

#[test]
fn build_output_paths_are_skipped() {
    assert!(path_in_build_output("/proj/target/debug/x.rs"));
    assert!(!path_in_build_output("/proj/src/x.rs"));
}

#[test]
fn catalog_extensions_for_loading() {
    assert!(is_catalog_extension("egl"));
    assert!(is_catalog_extension("FTL"));
    assert!(!is_catalog_extension("tgl"));
    assert!(!is_catalog_extension("rs"));
}

#[test]
fn default_language_check() {
    assert!(is_default_language(&Some("en".to_string()), "en"));
    assert!(!is_default_language(&Some("en".to_string()), "fr"));
    assert!(!is_default_language(&None, "en"));
}
