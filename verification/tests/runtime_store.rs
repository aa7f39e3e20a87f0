use egui_i18n::store::Translations;

fn args(pairs: &[(&str, &str)]) -> Vec<(String, String)> {
    pairs.iter().map(|(k, v)| (k.to_string(), v.to_string())).collect()
}

#[test]
fn language_slots_default_empty_and_update() {
    let mut t = Translations::new();
    assert_eq!(t.get_language(), "");
    assert_eq!(t.get_fallback(), "");
    t.set_language("fr");
    t.set_fallback("en");
    assert_eq!(t.get_language(), "fr");
    assert_eq!(t.get_fallback(), "en");
}

#[test]
fn languages_lists_loaded_catalogs() {
    let mut t = Translations::new();
    assert!(t.languages().is_empty());
    t.load_translations_from_text("en", "hi = Hi").unwrap();
    t.load_translations_from_text("fr", "hi = Salut").unwrap();
    let langs = t.languages();
    assert_eq!(langs, vec!["en".to_string(), "fr".to_string()]);
}

#[test]
fn reload_replaces_not_merges() {
    let mut t = Translations::new();
    t.load_translations_from_text("en", "a = 1\nb = 2").unwrap();
    t.load_translations_from_text("en", "a = 9").unwrap();
    assert_eq!(t.languages().len(), 1);
    assert_eq!(t.translate("en", "", "a", &args(&[])), "9");
    // `b` was dropped by the replacing load
    assert_eq!(t.translate("en", "", "b", &args(&[])), "");
}

#[test]
fn fallback_resolution_with_empty_language() {
    let mut t = Translations::new();
    t.load_translations_from_text("en", "hi = Hi {name}").unwrap();
    let r = t.translate("", "en", "hi", &args(&[("name", "Ann")]));
    assert_eq!(r, "Hi Ann");
}

#[test]
fn fallback_on_miss_in_current_language() {
    let mut t = Translations::new();
    t.load_translations_from_text("en", "hi = Hi {name}").unwrap();
    t.load_translations_from_text("fr", "bye = Au revoir").unwrap();
    t.set_language("fr");
    t.set_fallback("en");
    let r = t.translate_classic("hi", &args(&[("name", "Ann")]));
    assert_eq!(r, "Hi Ann");
}

#[test]
fn both_languages_empty_yields_empty() {
    let mut t = Translations::new();
    t.load_translations_from_text("en", "hi = Hi").unwrap();
    assert_eq!(t.translate("", "", "hi", &args(&[])), "");
}

#[test]
fn empty_template_falls_back() {
    let mut t = Translations::new();
    t.load_translations_from_map("fr", &args(&[("hi", "")])).unwrap();
    t.load_translations_from_text("en", "hi = Hi").unwrap();
    assert_eq!(t.translate("fr", "en", "hi", &args(&[])), "Hi");
}

#[test]
fn unmatched_placeholders_stay_literal() {
    let mut t = Translations::new();
    t.load_translations_from_text("en", "msg = Hi {name} {missing}").unwrap();
    let r = t.translate("en", "", "msg", &args(&[("name", "A"), ("extra", "ignored")]));
    assert_eq!(r, "Hi A {missing}");
}

#[test]
fn load_from_map_drops_empty_values() {
    let mut t = Translations::new();
    t.load_translations_from_map("en", &args(&[("a", "1"), ("b", "")])).unwrap();
    assert_eq!(t.translate("en", "", "a", &args(&[])), "1");
    assert_eq!(t.translate("en", "", "b", &args(&[])), "");
}

#[test]
fn load_from_map_escapes_keys() {
    let mut t = Translations::new();
    t.load_translations_from_map("en", &args(&[("Hello=", "v")])).unwrap();
    assert_eq!(t.translate("en", "", "Hello=", &args(&[])), "v");
}

#[test]
fn placeholder_without_closing_brace_stays_literal() {
    let mut t = Translations::new();
    t.load_translations_from_text("en", "msg = open {name").unwrap();
    assert_eq!(t.translate("en", "", "msg", &args(&[("name", "A")])), "open {name");
}

#[test]
fn later_argument_wins_for_repeated_names() {
    let mut t = Translations::new();
    t.load_translations_from_text("en", "msg = {n}").unwrap();
    assert_eq!(t.translate("en", "", "msg", &args(&[("n", "1"), ("n", "2")])), "2");
}

#[test]
fn lookup_misses_resolve_to_empty() {
    let mut t = Translations::new();
    t.load_translations_from_text("en", "hi = Hi").unwrap();
    // absent key, and a language with no loaded catalog
    assert_eq!(t.translate("en", "", "nope", &args(&[])), "");
    assert_eq!(t.translate("de", "", "hi", &args(&[])), "");
}
