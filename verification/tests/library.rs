use static_l10n::arms::{build_l10n_arms, missing_translation_message, select_arm, Arm};
use static_l10n::catalog::{comparison_failure, Catalog, L10nError};
use static_l10n::config::{config_from_manifest, parse_metadata, Config, LangConfig, MetadataError};
use static_l10n::format::{format_template, format_template_with, FormatArg, FormatError};
use static_l10n::paths::sort_paths;
use static_l10n::render::decimal;
use static_l10n::resolve::{get_translations, FallbackError, ResolvedLang};
use static_l10n::toml_model::{str_eq, TomlValue};
use static_l10n::translations::{parse_translations, DuplicateTranslation, Translation, TranslationTable};

fn s(t: &str) -> String {
    t.to_string()
}

fn table(entries: Vec<(&str, TomlValue)>) -> TomlValue {
    TomlValue::Table(entries.into_iter().map(|(k, v)| (s(k), v)).collect())
}

fn text(t: &str) -> TomlValue {
    TomlValue::Str(s(t))
}

trait CloneValue {
    fn clone_value(&self) -> Self;
}

impl CloneValue for TomlValue {
    fn clone_value(&self) -> TomlValue {
        match self {
            TomlValue::Str(t) => TomlValue::Str(t.clone()),
            TomlValue::Array(items) => TomlValue::Array(items.iter().map(|v| v.clone_value()).collect()),
            TomlValue::Table(entries) => TomlValue::Table(entries.iter().map(|(k, v)| (k.clone(), v.clone_value())).collect()),
            TomlValue::Other => TomlValue::Other,
        }
    }
}

impl CloneValue for Option<TomlValue> {
    fn clone_value(&self) -> Option<TomlValue> {
        self.as_ref().map(|v| v.clone_value())
    }
}

fn lang(name: &str) -> LangConfig {
    LangConfig { name: s(name), fallback: None }
}

fn lang_fb(name: &str, fallback: &str) -> LangConfig {
    LangConfig { name: s(name), fallback: Some(s(fallback)) }
}

fn config(langs: Vec<LangConfig>) -> Config {
    Config { path: s("i18n"), base: s("en"), langs }
}

fn greeting_docs() -> Vec<Option<TomlValue>> {
    vec![Some(table(vec![
        ("Hello, world!", table(vec![("es", text("¡Hola, mundo!")), ("zh", text("你好，世界！"))])),
        ("Bye", table(vec![("es", text("Adiós"))])),
    ]))]
}

fn catalog(langs: Vec<LangConfig>) -> Catalog {
    match Catalog::from_documents(config(langs), &greeting_docs()) {
        Ok(c) => c,
        Err(_) => panic!("duplicate translation"),
    }
}

fn arg(v: &str) -> FormatArg {
    FormatArg { name: None, value: s(v) }
}

fn named(n: &str, v: &str) -> FormatArg {
    FormatArg { name: Some(s(n)), value: s(v) }
}

// ---- metadata ----

#[test]
fn metadata_reads_strings_and_tables() {
    let meta = table(vec![
        ("path", text("i18n")),
        ("base", text("en")),
        ("langs", TomlValue::Array(vec![text("en"), table(vec![("name", text("zh")), ("fallback", text("en"))]), TomlValue::Other])),
    ]);
    let c = parse_metadata(&meta).unwrap();
    assert_eq!(c.path, "i18n");
    assert_eq!(c.base, "en");
    assert_eq!(c.langs.len(), 2);
    assert_eq!(c.langs[0].name, "en");
    assert_eq!(c.langs[0].fallback, None);
    assert_eq!(c.langs[1].name, "zh");
    assert_eq!(c.langs[1].fallback, Some(s("en")));
}

#[test]
fn metadata_fallback_that_is_not_a_string_is_none() {
    let meta = table(vec![
        ("path", text("p")),
        ("base", text("en")),
        ("langs", TomlValue::Array(vec![table(vec![("name", text("zh")), ("fallback", TomlValue::Other)])])),
    ]);
    let c = parse_metadata(&meta).unwrap();
    assert_eq!(c.langs[0].fallback, None);
}

#[test]
fn metadata_language_table_without_name_is_invalid() {
    let meta = table(vec![
        ("path", text("p")),
        ("base", text("en")),
        ("langs", TomlValue::Array(vec![text("en"), table(vec![("fallback", text("en"))])])),
    ]);
    assert!(parse_metadata(&meta).is_none());
}

#[test]
fn metadata_langs_not_an_array_gives_no_languages() {
    let meta = table(vec![("path", text("p")), ("base", text("en")), ("langs", text("en"))]);
    let c = parse_metadata(&meta).unwrap();
    assert_eq!(c.langs.len(), 0);
}

#[test]
fn metadata_missing_fields_are_invalid() {
    assert!(parse_metadata(&table(vec![("base", text("en")), ("langs", TomlValue::Array(vec![]))])).is_none());
    assert!(parse_metadata(&table(vec![("path", text("p")), ("langs", TomlValue::Array(vec![]))])).is_none());
    assert!(parse_metadata(&table(vec![("path", text("p")), ("base", text("en"))])).is_none());
    assert!(parse_metadata(&table(vec![("path", TomlValue::Other), ("base", text("en")), ("langs", TomlValue::Array(vec![]))])).is_none());
    assert!(parse_metadata(&text("not a table")).is_none());
}

#[test]
fn manifest_lookup() {
    let meta = table(vec![("path", text("i18n")), ("base", text("en")), ("langs", TomlValue::Array(vec![text("en")]))]);
    let manifest = table(vec![("package", table(vec![("name", text("x")), ("metadata", table(vec![("static-l10n", meta)]))]))]);
    match config_from_manifest(&manifest) {
        Ok(c) => assert_eq!(c.base, "en"),
        Err(_) => panic!("expected a configuration"),
    }
    let no_meta = table(vec![("package", table(vec![("name", text("x"))]))]);
    assert!(matches!(config_from_manifest(&no_meta), Err(MetadataError::NotFound)));
    let bad = table(vec![("package", table(vec![("metadata", table(vec![("static-l10n", table(vec![("path", text("p"))]))]))]))]);
    assert!(matches!(config_from_manifest(&bad), Err(MetadataError::InvalidFormat)));
}

#[test]
fn toml_get_takes_first_entry() {
    let t = table(vec![("a", text("1")), ("b", text("2")), ("a", text("3"))]);
    assert_eq!(t.get("a").unwrap().as_str().unwrap(), "1");
    assert!(t.get("c").is_none());
    assert!(text("x").get("a").is_none());
    assert!(str_eq("héllo", "héllo"));
    assert!(!str_eq("hello", "hell"));
}

// ---- translation table ----

#[test]
fn translations_base_language_row_is_the_key() {
    let t = parse_translations(&greeting_docs(), &s("en")).ok().unwrap();
    assert_eq!(t.get("Hello, world!", "en").unwrap(), "Hello, world!");
    assert_eq!(t.get("Hello, world!", "es").unwrap(), "¡Hola, mundo!");
    assert_eq!(t.get("Bye", "en").unwrap(), "Bye");
    assert!(t.get("Bye", "zh").is_none());
    assert_eq!(t.len(), 5);
}

#[test]
fn translations_skip_non_strings_and_unparsed_files() {
    let docs = vec![
        None,
        Some(text("not a table")),
        Some(table(vec![("k", table(vec![("es", TomlValue::Other), ("fr", text("f"))])), ("plain", text("x"))])),
    ];
    let t = parse_translations(&docs, &s("en")).ok().unwrap();
    assert_eq!(t.len(), 3);
    assert!(t.get("k", "es").is_none());
    assert_eq!(t.get("k", "fr").unwrap(), "f");
    assert_eq!(t.get("plain", "en").unwrap(), "plain");
}

#[test]
fn translations_explicit_base_entry_is_kept() {
    // The README's Quick Start file: the base language written out.
    let docs = vec![Some(table(vec![
        ("Hello, world!", table(vec![("en", text("Hello, world!")), ("zh", text("你好，世界！"))])),
        ("Hello, {}!", table(vec![("en", text("Hello, {}!")), ("zh", text("你好，{}！"))])),
    ]))];
    let t = parse_translations(&docs, &s("en")).ok().unwrap();
    assert_eq!(t.len(), 4);
    assert_eq!(t.get("Hello, world!", "en").unwrap(), "Hello, world!");
    assert_eq!(t.get("Hello, world!", "zh").unwrap(), "你好，世界！");
    assert_eq!(t.get("Hello, {}!", "en").unwrap(), "Hello, {}!");
    assert_eq!(t.get("Hello, {}!", "zh").unwrap(), "你好，{}！");
}

#[test]
fn translations_explicit_base_entry_replaces_the_key() {
    let docs = vec![Some(table(vec![("k", table(vec![("en", text("other"))]))]))];
    let t = parse_translations(&docs, &s("en")).ok().unwrap();
    assert_eq!(t.len(), 1);
    assert_eq!(t.get("k", "en").unwrap(), "other");
}

#[test]
fn translations_key_split_over_files() {
    let docs = vec![
        Some(table(vec![("k", table(vec![("es", text("uno"))]))])),
        Some(table(vec![("j", table(vec![])), ("k", table(vec![("fr", text("un"))]))])),
    ];
    let t = parse_translations(&docs, &s("en")).ok().unwrap();
    assert_eq!(t.get("k", "es").unwrap(), "uno");
    assert_eq!(t.get("k", "fr").unwrap(), "un");
    assert_eq!(t.get("k", "en").unwrap(), "k");
    assert_eq!(t.get("j", "en").unwrap(), "j");
    assert_eq!(t.len(), 4);
}

#[test]
fn translations_duplicate_across_files_is_refused() {
    let docs = vec![
        Some(table(vec![("k", table(vec![("es", text("uno"))]))])),
        Some(table(vec![("k", table(vec![("fr", text("un")), ("es", text("una"))]))])),
    ];
    match parse_translations(&docs, &s("en")) {
        Err(DuplicateTranslation { key, lang }) => {
            assert_eq!(key, "k");
            assert_eq!(lang, "es");
        }
        Ok(_) => panic!("expected a duplicate"),
    }
}

#[test]
fn translations_duplicates_only_across_files() {
    // One file may give a message texts in several languages, and two files
    // may give one message texts in different languages.
    let one = vec![Some(table(vec![("k", table(vec![("es", text("a")), ("fr", text("b"))]))]))];
    assert!(parse_translations(&one, &s("en")).is_ok());
    let two = vec![
        Some(table(vec![("k", table(vec![("es", text("a"))]))])),
        Some(table(vec![("k", table(vec![("fr", text("b"))])), ("j", table(vec![("es", text("c"))]))])),
    ];
    assert!(parse_translations(&two, &s("en")).is_ok());
    // Two files that give one message a text in one language are refused,
    // whatever lies between them.
    let three = vec![
        Some(table(vec![("k", table(vec![("es", text("a"))]))])),
        None,
        Some(table(vec![("j", table(vec![("es", text("c"))]))])),
        Some(table(vec![("k", table(vec![("es", text("z")), ("fr", text("b"))]))])),
    ];
    match parse_translations(&three, &s("en")) {
        Err(d) => assert_eq!((d.key.as_str(), d.lang.as_str()), ("k", "es")),
        Ok(_) => panic!("expected a duplicate"),
    }
    // A value that is not a string gives no text, so it makes no duplicate.
    let four = vec![
        Some(table(vec![("k", table(vec![("es", text("a"))]))])),
        Some(table(vec![("k", table(vec![("es", TomlValue::Other)]))])),
    ];
    assert!(parse_translations(&four, &s("en")).is_ok());
}

#[test]
fn translations_file_order_does_not_change_the_table() {
    let a = Some(table(vec![("k", table(vec![("es", text("uno"))])), ("m", table(vec![]))]));
    let b = Some(table(vec![("k", table(vec![("fr", text("un"))]))]));
    let t1 = parse_translations(&vec![a.clone_value(), b.clone_value()], &s("en")).ok().unwrap();
    let t2 = parse_translations(&vec![b, a], &s("en")).ok().unwrap();
    for (k, l) in [("k", "es"), ("k", "fr"), ("k", "en"), ("m", "en"), ("m", "es")] {
        assert_eq!(t1.get(k, l), t2.get(k, l));
    }
}

#[test]
fn table_insert_refuses_a_second_text() {
    let mut t = TranslationTable::new();
    assert!(t.insert(Translation { key: s("k"), lang: s("es"), text: s("a") }).is_ok());
    assert!(t.contains("k", "es"));
    assert!(!t.contains("k", "fr"));
    assert!(t.insert(Translation { key: s("k"), lang: s("es"), text: s("b") }).is_err());
    assert_eq!(t.get("k", "es").unwrap(), "a");
    assert_eq!(t.len(), 1);
    assert_eq!(t.row(0).text, "a");
    let rows = vec![
        Translation { key: s("a"), lang: s("x"), text: s("1") },
        Translation { key: s("a"), lang: s("y"), text: s("2") },
        Translation { key: s("a"), lang: s("x"), text: s("3") },
    ];
    match TranslationTable::from_rows(&rows) {
        Err(d) => assert_eq!((d.key.as_str(), d.lang.as_str()), ("a", "x")),
        Ok(_) => panic!("expected a duplicate"),
    }
}

// ---- fallback resolution ----

#[test]
fn translations_follow_fallbacks() {
    let t = parse_translations(&greeting_docs(), &s("en")).ok().unwrap();
    let cfg = config(vec![lang("en"), lang("es"), lang_fb("zh", "en"), lang_fb("fr", "es")]);
    let r = get_translations("Bye", &cfg, &t).ok().unwrap();
    let got: Vec<(String, Option<String>)> = r.into_iter().map(|e: ResolvedLang| (e.lang, e.text)).collect();
    assert_eq!(
        got,
        vec![
            (s("en"), Some(s("Bye"))),
            (s("es"), Some(s("Adiós"))),
            (s("zh"), Some(s("Bye"))),
            (s("fr"), Some(s("Adiós"))),
        ]
    );
}

#[test]
fn translations_follow_long_fallback_chains() {
    let t = parse_translations(&greeting_docs(), &s("en")).ok().unwrap();
    let cfg = config(vec![lang("en"), lang_fb("ja", "ko"), lang_fb("ko", "es"), lang("es"), lang_fb("de", "ja")]);
    let r = get_translations("Bye", &cfg, &t).ok().unwrap();
    let got: Vec<(String, Option<String>)> = r.into_iter().map(|e: ResolvedLang| (e.lang, e.text)).collect();
    assert_eq!(
        got,
        vec![
            (s("en"), Some(s("Bye"))),
            (s("ja"), Some(s("Adiós"))),
            (s("ko"), Some(s("Adiós"))),
            (s("es"), Some(s("Adiós"))),
            (s("de"), Some(s("Adiós"))),
        ]
    );
    // A chain that ends without a text leaves the language without one, and
    // the expansion is a compile error naming a language without a text.
    let cfg = config(vec![lang("en"), lang_fb("ja", "ko"), lang("ko")]);
    let r = get_translations("Bye", &cfg, &t).ok().unwrap();
    assert_eq!(r[1].text, None);
    assert_eq!(r[2].text, None);
    let c = Catalog::from_documents(cfg, &greeting_docs()).ok().unwrap();
    match c.l10n("Bye") {
        Err(L10nError::MissingTranslation(m)) => assert_eq!(m, "Missing translation for key 'Bye' in lang 'ja'"),
        _ => panic!("expected a missing translation"),
    }
}

#[test]
fn translations_without_fallback_are_missing() {
    let t = parse_translations(&greeting_docs(), &s("en")).ok().unwrap();
    let cfg = config(vec![lang("en"), lang("zh")]);
    let r = get_translations("Bye", &cfg, &t).ok().unwrap();
    assert_eq!(r[1].lang, "zh");
    assert_eq!(r[1].text, None);
}

#[test]
fn translations_unknown_fallback_is_an_error() {
    let t = parse_translations(&greeting_docs(), &s("en")).ok().unwrap();
    let cfg = config(vec![lang("en"), lang_fb("zh", "de")]);
    match get_translations("Bye", &cfg, &t) {
        Err(FallbackError::UnknownLanguage { lang, fallback }) => {
            assert_eq!(lang, "zh");
            assert_eq!(fallback, "de");
        }
        _ => panic!("expected an unknown fallback"),
    }
    // A language that has its own text never follows its fallback.
    assert!(get_translations("Hello, world!", &cfg, &t).is_ok());
}

#[test]
fn translations_cyclic_fallback_is_an_error() {
    let t = parse_translations(&greeting_docs(), &s("en")).ok().unwrap();
    let cfg = config(vec![lang("en"), lang_fb("zh", "fr"), lang_fb("fr", "zh")]);
    match get_translations("Bye", &cfg, &t) {
        Err(FallbackError::Cycle { lang }) => assert_eq!(lang, "zh"),
        _ => panic!("expected a cycle"),
    }
}

#[test]
fn translations_keep_last_language_of_a_name() {
    let t = parse_translations(&greeting_docs(), &s("en")).ok().unwrap();
    let cfg = config(vec![lang("en"), lang("zh"), lang("es"), lang_fb("zh", "es")]);
    let r = get_translations("Bye", &cfg, &t).ok().unwrap();
    assert_eq!(r.len(), 3);
    assert_eq!(r[1].lang, "es");
    assert_eq!(r[2].lang, "zh");
    assert_eq!(r[2].text, Some(s("Adiós")));
}

// ---- arms ----

#[test]
fn arms_carry_missing_translation_errors() {
    let entries = vec![
        ResolvedLang { lang: s("en"), text: Some(s("Bye")) },
        ResolvedLang { lang: s("zh"), text: None },
    ];
    let arms = build_l10n_arms("Bye", &entries);
    match &arms[1] {
        Arm::Missing { lang, message } => {
            assert_eq!(lang, "zh");
            assert_eq!(message, "Missing translation for key 'Bye' in lang 'zh'");
        }
        Arm::Text { .. } => panic!("expected a missing arm"),
    }
    assert_eq!(select_arm(&arms, "zh"), Some(1));
    assert_eq!(select_arm(&arms, "de"), None);
    assert_eq!(missing_translation_message("k", "fr"), "Missing translation for key 'k' in lang 'fr'");
}

// ---- catalog ----

#[test]
fn catalog_starts_in_base_language_which_yields_the_key() {
    let c = catalog(vec![lang("en"), lang("es"), lang("zh")]);
    assert_eq!(c.current, "en");
    assert_eq!(c.l10n("Hello, world!").ok().unwrap(), "Hello, world!");
}

#[test]
fn catalog_lang_switch_reads_that_language() {
    let mut c = catalog(vec![lang("en"), lang("es"), lang("zh")]);
    c.lang("zh");
    assert_eq!(c.l10n("Hello, world!").ok().unwrap(), "你好，世界！");
    c.lang("es");
    assert_eq!(c.l10n("Hello, world!").ok().unwrap(), "¡Hola, mundo!");
}

#[test]
fn catalog_falls_back() {
    let mut c = catalog(vec![lang("en"), lang("es"), lang_fb("zh", "es")]);
    c.lang("zh");
    assert_eq!(c.l10n("Bye").ok().unwrap(), "Adiós");
}

#[test]
fn catalog_missing_translation_is_a_compile_error() {
    let c = catalog(vec![lang("en"), lang("es"), lang("zh")]);
    match c.l10n("Bye") {
        Err(L10nError::MissingTranslation(m)) => assert_eq!(m, "Missing translation for key 'Bye' in lang 'zh'"),
        _ => panic!("expected a missing translation"),
    }
    match c.l10n("Unknown") {
        Err(L10nError::MissingTranslation(m)) => assert_eq!(m, "Missing translation for key 'Unknown' in lang 'en'"),
        _ => panic!("expected a missing translation"),
    }
}

#[test]
fn catalog_unsupported_language() {
    let mut c = catalog(vec![lang("en"), lang("es"), lang("zh")]);
    c.lang("de");
    match c.l10n("Hello, world!") {
        Err(L10nError::UnsupportedLanguage(l)) => assert_eq!(l, "de"),
        _ => panic!("expected an unsupported language"),
    }
    let mut buf = s("x");
    assert!(c.l10n_write(&mut buf, "Hello, world!").is_err());
    assert_eq!(buf, "x");
}

#[test]
fn catalog_fallback_fault() {
    let c = catalog(vec![lang("en"), lang_fb("es", "de")]);
    assert!(matches!(c.l10n("Hello, world!"), Ok(_)));
    assert!(matches!(c.l10n("Unknown"), Err(L10nError::Fallback(FallbackError::UnknownLanguage { .. }))));
}

#[test]
fn catalog_f16n_checks_every_language() {
    let docs = vec![Some(table(vec![("n: {}", table(vec![("es", text("n: {}")), ("fr", text("n"))]))]))];
    let c = Catalog::from_documents(config(vec![lang("en"), lang("es"), lang("fr")]), &docs).ok().unwrap();
    match c.f16n("n: {}", &vec![arg("3")]) {
        Err(L10nError::Format { lang, error: FormatError::UnusedArgument(0) }) => assert_eq!(lang, "fr"),
        _ => panic!("expected a format error"),
    }
}

#[test]
fn catalog_panic_and_args_messages() {
    let mut c = catalog(vec![lang("en"), lang("es"), lang("zh")]);
    c.lang("es");
    assert_eq!(c.l10n_panic("Hello, world!").ok().unwrap(), "¡Hola, mundo!");
    let docs = vec![Some(table(vec![("{} left", table(vec![("es", text("quedan {}")), ("zh", text("剩 {}"))]))]))];
    let mut d = Catalog::from_documents(config(vec![lang("en"), lang("es"), lang("zh")]), &docs).ok().unwrap();
    d.lang("zh");
    assert_eq!(d.f16n_panic("{} left", &vec![arg("2")]).ok().unwrap(), "剩 2");
    assert_eq!(d.f16n_args("{} left", &vec![arg("2")]).ok().unwrap(), "剩 2");
    // `l10n!` yields the literal; the forms built on `format_args!`, `panic!`
    // and `write!` read it as a format string without arguments.
    let docs = vec![Some(table(vec![("{{x}}", table(vec![("es", text("{{y}}"))]))]))];
    let mut e = Catalog::from_documents(config(vec![lang("en"), lang("es")]), &docs).ok().unwrap();
    e.lang("es");
    assert_eq!(e.l10n("{{x}}").ok().unwrap(), "{{y}}");
    assert_eq!(e.l10n_args("{{x}}").ok().unwrap(), "{y}");
    assert_eq!(e.l10n_panic("{{x}}").ok().unwrap(), "{y}");
    let mut buf = String::new();
    assert!(e.l10n_writeln(&mut buf, "{{x}}").is_ok());
    assert_eq!(buf, "{y}\n");
    assert!(matches!(d.l10n_args("{} left"), Err(L10nError::Format { .. })));
}

#[test]
fn catalog_failed_assertions_carry_messages() {
    let mut c = catalog(vec![lang("en"), lang("es"), lang("zh")]);
    c.lang("es");
    assert_eq!(c.l10n_assert(false, "Hello, world!").ok().unwrap(), Some(s("¡Hola, mundo!")));
    assert_eq!(
        c.l10n_assert_eq(2, 5, "Hello, world!").ok().unwrap(),
        Some(s("assertion `left == right` failed: ¡Hola, mundo!\n  left: 2\n right: 5"))
    );
    assert_eq!(
        c.l10n_assert_ne(-7, -7, "Hello, world!").ok().unwrap(),
        Some(s("assertion `left != right` failed: ¡Hola, mundo!\n  left: -7\n right: -7"))
    );
    // A failing assertion in a language without an arm panics as unsupported,
    // a passing one never looks at the message.
    c.lang("de");
    assert!(matches!(c.l10n_assert(false, "Hello, world!"), Err(L10nError::UnsupportedLanguage(_))));
    assert_eq!(c.l10n_assert(true, "Hello, world!").ok().unwrap(), None);
    // A compile error stops even a passing assertion.
    assert!(matches!(c.l10n_assert(true, "Bye"), Err(L10nError::MissingTranslation(_))));
}

#[test]
fn catalog_debug_assertions_in_release_builds() {
    let mut c = catalog(vec![lang("en"), lang("es"), lang("zh")]);
    c.lang("es");
    // With debug assertions on, a failing condition panics with the text.
    assert_eq!(c.l10n_debug_assert(false, "Hello, world!").ok().unwrap(), Some(s("¡Hola, mundo!")));
    // With them off, the condition is not looked at.
    assert!(c.l10n_debug_assert_release("Hello, world!").is_ok());
    assert!(c.f16n_debug_assert_release("Hello, world!", &vec![]).is_ok());
    c.lang("de");
    assert!(c.l10n_debug_assert_release("Hello, world!").is_ok());
    // A compile error still stops the build.
    match c.l10n_debug_assert_release("Bye") {
        Err(L10nError::MissingTranslation(m)) => assert_eq!(m, "Missing translation for key 'Bye' in lang 'zh'"),
        _ => panic!("expected a missing translation"),
    }
    let docs = vec![Some(table(vec![("n: {}", table(vec![("es", text("n: {}")), ("fr", text("n"))]))]))];
    let d = Catalog::from_documents(config(vec![lang("en"), lang("es"), lang("fr")]), &docs).ok().unwrap();
    match d.f16n_debug_assert_release("n: {}", &vec![arg("3")]) {
        Err(L10nError::Format { lang, error: FormatError::UnusedArgument(0) }) => assert_eq!(lang, "fr"),
        _ => panic!("expected a format error"),
    }
    let e = catalog(vec![lang("en"), lang_fb("es", "de")]);
    assert!(matches!(e.l10n_debug_assert_release("Unknown"), Err(L10nError::Fallback(_))));
}

#[test]
fn catalog_metadata_report() {
    let c = catalog(vec![lang("en"), lang_fb("zh", "en")]);
    let lines = c.debug_print_metadata();
    assert_eq!(lines[0], "static-l10n metadata:");
    assert_eq!(lines[1], "  path: i18n");
    assert_eq!(lines[2], "  langs:");
    assert_eq!(lines[3], "    - name: en");
    assert_eq!(lines[4], "    - name: zh, fallback: en");
    assert_eq!(lines[5], "Loaded translations:");
    assert_eq!(lines[6], "  - key: Hello, world!, lang: es, translation: ¡Hola, mundo!");
    assert_eq!(lines[9], "  - key: Hello, world!, lang: en, translation: Hello, world!");
    assert_eq!(lines.len(), 6 + 5);
}

#[test]
fn catalog_duplicate_documents() {
    let docs = vec![Some(table(vec![("k", table(vec![("en", text("a"))])), ("k", table(vec![("en", text("b"))]))]))];
    match Catalog::from_documents(config(vec![lang("en")]), &docs) {
        Err(d) => assert_eq!((d.key.as_str(), d.lang.as_str()), ("k", "en")),
        Ok(_) => panic!("expected a duplicate"),
    }
}

// ---- formatting ----

fn fmt(t: &str, args: Vec<FormatArg>) -> Result<String, FormatError> {
    format_template(t, &args)
}

#[test]
fn format_plain_and_escaped() {
    assert_eq!(fmt("plain text", vec![]).ok().unwrap(), "plain text");
    assert_eq!(fmt("{{x}} and {{", vec![]).ok().unwrap(), "{x} and {");
    assert_eq!(fmt("", vec![]).ok().unwrap(), "");
}

#[test]
fn format_positional_indexed_named() {
    assert_eq!(fmt("a {} b {}", vec![arg("1"), arg("2")]).ok().unwrap(), "a 1 b 2");
    assert_eq!(fmt("{1}{0}{1}", vec![arg("x"), arg("y")]).ok().unwrap(), "yxy");
    assert_eq!(fmt("{who} and {}", vec![arg("me"), named("who", "you")]).ok().unwrap(), "you and me");
    assert_eq!(fmt("{}{}", vec![arg("p"), named("n", "q")]).ok().unwrap(), "pq");
}

#[test]
fn format_errors() {
    assert!(matches!(fmt("{", vec![]), Err(FormatError::UnmatchedOpen)));
    assert!(matches!(fmt("a } b", vec![]), Err(FormatError::UnmatchedClose)));
    assert!(matches!(fmt("{:x}", vec![arg("1")]), Err(FormatError::UnsupportedSpec)));
    assert!(matches!(fmt("{:1$}", vec![arg("1"), arg("5")]), Err(FormatError::UnsupportedSpec)));
    assert!(matches!(fmt("{:.*}", vec![arg("1"), arg("5")]), Err(FormatError::UnsupportedSpec)));
    assert!(matches!(fmt("{:++}", vec![arg("1")]), Err(FormatError::UnsupportedSpec)));
    assert!(matches!(fmt("{:.}", vec![arg("1")]), Err(FormatError::UnsupportedSpec)));
    assert!(matches!(fmt("{:5.x}", vec![arg("1")]), Err(FormatError::UnsupportedSpec)));
    assert!(matches!(fmt("{:70000}", vec![arg("1")]), Err(FormatError::UnsupportedSpec)));
    assert!(matches!(fmt("{:>4} {}", vec![arg("1")]), Err(FormatError::IndexOutOfRange)));
    assert!(matches!(fmt("{} {}", vec![arg("1")]), Err(FormatError::IndexOutOfRange)));
    assert!(matches!(fmt("{7}", vec![arg("1")]), Err(FormatError::IndexOutOfRange)));
    assert!(matches!(fmt("{99999999999999999999999999}", vec![arg("1")]), Err(FormatError::IndexOutOfRange)));
    match fmt("{nope}", vec![]) {
        Err(FormatError::UnknownName(n)) => assert_eq!(n, "nope"),
        _ => panic!("expected an unknown name"),
    }
    assert!(matches!(fmt("{}", vec![arg("1"), arg("2")]), Err(FormatError::UnusedArgument(1))));
    assert!(matches!(fmt("{a}", vec![named("a", "1"), arg("2")]), Err(FormatError::PositionalAfterNamed)));
    match fmt("{a}", vec![named("a", "1"), named("a", "2")]) {
        Err(FormatError::DuplicateName(n)) => assert_eq!(n, "a"),
        _ => panic!("expected a duplicate name"),
    }
}

#[test]
fn format_specs_pad_and_cut() {
    assert_eq!(fmt("{:>4}", vec![arg("1")]).ok().unwrap(), "   1");
    assert_eq!(fmt("[{:>5}]", vec![arg("a")]).ok().unwrap(), format!("[{:>5}]", "a"));
    assert_eq!(fmt("[{:<5}]", vec![arg("ab")]).ok().unwrap(), format!("[{:<5}]", "ab"));
    assert_eq!(fmt("[{:5}]", vec![arg("ab")]).ok().unwrap(), format!("[{:5}]", "ab"));
    assert_eq!(fmt("[{:^6}]", vec![arg("abc")]).ok().unwrap(), format!("[{:^6}]", "abc"));
    assert_eq!(fmt("[{:^7}]", vec![arg("ab")]).ok().unwrap(), "[  ab   ]");
    assert_eq!(fmt("[{:*>5}]", vec![arg("ab")]).ok().unwrap(), format!("[{:*>5}]", "ab"));
    assert_eq!(fmt("[{:é<4}]", vec![arg("x")]).ok().unwrap(), "[xééé]");
    assert_eq!(fmt("[{:.2}]", vec![arg("hello")]).ok().unwrap(), format!("[{:.2}]", "hello"));
    assert_eq!(fmt("[{:-^9.3}]", vec![arg("hello")]).ok().unwrap(), format!("[{:-^9.3}]", "hello"));
    assert_eq!(fmt("[{0:>3}|{0:<3}]", vec![arg("z")]).ok().unwrap(), format!("[{0:>3}|{0:<3}]", "z"));
    assert_eq!(fmt("[{name:5}]", vec![named("name", "ab")]).ok().unwrap(), format!("[{name:5}]", name = "ab"));
    assert_eq!(fmt("[{:2}]", vec![arg("long")]).ok().unwrap(), "[long]");
    assert_eq!(fmt("[{:}]", vec![arg("q")]).ok().unwrap(), "[q]");
    assert_eq!(fmt("[{:.0}]", vec![arg("q")]).ok().unwrap(), "[]");
    // Sign, `#` and `0` change nothing for a string.
    assert_eq!(fmt("[{:05}]", vec![arg("ab")]).ok().unwrap(), format!("[{:05}]", "ab"));
    assert_eq!(fmt("[{:+}]", vec![arg("ab")]).ok().unwrap(), format!("[{:+}]", "ab"));
    assert_eq!(fmt("[{:*^+#07.1}]", vec![arg("ab")]).ok().unwrap(), format!("[{:*^+#07.1}]", "ab"));
    assert_eq!(fmt("[{:#>4}]", vec![arg("ab")]).ok().unwrap(), format!("[{:#>4}]", "ab"));
    assert_eq!(fmt("[{:0>4}]", vec![arg("ab")]).ok().unwrap(), format!("[{:0>4}]", "ab"));
    assert_eq!(fmt("[{:#?}]", vec![arg("a\"b")]).ok().unwrap(), format!("[{:#?}]", "a\"b"));
}

#[test]
fn format_debug_spec_shows_quoted_strings() {
    assert_eq!(fmt("{:?}", vec![arg("a")]).ok().unwrap(), "\"a\"");
    assert_eq!(fmt("{:?}", vec![arg("say \"hi\"\n")]).ok().unwrap(), format!("{:?}", "say \"hi\"\n"));
    assert_eq!(fmt("{0:?} {0}", vec![arg("é\t")]).ok().unwrap(), format!("{0:?} {0}", "é\t"));
    assert_eq!(fmt("[{:>8?}]", vec![arg("ab")]).ok().unwrap(), format!("[{:>8?}]", "ab"));
    assert_eq!(fmt("[{n:.1?}]", vec![named("n", "ab")]).ok().unwrap(), format!("[{n:.1?}]", n = "ab"));
    // With the `Debug` texts given, `{:?}` shows them as they are.
    let args = vec![arg("x"), arg("y")];
    let debug = vec![s("<x>"), s("<y>")];
    assert_eq!(format_template_with("{1:?}{0}{0:?}", &args, &debug).ok().unwrap(), "<y>x<x>");
    assert!(matches!(format_template_with("{}", &args, &debug), Err(FormatError::UnusedArgument(1))));
}

// ---- rendering and ordering ----

#[test]
fn decimal_rendering() {
    assert_eq!(decimal(0), "0");
    assert_eq!(decimal(42), "42");
    assert_eq!(decimal(-15), "-15");
    assert_eq!(decimal(i64::MIN), i64::MIN.to_string());
    assert_eq!(decimal(i64::MAX), i64::MAX.to_string());
    assert_eq!(comparison_failure("==", "m", 1, -2), "assertion `left == right` failed: m\n  left: 1\n right: -2");
}

#[test]
fn paths_are_sorted_like_strings() {
    let input = vec![s("i18n/b.toml"), s("i18n/a/z.toml"), s("i18n/a.toml"), s("i18n/é.toml"), s("i18n/a.toml")];
    let mut expected = input.clone();
    expected.sort();
    assert_eq!(sort_paths(&input), expected);
    assert_eq!(sort_paths(&vec![]), Vec::<String>::new());
}
