use static_l10n::catalog::{Catalog, L10nError};
use static_l10n::config::{Config, LangConfig};
use static_l10n::format::FormatArg;
use static_l10n::toml_model::TomlValue;

fn s(t: &str) -> String {
    t.to_string()
}

fn table(entries: Vec<(&str, TomlValue)>) -> TomlValue {
    TomlValue::Table(entries.into_iter().map(|(k, v)| (s(k), v)).collect())
}

fn text(t: &str) -> TomlValue {
    TomlValue::Str(s(t))
}

fn lang(name: &str) -> LangConfig {
    LangConfig { name: s(name), fallback: None }
}

fn config() -> Config {
    Config {
        path: s("i18n"),
        base: s("en"),
        langs: vec![lang("en"), lang("es"), lang("fr"), lang("zh-cn")],
    }
}

fn documents() -> Vec<Option<TomlValue>> {
    vec![Some(table(vec![
        (
            "Hello, world!",
            table(vec![
                ("es", text("¡Hola, mundo!")),
                ("fr", text("Bonjour le monde!")),
                ("zh-cn", text("你好，世界！")),
            ]),
        ),
        (
            "Hello, {}!",
            table(vec![
                ("es", text("¡Hola, {}!")),
                ("fr", text("Bonjour, {}!")),
                ("zh-cn", text("你好，{}！")),
            ]),
        ),
        (
            "Hello, {name}!",
            table(vec![
                ("es", text("¡Hola, {name}!")),
                ("fr", text("Bonjour, {name}!")),
                ("zh-cn", text("你好，{name}！")),
            ]),
        ),
    ]))]
}

fn catalog() -> Catalog {
    match Catalog::from_documents(config(), &documents()) {
        Ok(c) => c,
        Err(_) => panic!("duplicate translation"),
    }
}

fn positional(v: &str) -> FormatArg {
    FormatArg { name: None, value: s(v) }
}

fn named(n: &str, v: &str) -> FormatArg {
    FormatArg { name: Some(s(n)), value: s(v) }
}

fn ok(r: Result<String, L10nError>) -> String {
    match r {
        Ok(t) => t,
        Err(_) => panic!("localization failed"),
    }
}

#[test]
fn l10n_basic_lookup() {
    let mut c = catalog();
    c.lang("es");
    assert_eq!(ok(c.l10n("Hello, world!")), "¡Hola, mundo!");
    c.lang("fr");
    assert_eq!(ok(c.l10n("Hello, world!")), "Bonjour le monde!");
}

#[test]
fn f16n_formatting() {
    let mut c = catalog();
    c.lang("zh-cn");
    assert_eq!(ok(c.f16n("Hello, {}!", &vec![positional("Rust")])), "你好，Rust！");
    assert_eq!(ok(c.f16n("Hello, {name}!", &vec![named("name", "World")])), "你好，World！");
}

#[test]
fn args_macros() {
    let mut c = catalog();
    c.lang("en");
    let msg = ok(c.l10n_args("Hello, world!"));
    assert_eq!(msg, "Hello, world!");
    let msg = ok(c.f16n_args("Hello, {}!", &vec![positional("Rust")]));
    assert_eq!(msg, "Hello, Rust!");
}

#[test]
fn write_macros() {
    let mut c = catalog();
    c.lang("es");
    let mut buf = String::new();
    assert!(c.l10n_write(&mut buf, "Hello, world!").is_ok());
    assert_eq!(buf, "¡Hola, mundo!");

    let mut buf = String::new();
    assert!(c.l10n_writeln(&mut buf, "Hello, world!").is_ok());
    assert_eq!(buf, "¡Hola, mundo!\n");

    let mut buf = String::new();
    assert!(c.f16n_write(&mut buf, "Hello, {}!", &vec![positional("Rust")]).is_ok());
    assert_eq!(buf, "¡Hola, Rust!");

    let mut buf = String::new();
    assert!(c.f16n_writeln(&mut buf, "Hello, {}!", &vec![positional("Rust")]).is_ok());
    assert_eq!(buf, "¡Hola, Rust!\n");
}

fn passes(r: Result<Option<String>, L10nError>) {
    match r {
        Ok(None) => {},
        Ok(Some(m)) => panic!("{}", m),
        Err(_) => panic!("localization failed"),
    }
}

#[test]
fn assert_macros() {
    let mut c = catalog();
    c.lang("en");
    passes(c.l10n_assert(1 + 1 == 2, "Hello, world!"));
    passes(c.l10n_assert_eq(2 + 2, 4, "Hello, world!"));
    passes(c.l10n_assert_ne(2 + 2, 5, "Hello, world!"));
    passes(c.l10n_debug_assert(true, "Hello, world!"));
    passes(c.l10n_debug_assert_eq(3, 3, "Hello, world!"));
    passes(c.l10n_debug_assert_ne(3, 4, "Hello, world!"));

    let rust = vec![positional("Rust")];
    passes(c.f16n_assert(1 + 1 == 2, "Hello, {}!", &rust));
    passes(c.f16n_assert_eq(2 + 2, 4, "Hello, {}!", &rust));
    passes(c.f16n_assert_ne(2 + 2, 5, "Hello, {}!", &rust));
    passes(c.f16n_debug_assert(true, "Hello, {}!", &rust));
    passes(c.f16n_debug_assert_eq(3, 3, "Hello, {}!", &rust));
    passes(c.f16n_debug_assert_ne(3, 4, "Hello, {}!", &rust));
}
