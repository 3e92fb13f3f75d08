use vstd::prelude::*;
use crate::toml_model::TomlValue;

verus! {

/// One configured language: its name and, optionally, the language whose
/// translations stand in for the ones it lacks.
pub struct LangConfig {
    pub name: String,
    pub fallback: Option<String>,
}

/// The `[package.metadata.static-l10n]` table: where the translation files
/// lie, the base language (whose text is the key itself), and the languages.
pub struct Config {
    pub path: String,
    pub base: String,
    pub langs: Vec<LangConfig>,
}

/// A configured language, by the views of its parts.
pub struct LangView {
    pub name: Seq<char>,
    pub fallback: Option<Seq<char>>,
}

/// A configuration, by the views of its parts.
pub struct ConfigView {
    pub path: Seq<char>,
    pub base: Seq<char>,
    pub langs: Seq<LangView>,
}

impl View for LangConfig {
    type V = LangView;

    open spec fn view(&self) -> LangView {
        LangView {
            name: self.name@,
            fallback: match self.fallback {
                Some(f) => Some(f@),
                None => None,
            },
        }
    }
}

impl View for Config {
    type V = ConfigView;

    open spec fn view(&self) -> ConfigView {
        ConfigView {
            path: self.path@,
            base: self.base@,
            langs: self.langs@.map_values(|l: LangConfig| l@),
        }
    }
}

/// Why the manifest yields no configuration.
pub enum MetadataError {
    /// The manifest has no `package.metadata.static-l10n` table.
    NotFound,
    /// The table lacks `path` or `base` as strings, or `langs`, or holds a
    /// language table without a string `name`.
    InvalidFormat,
}

/// The text under `key` of a value, when `v` is a table holding a string there.
pub open spec fn str_field(v: TomlValue, key: Seq<char>) -> Option<Seq<char>> {
    match v.spec_get(key) {
        Some(f) => f.spec_as_str(),
        None => None,
    }
}

/// How one element of `langs` reads: `None` makes the whole metadata
/// invalid, `Some(None)` is skipped, `Some(Some(l))` is the language `l`.
pub open spec fn lang_item(v: TomlValue) -> Option<Option<LangView>> {
    match v {
        TomlValue::Str(s) => Some(Some(LangView { name: s@, fallback: None })),
        TomlValue::Table(_) => match str_field(v, "name"@) {
            Some(n) => Some(Some(LangView { name: n, fallback: str_field(v, "fallback"@) })),
            None => None,
        },
        _ => Some(None),
    }
}

/// The languages that the elements of the `langs` array describe, in order.
pub open spec fn lang_items(items: Seq<TomlValue>) -> Option<Seq<LangView>>
    decreases items.len(),
{
    if items.len() == 0 {
        Some(Seq::empty())
    } else {
        match lang_items(items.drop_last()) {
            None => None,
            Some(prefix) => match lang_item(items.last()) {
                None => None,
                Some(None) => Some(prefix),
                Some(Some(l)) => Some(prefix.push(l)),
            },
        }
    }
}

/// The configuration that a metadata table describes: `path`, `base` and
/// `langs` must be present, the first two as strings; a `langs` that is not
/// an array yields no languages.
pub open spec fn metadata_spec(cfg: TomlValue) -> Option<ConfigView> {
    match (str_field(cfg, "path"@), str_field(cfg, "base"@), cfg.spec_get("langs"@)) {
        (Some(path), Some(base), Some(langs_value)) => match langs_value {
            TomlValue::Array(items) => match lang_items(items@) {
                Some(langs) => Some(ConfigView { path, base, langs }),
                None => None,
            },
            _ => Some(ConfigView { path, base, langs: Seq::empty() }),
        },
        _ => None,
    }
}

/// The metadata table of a manifest: `package.metadata.static-l10n`.
pub open spec fn manifest_table(manifest: TomlValue) -> Option<TomlValue> {
    match manifest.spec_get("package"@) {
        Some(pkg) => match pkg.spec_get("metadata"@) {
            Some(meta) => meta.spec_get("static-l10n"@),
            None => None,
        },
        None => None,
    }
}

/// The string under `key` of a table, copied.
fn get_str(v: &TomlValue, key: &str) -> (r: Option<String>)
    ensures
        match r {
            Some(s) => str_field(*v, key@) == Some(s@),
            None => str_field(*v, key@) is None,
        },
{
    match v.get(key) {
        Some(f) => match f.as_str() {
            Some(s) => Some(s.clone()),
            None => None,
        },
        None => None,
    }
}

/// Reads one element of `langs`; see `lang_item`.
fn parse_lang(v: &TomlValue) -> (r: Option<Option<LangConfig>>)
    ensures
        match r {
            None => lang_item(*v) is None,
            Some(None) => lang_item(*v) == Some(None::<LangView>),
            Some(Some(l)) => lang_item(*v) == Some(Some(l@)),
        },
{
    match v {
        TomlValue::Str(s) => Some(Some(LangConfig { name: s.clone(), fallback: None })),
        TomlValue::Table(_) => match get_str(v, "name") {
            Some(name) => {
                let fallback = get_str(v, "fallback");
                Some(Some(LangConfig { name, fallback }))
            },
            None => None,
        },
        _ => Some(None),
    }
}

/// Reads the static-l10n metadata table into a configuration.
#[verifier::loop_isolation(false)]
pub fn parse_metadata(cfg: &TomlValue) -> (r: Option<Config>)
    ensures
        match r {
            Some(c) => metadata_spec(*cfg) == Some(c@),
            None => metadata_spec(*cfg) is None,
        },
{
    let path = match get_str(cfg, "path") {
        Some(p) => p,
        None => return None,
    };
    let base = match get_str(cfg, "base") {
        Some(b) => b,
        None => return None,
    };
    let langs_value = match cfg.get("langs") {
        Some(v) => v,
        None => return None,
    };
    let mut langs: Vec<LangConfig> = Vec::new();
    if let TomlValue::Array(items) = langs_value {
        let mut i: usize = 0;
        while i < items.len()
            invariant
                i <= items@.len(),
                lang_items(items@.take(i as int)) == Some(langs@.map_values(|l: LangConfig| l@)),
            decreases items@.len() - i,
        {
            assert(items@.take(i + 1).drop_last() =~= items@.take(i as int));
            assert(items@.take(i + 1).last() == items@[i as int]);
            match parse_lang(&items[i]) {
                None => {
                    assert(lang_items(items@.take(i + 1)) is None);
                    proof { lemma_lang_items_none_extends(items@, i as int + 1); }
                    assert(items@.take(items@.len() as int) =~= items@);
                    return None;
                },
                Some(None) => {},
                Some(Some(l)) => {
                    let ghost before = langs@.map_values(|l: LangConfig| l@);
                    langs.push(l);
                    assert(langs@.map_values(|l: LangConfig| l@) =~= before.push(l@));
                },
            }
            i = i + 1;
        }
        assert(items@.take(items@.len() as int) =~= items@);
        assert(lang_items(items@) == Some(langs@.map_values(|l: LangConfig| l@)));
    } else {
        assert(langs@.map_values(|l: LangConfig| l@) =~= Seq::<LangView>::empty());
    }
    let r = Config { path, base, langs };
    assert(r@.langs =~= r.langs@.map_values(|l: LangConfig| l@));
    Some(r)
}

/// Once a prefix of `langs` is invalid, every longer prefix is too.
proof fn lemma_lang_items_none_extends(items: Seq<TomlValue>, k: int)
    requires
        0 <= k <= items.len(),
        lang_items(items.take(k)) is None,
    ensures
        forall|j: int| k <= j <= items.len() ==> #[trigger] lang_items(items.take(j)) is None,
    decreases items.len() - k,
{
    if k < items.len() {
        assert(items.take(k + 1).drop_last() =~= items.take(k));
        lemma_lang_items_none_extends(items, k + 1);
    }
}

/// Finds the static-l10n table in a parsed `Cargo.toml` and reads it.
pub fn config_from_manifest(manifest: &TomlValue) -> (r: Result<Config, MetadataError>)
    ensures
        match r {
            Ok(c) => manifest_table(*manifest) matches Some(t) && metadata_spec(t) == Some(c@),
            Err(MetadataError::NotFound) => manifest_table(*manifest) is None,
            Err(MetadataError::InvalidFormat) => manifest_table(*manifest) matches Some(t)
                && metadata_spec(t) is None,
        },
{
    let pkg = match manifest.get("package") {
        Some(p) => p,
        None => return Err(MetadataError::NotFound),
    };
    let meta = match pkg.get("metadata") {
        Some(m) => m,
        None => return Err(MetadataError::NotFound),
    };
    let cfg = match meta.get("static-l10n") {
        Some(c) => c,
        None => return Err(MetadataError::NotFound),
    };
    match parse_metadata(cfg) {
        Some(c) => Ok(c),
        None => Err(MetadataError::InvalidFormat),
    }
}

} // verus!
