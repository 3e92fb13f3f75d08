use vstd::prelude::*;
use crate::config::{Config, LangConfig, LangView, ConfigView};
use crate::toml_model::str_eq;
use crate::translations::{TranslationTable, lookup};

verus! {

/// The index of the first configured language named `name`, searching from `k`.
pub open spec fn find_lang_from(langs: Seq<LangView>, name: Seq<char>, k: int) -> Option<int>
    decreases langs.len() - k,
{
    if k < 0 || k >= langs.len() {
        None
    } else if langs[k].name == name {
        Some(k)
    } else {
        find_lang_from(langs, name, k + 1)
    }
}

/// The index of the first configured language named `name`.
pub open spec fn find_lang(langs: Seq<LangView>, name: Seq<char>) -> Option<int> {
    find_lang_from(langs, name, 0)
}

/// Where the search for a message's text in one language ends.
pub enum Resolution {
    /// The text, found in the language or in one that it falls back to.
    Found(Seq<char>),
    /// Neither the language nor any language it falls back to has a text.
    Missing,
    /// The chain of fallbacks names a language that is not configured.
    UnknownFallback(Seq<char>),
    /// The chain of fallbacks runs in a circle through languages without a text.
    Cyclic,
}

/// Searches for the text of `key` from the language at index `i`, following
/// at most `fuel` more fallbacks.
pub open spec fn resolve_steps(
    langs: Seq<LangView>,
    rows: Seq<(Seq<char>, Seq<char>, Seq<char>)>,
    key: Seq<char>,
    i: int,
    fuel: nat,
) -> Resolution
    decreases fuel,
{
    match lookup(rows, key, langs[i].name) {
        Some(t) => Resolution::Found(t),
        None => match langs[i].fallback {
            None => Resolution::Missing,
            Some(fb) => match find_lang(langs, fb) {
                None => Resolution::UnknownFallback(fb),
                Some(j) => if fuel == 0 {
                    Resolution::Cyclic
                } else {
                    resolve_steps(langs, rows, key, j, (fuel - 1) as nat)
                },
            },
        },
    }
}

/// The text of `key` for the configured language at index `i`: its own, or
/// that of the first language along its fallback chain that has one. With
/// `n` languages a chain that has not ended after `n` fallbacks has visited
/// some language twice, and so runs in a circle.
pub open spec fn resolve(
    langs: Seq<LangView>,
    rows: Seq<(Seq<char>, Seq<char>, Seq<char>)>,
    key: Seq<char>,
    i: int,
) -> Resolution {
    resolve_steps(langs, rows, key, i, langs.len())
}

/// The index of the language that the language at index `i` falls back to,
/// if it names one that is configured.
pub open spec fn step(langs: Seq<LangView>, i: int) -> Option<int> {
    match langs[i].fallback {
        Some(fb) => find_lang(langs, fb),
        None => None,
    }
}

/// The index reached from index `i` after `k` fallbacks, if the chain goes that far.
pub open spec fn walk(langs: Seq<LangView>, i: int, k: nat) -> Option<int>
    decreases k,
{
    if k == 0 {
        Some(i)
    } else {
        match walk(langs, i, (k - 1) as nat) {
            Some(j) => step(langs, j),
            None => None,
        }
    }
}

/// Every fallback names a configured language.
pub open spec fn fallbacks_known(langs: Seq<LangView>) -> bool {
    forall|i: int| 0 <= i < langs.len() && (#[trigger] langs[i].fallback) is Some
        ==> find_lang(langs, langs[i].fallback->Some_0) is Some
}

/// Following fallbacks from a language never comes back to it.
pub open spec fn fallbacks_acyclic(langs: Seq<LangView>) -> bool {
    forall|i: int, k: nat| 0 <= i < langs.len() && k >= 1 ==> #[trigger] walk(langs, i, k) != Some(i)
}

/// The search for `key` goes on from the language at index `j`: it has no
/// text and a fallback.
pub open spec fn continues(
    langs: Seq<LangView>,
    rows: Seq<(Seq<char>, Seq<char>, Seq<char>)>,
    key: Seq<char>,
    j: int,
) -> bool {
    lookup(rows, key, langs[j].name) is None && langs[j].fallback is Some
}

/// The chain from index `i` reaches, after `k` fallbacks, the first language
/// where the search stops.
pub open spec fn chain_stops_at(
    langs: Seq<LangView>,
    rows: Seq<(Seq<char>, Seq<char>, Seq<char>)>,
    key: Seq<char>,
    i: int,
    k: nat,
) -> bool {
    &&& walk(langs, i, k) is Some
    &&& forall|m: nat| m < k ==> #[trigger] walk(langs, i, m) is Some && continues(langs, rows, key, walk(langs, i, m)->Some_0)
    &&& !continues(langs, rows, key, walk(langs, i, k)->Some_0)
}

/// The language at index `i` is the last one configured under its name.
pub open spec fn is_last_name(langs: Seq<LangView>, i: int) -> bool {
    forall|j: int| i < j < langs.len() ==> #[trigger] langs[j].name != langs[i].name
}

/// The text a resolution hands to a language's arm.
pub open spec fn found_text(r: Resolution) -> Option<Seq<char>> {
    match r {
        Resolution::Found(t) => Some(t),
        _ => None,
    }
}

/// The resolution ends in a configuration fault rather than a text or a gap.
pub open spec fn is_fault(r: Resolution) -> bool {
    r is UnknownFallback || r is Cyclic
}

/// One entry per language name among the first `n` configured languages,
/// taken from the last language configured under that name, in order.
pub open spec fn resolved_prefix(
    langs: Seq<LangView>,
    rows: Seq<(Seq<char>, Seq<char>, Seq<char>)>,
    key: Seq<char>,
    n: int,
) -> Seq<(Seq<char>, Option<Seq<char>>)>
    decreases n,
{
    if n <= 0 {
        Seq::empty()
    } else {
        resolved_prefix(langs, rows, key, n - 1) + if is_last_name(langs, n - 1) {
            seq![(langs[n - 1].name, found_text(resolve(langs, rows, key, n - 1)))]
        } else {
            Seq::empty()
        }
    }
}

/// The first of the first `n` configured languages whose resolution is a
/// fault, with that fault.
pub open spec fn first_fault(
    langs: Seq<LangView>,
    rows: Seq<(Seq<char>, Seq<char>, Seq<char>)>,
    key: Seq<char>,
    n: int,
) -> Option<(Seq<char>, Resolution)>
    decreases n,
{
    if n <= 0 {
        None
    } else {
        match first_fault(langs, rows, key, n - 1) {
            Some(f) => Some(f),
            None => if is_fault(resolve(langs, rows, key, n - 1)) {
                Some((langs[n - 1].name, resolve(langs, rows, key, n - 1)))
            } else {
                None
            },
        }
    }
}

/// The entries that the languages of `cfg` get for `key`.
pub open spec fn translations_spec(cfg: ConfigView, rows: Seq<(Seq<char>, Seq<char>, Seq<char>)>, key: Seq<char>) -> Seq<(Seq<char>, Option<Seq<char>>)> {
    resolved_prefix(cfg.langs, rows, key, cfg.langs.len() as int)
}

/// The first fault among the languages of `cfg` when resolving `key`.
pub open spec fn translations_fault(cfg: ConfigView, rows: Seq<(Seq<char>, Seq<char>, Seq<char>)>, key: Seq<char>) -> Option<(Seq<char>, Resolution)> {
    first_fault(cfg.langs, rows, key, cfg.langs.len() as int)
}

/// A language's text for a message, or `None` where it has none.
pub struct ResolvedLang {
    pub lang: String,
    pub text: Option<String>,
}

impl View for ResolvedLang {
    type V = (Seq<char>, Option<Seq<char>>);

    open spec fn view(&self) -> (Seq<char>, Option<Seq<char>>) {
        (self.lang@, match self.text {
            Some(t) => Some(t@),
            None => None,
        })
    }
}

/// A fallback chain that cannot be followed to its end.
pub enum FallbackError {
    /// The chain of `lang` names the language `fallback`, which is not configured.
    UnknownLanguage { lang: String, fallback: String },
    /// The chain of `lang` runs in a circle through languages without a text.
    Cycle { lang: String },
}

impl View for FallbackError {
    type V = (Seq<char>, Resolution);

    open spec fn view(&self) -> (Seq<char>, Resolution) {
        match self {
            FallbackError::UnknownLanguage { lang, fallback } => (lang@, Resolution::UnknownFallback(fallback@)),
            FallbackError::Cycle { lang } => (lang@, Resolution::Cyclic),
        }
    }
}

/// Where the search from one language ends, as values.
enum Resolved {
    Found(String),
    Missing,
    UnknownFallback(String),
    Cyclic,
}

impl View for Resolved {
    type V = Resolution;

    closed spec fn view(&self) -> Resolution {
        match self {
            Resolved::Found(t) => Resolution::Found(t@),
            Resolved::Missing => Resolution::Missing,
            Resolved::UnknownFallback(f) => Resolution::UnknownFallback(f@),
            Resolved::Cyclic => Resolution::Cyclic,
        }
    }
}

/// The index of the first configured language named `name`.
fn find_lang_exec(langs: &Vec<LangConfig>, name: &str) -> (r: Option<usize>)
    ensures
        match r {
            Some(j) => find_lang(langs@.map_values(|l: LangConfig| l@), name@) == Some(j as int)
                && j < langs@.len(),
            None => find_lang(langs@.map_values(|l: LangConfig| l@), name@) is None,
        },
{
    let ghost v = langs@.map_values(|l: LangConfig| l@);
    let mut k: usize = 0;
    while k < langs.len()
        invariant
            k <= langs@.len(),
            v == langs@.map_values(|l: LangConfig| l@),
            find_lang(v, name@) == find_lang_from(v, name@, k as int),
        decreases langs@.len() - k,
    {
        if str_eq(langs[k].name.as_str(), name) {
            return Some(k);
        }
        k = k + 1;
    }
    None
}

/// Follows the fallback chain of the language at index `i`.
fn resolve_exec(langs: &Vec<LangConfig>, table: &TranslationTable, key: &str, i: usize) -> (r: Resolved)
    requires
        i < langs@.len(),
    ensures
        r@ == resolve(langs@.map_values(|l: LangConfig| l@), table@, key@, i as int),
{
    let ghost v = langs@.map_values(|l: LangConfig| l@);
    let mut cur: usize = i;
    let mut fuel: usize = langs.len();
    loop
        invariant
            cur < langs@.len(),
            fuel <= langs@.len(),
            v == langs@.map_values(|l: LangConfig| l@),
            resolve(v, table@, key@, i as int) == resolve_steps(v, table@, key@, cur as int, fuel as nat),
        decreases fuel,
    {
        let lang = &langs[cur];
        match table.get(key, lang.name.as_str()) {
            Some(t) => return Resolved::Found(t.clone()),
            None => {},
        }
        let fb = match &lang.fallback {
            None => return Resolved::Missing,
            Some(fb) => fb,
        };
        let j = match find_lang_exec(langs, fb.as_str()) {
            None => return Resolved::UnknownFallback(fb.clone()),
            Some(j) => j,
        };
        if fuel == 0 {
            return Resolved::Cyclic;
        }
        cur = j;
        fuel = fuel - 1;
    }
}

/// Whether the language at index `i` is the last one configured under its name.
fn is_last_name_exec(langs: &Vec<LangConfig>, i: usize) -> (r: bool)
    requires
        i < langs@.len(),
    ensures
        r == is_last_name(langs@.map_values(|l: LangConfig| l@), i as int),
{
    let ghost v = langs@.map_values(|l: LangConfig| l@);
    let mut j: usize = i;
    while j < langs.len()
        invariant
            i <= j <= langs@.len(),
            v == langs@.map_values(|l: LangConfig| l@),
            forall|k: int| i < k < j ==> #[trigger] v[k].name != v[i as int].name,
        decreases langs@.len() - j,
    {
        if j > i && str_eq(langs[j].name.as_str(), langs[i].name.as_str()) {
            assert(v[j as int].name == v[i as int].name);
            return false;
        }
        j = j + 1;
    }
    true
}

/// The text of message `key` for each configured language, following
/// fallbacks: one entry per language name, taken from the last language
/// configured under it, in configuration order. A fallback chain that names
/// an unknown language or runs in a circle is reported for the first
/// language whose chain does.
pub fn get_translations(key: &str, config: &Config, table: &TranslationTable) -> (r: Result<Vec<ResolvedLang>, FallbackError>)
    ensures
        match r {
            Ok(v) => translations_fault(config@, table@, key@) is None
                && v@.map_values(|e: ResolvedLang| e@) == translations_spec(config@, table@, key@),
            Err(e) => translations_fault(config@, table@, key@) == Some(e@),
        },
{
    let langs = &config.langs;
    let ghost v = langs@.map_values(|l: LangConfig| l@);
    assert(config@.langs == v);
    let mut out: Vec<ResolvedLang> = Vec::new();
    let mut i: usize = 0;
    while i < langs.len()
        invariant
            i <= langs@.len(),
            v == langs@.map_values(|l: LangConfig| l@),
            config@.langs == v,
            langs == &config.langs,
            first_fault(v, table@, key@, i as int) is None,
            out@.map_values(|e: ResolvedLang| e@) == resolved_prefix(v, table@, key@, i as int),
        decreases langs@.len() - i,
    {
        let res = resolve_exec(langs, table, key, i);
        let ghost before = out@.map_values(|e: ResolvedLang| e@);
        match res {
            Resolved::UnknownFallback(fb) => {
                assert(first_fault(v, table@, key@, i + 1) == Some((v[i as int].name, Resolution::UnknownFallback(fb@))));
                proof { lemma_first_fault_extends(v, table@, key@, i as int + 1); }
                return Err(FallbackError::UnknownLanguage { lang: langs[i].name.clone(), fallback: fb });
            },
            Resolved::Cyclic => {
                assert(first_fault(v, table@, key@, i + 1) == Some((v[i as int].name, Resolution::Cyclic)));
                proof { lemma_first_fault_extends(v, table@, key@, i as int + 1); }
                return Err(FallbackError::Cycle { lang: langs[i].name.clone() });
            },
            Resolved::Found(t) => {
                if is_last_name_exec(langs, i) {
                    out.push(ResolvedLang { lang: langs[i].name.clone(), text: Some(t) });
                    assert(out@.map_values(|e: ResolvedLang| e@) =~= resolved_prefix(v, table@, key@, i + 1));
                } else {
                    assert(out@.map_values(|e: ResolvedLang| e@) =~= resolved_prefix(v, table@, key@, i + 1));
                }
            },
            Resolved::Missing => {
                if is_last_name_exec(langs, i) {
                    out.push(ResolvedLang { lang: langs[i].name.clone(), text: None });
                    assert(out@.map_values(|e: ResolvedLang| e@) =~= resolved_prefix(v, table@, key@, i + 1));
                } else {
                    assert(out@.map_values(|e: ResolvedLang| e@) =~= resolved_prefix(v, table@, key@, i + 1));
                }
            },
        }
        i = i + 1;
    }
    Ok(out)
}

/// A fault among the first `k` languages is the first fault among all.
proof fn lemma_first_fault_extends(
    langs: Seq<LangView>,
    rows: Seq<(Seq<char>, Seq<char>, Seq<char>)>,
    key: Seq<char>,
    k: int,
)
    requires
        0 <= k <= langs.len(),
        first_fault(langs, rows, key, k) is Some,
    ensures
        first_fault(langs, rows, key, langs.len() as int) == first_fault(langs, rows, key, k),
    decreases langs.len() - k,
{
    if k < langs.len() {
        lemma_first_fault_extends(langs, rows, key, k + 1);
    }
}

} // verus!
