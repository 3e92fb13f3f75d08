use vstd::prelude::*;
use crate::config::{ConfigView, LangView, lang_item, lang_items, metadata_spec};
use crate::translations::{lookup, has_pair, no_duplicate_pairs, with_base_rows, table_rows, explicit_rows, all_keys, doc_rows, file_rows, file_keys, entry_rows, lang_rows};
use crate::toml_model::TomlValue;
use crate::resolve::{
    Resolution, resolve, resolve_steps, resolved_prefix, is_last_name, found_text, find_lang,
    find_lang_from, translations_spec, translations_fault,
};
use crate::arms::{ArmView, arms_of, arm_of, select, first_missing, missing_message};
use crate::catalog::{expansion, l10n_spec, L10nFault};
use crate::resolve::{first_fault, is_fault, step, walk, fallbacks_known, fallbacks_acyclic, continues, chain_stops_at};
use crate::format::{FormatFault, format_spec, scan, lift, close_from, args_fault, first_unused, placeholder, colon_from, apply_spec, no_spec, debug_views};

verus! {

/// Selecting in a concatenation selects in the first part, or else in the second.
proof fn lemma_select_concat(a: Seq<ArmView>, b: Seq<ArmView>, x: Seq<char>)
    ensures
        select(a + b, x) == match select(a, x) {
            Some(y) => Some(y),
            None => select(b, x),
        },
    decreases a.len(),
{
    if a.len() == 0 {
        assert(a + b =~= b);
    } else {
        assert((a + b).drop_first() =~= a.drop_first() + b);
        assert((a + b)[0] == a[0]);
        lemma_select_concat(a.drop_first(), b, x);
    }
}

/// The arms of a concatenation are the concatenation of the arms.
proof fn lemma_arms_of_concat(
    key: Seq<char>,
    a: Seq<(Seq<char>, Option<Seq<char>>)>,
    b: Seq<(Seq<char>, Option<Seq<char>>)>,
)
    ensures
        arms_of(key, a + b) == arms_of(key, a) + arms_of(key, b),
{
    assert(arms_of(key, a + b) =~= arms_of(key, a) + arms_of(key, b));
}

/// Among the first `n` languages, the arm that the name of the last
/// language configured under it selects is that language's arm; before that
/// language, the name selects nothing.
proof fn lemma_select_resolved(
    langs: Seq<LangView>,
    rows: Seq<(Seq<char>, Seq<char>, Seq<char>)>,
    key: Seq<char>,
    i: int,
    n: int,
)
    requires
        0 <= i < langs.len(),
        0 <= n <= langs.len(),
        is_last_name(langs, i),
    ensures
        n <= i ==> select(arms_of(key, resolved_prefix(langs, rows, key, n)), langs[i].name) is None,
        n > i ==> select(arms_of(key, resolved_prefix(langs, rows, key, n)), langs[i].name)
            == Some(arm_of(key, (langs[i].name, found_text(resolve(langs, rows, key, i))))),
    decreases n,
{
    let x = langs[i].name;
    if n == 0 {
        assert(arms_of(key, resolved_prefix(langs, rows, key, n)).len() == 0);
    } else {
        lemma_select_resolved(langs, rows, key, i, n - 1);
        let prev = resolved_prefix(langs, rows, key, n - 1);
        let extra = if is_last_name(langs, n - 1) {
            seq![(langs[n - 1].name, found_text(resolve(langs, rows, key, n - 1)))]
        } else {
            Seq::<(Seq<char>, Option<Seq<char>>)>::empty()
        };
        assert(resolved_prefix(langs, rows, key, n) == prev + extra);
        lemma_arms_of_concat(key, prev, extra);
        lemma_select_concat(arms_of(key, prev), arms_of(key, extra), x);
        if n - 1 < i {
            if is_last_name(langs, n - 1) && langs[n - 1].name == x {
                assert(langs[i].name != langs[n - 1].name);
            }
            if extra.len() > 0 {
                assert(arms_of(key, extra)[0].lang() == langs[n - 1].name);
                assert(arms_of(key, extra)[0].lang() != x);
                assert(arms_of(key, extra).drop_first().len() == 0);
                assert(select(arms_of(key, extra).drop_first(), x) is None);
            } else {
                assert(arms_of(key, extra).len() == 0);
            }
            assert(select(arms_of(key, extra), x) is None);
        } else if n - 1 == i {
            assert(arms_of(key, extra)[0] == arm_of(key, (x, found_text(resolve(langs, rows, key, i)))));
        }
    }
}

/// The index of the last language configured under the name of language `i`.
proof fn lemma_last_of_name(langs: Seq<LangView>, i: int) -> (k: int)
    requires
        0 <= i < langs.len(),
    ensures
        i <= k < langs.len(),
        langs[k].name == langs[i].name,
        is_last_name(langs, k),
    decreases langs.len() - i,
{
    if is_last_name(langs, i) {
        i
    } else {
        let j = choose|j: int| i < j < langs.len() && #[trigger] langs[j].name == langs[i].name;
        lemma_last_of_name(langs, j)
    }
}

/// A selected arm is one of the arms.
proof fn lemma_select_member(a: Seq<ArmView>, x: Seq<char>)
    ensures
        select(a, x) matches Some(y) ==> a.contains(y),
    decreases a.len(),
{
    if a.len() > 0 && a[0].lang() != x {
        lemma_select_member(a.drop_first(), x);
        if select(a, x) is Some {
            let y = select(a, x)->Some_0;
            let k = choose|k: int| 0 <= k < a.drop_first().len() && a.drop_first()[k] == y;
            assert(a[k + 1] == y);
        }
    } else if a.len() > 0 {
        assert(a[0] == a[0]);
    }
}

/// Without a missing arm, every arm yields a text.
proof fn lemma_no_missing(a: Seq<ArmView>)
    requires
        first_missing(a) is None,
    ensures
        forall|k: int| 0 <= k < a.len() ==> (#[trigger] a[k]) is Text,
    decreases a.len(),
{
    if a.len() > 0 {
        lemma_no_missing(a.drop_first());
        assert forall|k: int| 0 <= k < a.len() implies (#[trigger] a[k]) is Text by {
            if k > 0 {
                assert(a[k] == a.drop_first()[k - 1]);
            }
        }
    }
}

/// What `l10n!` yields in a configured language, when the expansion
/// succeeds: the text that the language's fallback resolution finds.
proof fn lemma_l10n_configured(
    cfg: ConfigView,
    rows: Seq<(Seq<char>, Seq<char>, Seq<char>)>,
    key: Seq<char>,
    i: int,
)
    requires
        0 <= i < cfg.langs.len(),
        is_last_name(cfg.langs, i),
        expansion(cfg, rows, key) is Ok,
    ensures
        resolve(cfg.langs, rows, key, i) is Found,
        l10n_spec(cfg, rows, cfg.langs[i].name, key)
            == Ok::<Seq<char>, crate::catalog::L10nFault>(resolve(cfg.langs, rows, key, i)->Found_0),
{
    let arms = arms_of(key, translations_spec(cfg, rows, key));
    lemma_select_resolved(cfg.langs, rows, key, i, cfg.langs.len() as int);
    let y = arm_of(key, (cfg.langs[i].name, found_text(resolve(cfg.langs, rows, key, i))));
    assert(select(arms, cfg.langs[i].name) == Some(y));
    lemma_select_member(arms, cfg.langs[i].name);
    lemma_no_missing(arms);
    let k = choose|k: int| 0 <= k < arms.len() && arms[k] == y;
    assert(arms[k] is Text);
}

/// When the translation files give message `key` a text in the current
/// language, and the expansion succeeds, `l10n!(key)` yields that text.
pub proof fn law_l10n_yields_text_of_current_language(
    cfg: ConfigView,
    rows: Seq<(Seq<char>, Seq<char>, Seq<char>)>,
    key: Seq<char>,
    current: Seq<char>,
    text: Seq<char>,
)
    requires
        exists|i: int| 0 <= i < cfg.langs.len() && #[trigger] cfg.langs[i].name == current,
        lookup(rows, key, current) == Some(text),
        expansion(cfg, rows, key) is Ok,
    ensures
        l10n_spec(cfg, rows, current, key) == Ok::<Seq<char>, crate::catalog::L10nFault>(text),
{
    let i = choose|i: int| 0 <= i < cfg.langs.len() && #[trigger] cfg.langs[i].name == current;
    let k = lemma_last_of_name(cfg.langs, i);
    lemma_l10n_configured(cfg, rows, key, k);
}

/// When the current language has no text for `key` but the language it
/// falls back to does, and the expansion succeeds, `l10n!(key)` yields the
/// text of the fallback language.
pub proof fn law_l10n_falls_back(
    cfg: ConfigView,
    rows: Seq<(Seq<char>, Seq<char>, Seq<char>)>,
    key: Seq<char>,
    i: int,
    text: Seq<char>,
)
    requires
        0 <= i < cfg.langs.len(),
        is_last_name(cfg.langs, i),
        lookup(rows, key, cfg.langs[i].name) is None,
        cfg.langs[i].fallback matches Some(fb) && find_lang(cfg.langs, fb) is Some
            && lookup(rows, key, fb) == Some(text),
        expansion(cfg, rows, key) is Ok,
    ensures
        l10n_spec(cfg, rows, cfg.langs[i].name, key) == Ok::<Seq<char>, crate::catalog::L10nFault>(text),
{
    let fb = cfg.langs[i].fallback->Some_0;
    let j = find_lang(cfg.langs, fb)->Some_0;
    lemma_find_lang(cfg.langs, fb, 0);
    assert(cfg.langs[j].name == fb);
    let n = cfg.langs.len();
    assert(resolve_steps(cfg.langs, rows, key, j, (n - 1) as nat) == Resolution::Found(text));
    assert(resolve(cfg.langs, rows, key, i) == Resolution::Found(text));
    lemma_l10n_configured(cfg, rows, key, i);
}

/// Where `find_lang_from` stops.
proof fn lemma_find_lang(langs: Seq<LangView>, name: Seq<char>, k: int)
    ensures
        find_lang_from(langs, name, k) matches Some(j) ==> 0 <= k <= j < langs.len() && langs[j].name == name,
    decreases langs.len() - k,
{
    if 0 <= k < langs.len() && langs[k].name != name {
        lemma_find_lang(langs, name, k + 1);
    }
}

/// The first missing arm of a concatenation is that of its first part, or
/// else that of its second.
proof fn lemma_first_missing_concat(a: Seq<ArmView>, b: Seq<ArmView>)
    ensures
        first_missing(a + b) == match first_missing(a) {
            Some(m) => Some(m),
            None => first_missing(b),
        },
    decreases a.len(),
{
    if a.len() == 0 {
        assert(a + b =~= b);
    } else {
        assert((a + b).drop_first() =~= a.drop_first() + b);
        assert((a + b)[0] == a[0]);
        lemma_first_missing_concat(a.drop_first(), b);
    }
}

/// Without a first fault among the first `n` languages, none of them faults.
proof fn lemma_no_fault(
    langs: Seq<LangView>,
    rows: Seq<(Seq<char>, Seq<char>, Seq<char>)>,
    key: Seq<char>,
    n: int,
)
    requires
        first_fault(langs, rows, key, n) is None,
    ensures
        forall|i: int| 0 <= i < n ==> !is_fault(#[trigger] resolve(langs, rows, key, i)),
    decreases n,
{
    if n > 0 {
        lemma_no_fault(langs, rows, key, n - 1);
    }
}

/// The arms of the first `n` languages hold a compile error exactly when one
/// of those languages (the last under its name) has no text, and the error
/// names such a language.
proof fn lemma_missing_prefix(
    langs: Seq<LangView>,
    rows: Seq<(Seq<char>, Seq<char>, Seq<char>)>,
    key: Seq<char>,
    n: int,
)
    requires
        0 <= n <= langs.len(),
    ensures
        (first_missing(arms_of(key, resolved_prefix(langs, rows, key, n))) is Some) <==>
            (exists|i: int| 0 <= i < n && is_last_name(langs, i)
                && #[trigger] found_text(resolve(langs, rows, key, i)) is None),
        first_missing(arms_of(key, resolved_prefix(langs, rows, key, n))) matches Some(m) ==>
            exists|i: int| 0 <= i < n && is_last_name(langs, i)
                && #[trigger] found_text(resolve(langs, rows, key, i)) is None
                && m == missing_message(key, langs[i].name),
    decreases n,
{
    if n == 0 {
        assert(arms_of(key, resolved_prefix(langs, rows, key, n)).len() == 0);
    } else {
        lemma_missing_prefix(langs, rows, key, n - 1);
        let prev = resolved_prefix(langs, rows, key, n - 1);
        let extra = if is_last_name(langs, n - 1) {
            seq![(langs[n - 1].name, found_text(resolve(langs, rows, key, n - 1)))]
        } else {
            Seq::<(Seq<char>, Option<Seq<char>>)>::empty()
        };
        assert(resolved_prefix(langs, rows, key, n) == prev + extra);
        lemma_arms_of_concat(key, prev, extra);
        lemma_first_missing_concat(arms_of(key, prev), arms_of(key, extra));
        let ea = arms_of(key, extra);
        if extra.len() > 0 {
            assert(ea.drop_first().len() == 0);
            assert(first_missing(ea.drop_first()) is None);
            assert(ea[0] == arm_of(key, extra[0]));
        } else {
            assert(ea.len() == 0);
        }
    }
}

/// A language with no text for message `key`, after its fallbacks, makes the
/// expansion for `key` fail with a compile error; and such a compile error
/// names a language that has no text for `key`.
pub proof fn law_missing_translation_is_compile_error(
    cfg: ConfigView,
    rows: Seq<(Seq<char>, Seq<char>, Seq<char>)>,
    key: Seq<char>,
)
    requires
        translations_fault(cfg, rows, key) is None,
    ensures
        (exists|i: int| 0 <= i < cfg.langs.len() && is_last_name(cfg.langs, i)
            && #[trigger] resolve(cfg.langs, rows, key, i) == Resolution::Missing)
            <==> expansion(cfg, rows, key) is Err,
        expansion(cfg, rows, key) matches Err(L10nFault::MissingTranslation(m)) ==>
            exists|i: int| 0 <= i < cfg.langs.len() && is_last_name(cfg.langs, i)
                && #[trigger] resolve(cfg.langs, rows, key, i) == Resolution::Missing
                && m == missing_message(key, cfg.langs[i].name),
{
    let n = cfg.langs.len() as int;
    lemma_no_fault(cfg.langs, rows, key, n);
    lemma_missing_prefix(cfg.langs, rows, key, n);
    assert forall|i: int| 0 <= i < n implies
        (found_text(#[trigger] resolve(cfg.langs, rows, key, i)) is None
            <==> resolve(cfg.langs, rows, key, i) == Resolution::Missing) by {
        assert(!is_fault(resolve(cfg.langs, rows, key, i)));
    }
    if expansion(cfg, rows, key) is Err {
        let i = choose|i: int| 0 <= i < n && is_last_name(cfg.langs, i)
            && #[trigger] found_text(resolve(cfg.langs, rows, key, i)) is None;
        assert(resolve(cfg.langs, rows, key, i) == Resolution::Missing);
    }
    if exists|i: int| 0 <= i < n && is_last_name(cfg.langs, i)
        && #[trigger] resolve(cfg.langs, rows, key, i) == Resolution::Missing {
        let i = choose|i: int| 0 <= i < n && is_last_name(cfg.langs, i)
            && #[trigger] resolve(cfg.langs, rows, key, i) == Resolution::Missing;
        assert(found_text(resolve(cfg.langs, rows, key, i)) is None);
    }
    if let Err(L10nFault::MissingTranslation(m)) = expansion(cfg, rows, key) {
        let i = choose|i: int| 0 <= i < n && is_last_name(cfg.langs, i)
            && #[trigger] found_text(resolve(cfg.langs, rows, key, i)) is None
            && m == missing_message(key, cfg.langs[i].name);
        assert(resolve(cfg.langs, rows, key, i) == Resolution::Missing);
    }
}

/// The rows of a message's language table all belong to that message.
proof fn lemma_lang_rows_key(key: Seq<char>, langs: Seq<(String, TomlValue)>)
    ensures
        forall|i: int| 0 <= i < lang_rows(key, langs).len() ==> (#[trigger] lang_rows(key, langs)[i]).0 == key,
    decreases langs.len(),
{
    if langs.len() > 0 {
        lemma_lang_rows_key(key, langs.drop_last());
        let p = lang_rows(key, langs.drop_last());
        let q = lang_rows(key, langs);
        assert forall|i: int| 0 <= i < q.len() implies (#[trigger] q[i]).0 == key by {
            if i < p.len() {
                assert(q[i] == p[i]);
            }
        }
    }
}

/// A text that `lookup` finds stands in some row.
pub proof fn lemma_lookup_row(rows: Seq<(Seq<char>, Seq<char>, Seq<char>)>, key: Seq<char>, lang: Seq<char>)
    ensures
        lookup(rows, key, lang) matches Some(t) ==>
            exists|m: int| 0 <= m < rows.len() && #[trigger] rows[m] == (key, lang, t),
    decreases rows.len(),
{
    if rows.len() > 0 && !(rows[0].0 == key && rows[0].1 == lang) {
        lemma_lookup_row(rows.drop_first(), key, lang);
        if lookup(rows, key, lang) is Some {
            let t = lookup(rows, key, lang)->Some_0;
            let m = choose|m: int| 0 <= m < rows.drop_first().len() && #[trigger] rows.drop_first()[m] == (key, lang, t);
            assert(rows[m + 1] == (key, lang, t));
        }
    } else if rows.len() > 0 {
        assert(rows[0] == (key, lang, rows[0].2));
    }
}

/// Without repeated pairs, `lookup` finds the one row of a pair.
pub proof fn lemma_lookup_unique(rows: Seq<(Seq<char>, Seq<char>, Seq<char>)>, m: int)
    requires
        no_duplicate_pairs(rows),
        0 <= m < rows.len(),
    ensures
        lookup(rows, rows[m].0, rows[m].1) == Some(rows[m].2),
    decreases rows.len(),
{
    if m > 0 {
        assert(!(rows[0].0 == rows[m].0 && rows[0].1 == rows[m].1));
        let d = rows.drop_first();
        assert forall|i: int, j: int| 0 <= i < j < d.len() implies
            !(#[trigger] d[i].0 == #[trigger] d[j].0 && d[i].1 == d[j].1) by {
            assert(d[i] == rows[i + 1] && d[j] == rows[j + 1]);
        }
        assert(d[m - 1] == rows[m]);
        lemma_lookup_unique(d, m - 1);
    }
}

/// A text that a fallback resolution finds is the text of some row of the message.
proof fn lemma_resolve_found_row(
    langs: Seq<LangView>,
    rows: Seq<(Seq<char>, Seq<char>, Seq<char>)>,
    key: Seq<char>,
    i: int,
    fuel: nat,
)
    ensures
        resolve_steps(langs, rows, key, i, fuel) matches Resolution::Found(t) ==>
            exists|l: Seq<char>| #[trigger] lookup(rows, key, l) == Some(t),
    decreases fuel,
{
    if lookup(rows, key, langs[i].name) is None {
        if let Some(fb) = langs[i].fallback {
            if let Some(j) = find_lang(langs, fb) {
                if fuel > 0 {
                    lemma_resolve_found_row(langs, rows, key, j, (fuel - 1) as nat);
                }
            }
        }
    }
}

/// Appending a row changes what `lookup` finds only for a pair it did not find.
proof fn lemma_lookup_push(
    rows: Seq<(Seq<char>, Seq<char>, Seq<char>)>,
    x: (Seq<char>, Seq<char>, Seq<char>),
    key: Seq<char>,
    lang: Seq<char>,
)
    ensures
        lookup(rows.push(x), key, lang) == match lookup(rows, key, lang) {
            Some(v) => Some(v),
            None => if x.0 == key && x.1 == lang { Some(x.2) } else { None },
        },
    decreases rows.len(),
{
    if rows.len() == 0 {
        assert(rows.push(x).drop_first().len() == 0);
    } else {
        assert(rows.push(x).drop_first() =~= rows.drop_first().push(x));
        assert(rows.push(x)[0] == rows[0]);
        lemma_lookup_push(rows.drop_first(), x, key, lang);
    }
}

/// `lookup` finds a text exactly for the pairs that some row holds.
proof fn lemma_lookup_has_pair(rows: Seq<(Seq<char>, Seq<char>, Seq<char>)>, key: Seq<char>, lang: Seq<char>)
    ensures
        lookup(rows, key, lang) is Some <==> has_pair(rows, key, lang),
    decreases rows.len(),
{
    lemma_lookup_row(rows, key, lang);
    if rows.len() > 0 {
        lemma_lookup_has_pair(rows.drop_first(), key, lang);
        if has_pair(rows, key, lang) && !(rows[0].0 == key && rows[0].1 == lang) {
            let i = choose|i: int| 0 <= i < rows.len() && #[trigger] rows[i].0 == key && rows[i].1 == lang;
            assert(rows.drop_first()[i - 1] == rows[i]);
        }
    }
}

/// What the table built from some rows and messages holds for a pair: the
/// first such row's text, or else, for a message of `keys` in the base
/// language, the message itself.
proof fn lemma_with_base_rows_lookup(
    rows: Seq<(Seq<char>, Seq<char>, Seq<char>)>,
    keys: Seq<Seq<char>>,
    base: Seq<char>,
    key: Seq<char>,
    lang: Seq<char>,
)
    ensures
        lookup(with_base_rows(rows, keys, base), key, lang) == match lookup(rows, key, lang) {
            Some(v) => Some(v),
            None => if lang == base && keys.contains(key) { Some(key) } else { None },
        },
    decreases keys.len(),
{
    if keys.len() > 0 {
        let prev = with_base_rows(rows, keys.drop_last(), base);
        let x = keys.last();
        lemma_with_base_rows_lookup(rows, keys.drop_last(), base, key, lang);
        lemma_with_base_rows_lookup(rows, keys.drop_last(), base, x, base);
        lemma_lookup_has_pair(prev, x, base);
        lemma_lookup_push(prev, (x, base, x), key, lang);
        assert(keys.contains(key) <==> (keys.drop_last().contains(key) || key == x)) by {
            if keys.contains(key) && key != x {
                let i = choose|i: int| 0 <= i < keys.len() && keys[i] == key;
                assert(keys.drop_last()[i] == key);
            }
            if keys.drop_last().contains(key) {
                let i = choose|i: int| 0 <= i < keys.drop_last().len() && keys.drop_last()[i] == key;
                assert(keys[i] == key);
            }
            if key == x {
                assert(keys[keys.len() - 1] == key);
            }
        }
    }
}

/// What the translation table built from the files holds for message `key`
/// in `lang`: the first text that the files write out for the pair, or else,
/// in the base language, the message itself when a file names it.
pub proof fn law_table_holds_file_texts_and_base_entries(
    docs: Seq<Option<TomlValue>>,
    base: Seq<char>,
    key: Seq<char>,
    lang: Seq<char>,
)
    ensures
        lookup(table_rows(docs, base), key, lang) == match lookup(explicit_rows(docs), key, lang) {
            Some(v) => Some(v),
            None => if lang == base && all_keys(docs).contains(key) { Some(key) } else { None },
        },
{
    lemma_with_base_rows_lookup(explicit_rows(docs), all_keys(docs), base, key, lang);
}

/// When the files write out no pair twice, the table holds text `v` for
/// message `key` in `lang` exactly when a file writes it out, or when `lang`
/// is the base language, `v` is the message, a file names it, and no file
/// writes out its base-language text.
pub proof fn law_table_lookup_exact(
    docs: Seq<Option<TomlValue>>,
    base: Seq<char>,
    key: Seq<char>,
    lang: Seq<char>,
    v: Seq<char>,
)
    requires
        no_duplicate_pairs(explicit_rows(docs)),
    ensures
        lookup(table_rows(docs, base), key, lang) == Some(v) <==> (
            explicit_rows(docs).contains((key, lang, v))
            || (lang == base && v == key && all_keys(docs).contains(key) && !has_pair(explicit_rows(docs), key, base))
        ),
{
    let e = explicit_rows(docs);
    law_table_holds_file_texts_and_base_entries(docs, base, key, lang);
    lemma_lookup_row(e, key, lang);
    lemma_lookup_has_pair(e, key, lang);
    lemma_lookup_has_pair(e, key, base);
    if e.contains((key, lang, v)) {
        let m = choose|m: int| 0 <= m < e.len() && e[m] == (key, lang, v);
        lemma_lookup_unique(e, m);
    }
    if lookup(e, key, lang) is Some {
        let w = lookup(e, key, lang)->Some_0;
        let m = choose|m: int| 0 <= m < e.len() && #[trigger] e[m] == (key, lang, w);
        assert(e.contains((key, lang, w)));
    }
}

/// Every message that the rows of a document give a text is a message of
/// the document.
proof fn lemma_doc_rows_keys(entries: Seq<(String, TomlValue)>)
    ensures
        forall|i: int| 0 <= i < doc_rows(entries).len() ==>
            entries.map_values(|e: (String, TomlValue)| e.0@).contains(#[trigger] doc_rows(entries)[i].0),
    decreases entries.len(),
{
    if entries.len() > 0 {
        let p = entries.drop_last();
        lemma_doc_rows_keys(p);
        let last = entries.last();
        if let TomlValue::Table(langs) = last.1 {
            lemma_lang_rows_key(last.0@, langs@);
        }
        let ks = entries.map_values(|e: (String, TomlValue)| e.0@);
        let pks = p.map_values(|e: (String, TomlValue)| e.0@);
        let r = doc_rows(entries);
        let pr = doc_rows(p);
        let er = entry_rows(last.0@, last.1);
        assert(r == pr + er);
        assert forall|i: int| 0 <= i < r.len() implies ks.contains(#[trigger] r[i].0) by {
            if i < pr.len() {
                assert(r[i] == pr[i]);
                let k = choose|k: int| 0 <= k < pks.len() && pks[k] == pr[i].0;
                assert(ks[k] == pks[k]);
            } else {
                assert(r[i] == er[i - pr.len()]);
                assert(ks[entries.len() - 1] == last.0@);
            }
        }
    }
}

/// Every message that the files give a text is a message they name.
proof fn lemma_explicit_rows_keys(docs: Seq<Option<TomlValue>>)
    ensures
        forall|i: int| 0 <= i < explicit_rows(docs).len() ==> all_keys(docs).contains(#[trigger] explicit_rows(docs)[i].0),
    decreases docs.len(),
{
    if docs.len() > 0 {
        let p = docs.drop_last();
        lemma_explicit_rows_keys(p);
        let r = explicit_rows(docs);
        let pr = explicit_rows(p);
        let fr = file_rows(docs.last());
        let ks = all_keys(docs);
        let pks = all_keys(p);
        let fks = file_keys(docs.last());
        assert(r == pr + fr);
        assert(ks == pks + fks);
        if let Some(TomlValue::Table(entries)) = docs.last() {
            lemma_doc_rows_keys(entries@);
        }
        assert forall|i: int| 0 <= i < r.len() implies ks.contains(#[trigger] r[i].0) by {
            if i < pr.len() {
                assert(r[i] == pr[i]);
                let k = choose|k: int| 0 <= k < pks.len() && pks[k] == pr[i].0;
                assert(ks[k] == pks[k]);
            } else {
                assert(r[i] == fr[i - pr.len()]);
                let k = choose|k: int| 0 <= k < fks.len() && fks[k] == fr[i - pr.len()].0;
                assert(ks[k + pks.len()] == fks[k]);
            }
        }
    }
}

/// In the base language, the text of a message that the files give no
/// base-language text is the message itself: when the base language is
/// configured, the files write out no pair twice, and the expansion for
/// `key` succeeds, `l10n!(key)` in the base language yields `key`.
pub proof fn law_base_language_text_is_key(cfg: ConfigView, docs: Seq<Option<TomlValue>>, key: Seq<char>)
    requires
        exists|i: int| 0 <= i < cfg.langs.len() && #[trigger] cfg.langs[i].name == cfg.base,
        no_duplicate_pairs(explicit_rows(docs)),
        !has_pair(explicit_rows(docs), key, cfg.base),
        expansion(cfg, table_rows(docs, cfg.base), key) is Ok,
    ensures
        l10n_spec(cfg, table_rows(docs, cfg.base), cfg.base, key) == Ok::<Seq<char>, L10nFault>(key),
{
    let rows = table_rows(docs, cfg.base);
    let e = explicit_rows(docs);
    let i = choose|i: int| 0 <= i < cfg.langs.len() && #[trigger] cfg.langs[i].name == cfg.base;
    let k = lemma_last_of_name(cfg.langs, i);
    lemma_l10n_configured(cfg, rows, key, k);
    let t = resolve(cfg.langs, rows, key, k)->Found_0;
    lemma_resolve_found_row(cfg.langs, rows, key, k, cfg.langs.len());
    let l = choose|l: Seq<char>| #[trigger] lookup(rows, key, l) == Some(t);
    law_table_holds_file_texts_and_base_entries(docs, cfg.base, key, l);
    if lookup(e, key, l) is Some {
        lemma_lookup_row(e, key, l);
        let w = lookup(e, key, l)->Some_0;
        let m = choose|m: int| 0 <= m < e.len() && #[trigger] e[m] == (key, l, w);
        lemma_explicit_rows_keys(docs);
        assert(all_keys(docs).contains(e[m].0));
    }
    assert(all_keys(docs).contains(key));
    lemma_lookup_has_pair(e, key, cfg.base);
    law_table_holds_file_texts_and_base_entries(docs, cfg.base, key, cfg.base);
    assert(lookup(rows, key, cfg.base) == Some(key));
    assert(resolve(cfg.langs, rows, key, k) == Resolution::Found(key));
}

/// The text holds no brace.
pub open spec fn no_braces(t: Seq<char>) -> bool {
    forall|k: int| 0 <= k < t.len() ==> #[trigger] t[k] != '{' && t[k] != '}'
}

/// A stretch of the template without braces is copied as it stands.
pub(crate) proof fn lemma_plain_segment(
    t: Seq<char>,
    i: int,
    j: int,
    counter: nat,
    args: Seq<(Option<Seq<char>>, Seq<char>)>,
    debug: Seq<Seq<char>>,
)
    requires
        0 <= i <= j <= t.len(),
        forall|k: int| i <= k < j ==> #[trigger] t[k] != '{' && t[k] != '}',
    ensures
        scan(t, i, counter, args, debug) == lift(t.subrange(i, j), Set::empty(), scan(t, j, counter, args, debug)),
    decreases j - i,
{
    if i == j {
        match scan(t, j, counter, args, debug) {
            Ok((o, u)) => {
                assert(t.subrange(i, j) + o =~= o);
                assert(Set::<int>::empty().union(u) =~= u);
            },
            Err(_) => {},
        }
    } else {
        lemma_plain_segment(t, i + 1, j, counter, args, debug);
        match scan(t, j, counter, args, debug) {
            Ok((o, u)) => {
                assert(seq![t[i]] + (t.subrange(i + 1, j) + o) =~= t.subrange(i, j) + o);
                assert(Set::<int>::empty().union(Set::<int>::empty().union(u)) =~= Set::<int>::empty().union(u));
            },
            Err(_) => {},
        }
    }
}

/// A template without braces, given no arguments, is its own message.
pub proof fn law_plain_template_is_itself(t: Seq<char>)
    requires
        no_braces(t),
    ensures
        format_spec(t, Seq::empty()) == Ok::<Seq<char>, FormatFault>(t),
{
    lemma_plain_segment(t, 0, t.len() as int, 0, Seq::empty(), debug_views(Seq::empty()));
    assert(t.subrange(0, t.len() as int) + Seq::<char>::empty() =~= t);
    assert(first_unused(Set::<int>::empty().union(Set::<int>::empty()), 0) is None);
}

/// In a template with one `{}` between text without braces, given one
/// positional argument, the placeholder is replaced by the argument.
pub proof fn law_positional_placeholder_is_replaced(p: Seq<char>, s: Seq<char>, v: Seq<char>)
    requires
        no_braces(p),
        no_braces(s),
    ensures
        format_spec(p + seq!['{', '}'] + s, seq![(None::<Seq<char>>, v)])
            == Ok::<Seq<char>, FormatFault>(p + v + s),
{
    let t = p + seq!['{', '}'] + s;
    let args = seq![(None::<Seq<char>>, v)];
    let dv = debug_views(args);
    let n = p.len() as int;
    assert(t[n] == '{');
    assert(t[n + 1] == '}');
    assert forall|k: int| 0 <= k < n implies #[trigger] t[k] != '{' && t[k] != '}' by {
        assert(t[k] == p[k]);
    }
    assert forall|k: int| n + 2 <= k < t.len() implies #[trigger] t[k] != '{' && t[k] != '}' by {
        assert(t[k] == s[k - n - 2]);
    }
    lemma_plain_segment(t, 0, n, 0, args, dv);
    lemma_plain_segment(t, n + 2, t.len() as int, 1, args, dv);
    assert(close_from(t, n + 1) == Some(n + 1));
    assert(t.subrange(n + 1, n + 1) =~= Seq::<char>::empty());
    assert(colon_from(Seq::<char>::empty(), 0) is None);
    assert(apply_spec(v, no_spec()) == v);
    assert(placeholder(t.subrange(n + 1, n + 1), 0, args, dv) == Ok::<(Seq<char>, int, nat), FormatFault>((v, 0, 1)));
    assert(scan(t, t.len() as int, 1, args, dv) == Ok::<(Seq<char>, Set<int>), FormatFault>((Seq::empty(), Set::empty())));
    assert(t.subrange(n + 2, t.len() as int) =~= s);
    assert(t.subrange(0, n) =~= p);
    assert(scan(t, n, 0, args, dv) == lift(v, set![0], scan(t, n + 2, 1, args, dv)));
    assert(s + Seq::<char>::empty() =~= s);
    assert(p + (v + s) =~= p + v + s);
    let used = Set::<int>::empty().union(set![0int].union(Set::<int>::empty().union(Set::<int>::empty())));
    assert(used =~= set![0int]);
    assert(args_fault(args, 1) is None) by {
        assert(args_fault(args, 0) is None);
        assert(!(exists|k: int| 0 <= k < 0 && (#[trigger] args[k].0) is Some));
    }
    assert(first_unused(set![0int], 1) is None) by {
        assert(first_unused(set![0int], 0) is None);
        assert(set![0int].contains(0));
    }
}

/// Among `n + 1` values below `n`, two are equal.
proof fn lemma_pigeonhole(s: Seq<int>, n: int)
    requires
        n >= 0,
        s.len() == n + 1,
        forall|k: int| 0 <= k < s.len() ==> 0 <= #[trigger] s[k] < n,
    ensures
        exists|a: int, b: int| 0 <= a < b < s.len() && s[a] == s[b],
    decreases n,
{
    if n == 0 {
        assert(0 <= s[0] < n);
    } else {
        let v = s[n];
        if exists|a: int| 0 <= a < n && s[a] == v {
            let a = choose|a: int| 0 <= a < n && s[a] == v;
            assert(s[a] == s[n]);
        } else {
            let t = Seq::new(n as nat, |m: int| if s[m] == n - 1 { v } else { s[m] });
            assert forall|k: int| 0 <= k < t.len() implies 0 <= #[trigger] t[k] < n - 1 by {
                assert(s[k] != v);
                assert(0 <= s[k] < n);
                if s[k] == n - 1 {
                    assert(v != n - 1);
                    assert(0 <= s[n] < n);
                }
            }
            lemma_pigeonhole(t, n - 1);
            let (a, b) = choose|a: int, b: int| 0 <= a < b < t.len() && t[a] == t[b];
            assert(s[a] != v && s[b] != v);
            assert(s[a] == s[b]);
        }
    }
}

/// A chain that goes on stays among the configured languages.
proof fn lemma_walk_in_range(langs: Seq<LangView>, i: int, k: nat)
    requires
        0 <= i < langs.len(),
    ensures
        walk(langs, i, k) matches Some(j) ==> 0 <= j < langs.len(),
    decreases k,
{
    if k > 0 {
        lemma_walk_in_range(langs, i, (k - 1) as nat);
        if let Some(j) = walk(langs, i, (k - 1) as nat) {
            if let Some(fb) = langs[j].fallback {
                lemma_find_lang(langs, fb, 0);
            }
        }
    }
}

/// `a + c` fallbacks from `i` are `c` fallbacks from where `a` lead.
proof fn lemma_walk_add(langs: Seq<LangView>, i: int, a: nat, c: nat)
    ensures
        walk(langs, i, a + c) == match walk(langs, i, a) {
            Some(j) => walk(langs, j, c),
            None => None,
        },
    decreases c,
{
    if c > 0 {
        lemma_walk_add(langs, i, a, (c - 1) as nat);
        assert((a + c - 1) as nat == a + (c - 1) as nat);
    } else {
        assert(a + c == a);
    }
}

/// While the search goes on, resolving from `i` is resolving from where `k`
/// fallbacks lead, with `k` steps less.
proof fn lemma_resolve_shift(
    langs: Seq<LangView>,
    rows: Seq<(Seq<char>, Seq<char>, Seq<char>)>,
    key: Seq<char>,
    i: int,
    k: nat,
    fuel: nat,
)
    requires
        k <= fuel,
        walk(langs, i, k) is Some,
        forall|m: nat| m < k ==> #[trigger] walk(langs, i, m) is Some && continues(langs, rows, key, walk(langs, i, m)->Some_0),
    ensures
        resolve_steps(langs, rows, key, i, fuel) == resolve_steps(langs, rows, key, walk(langs, i, k)->Some_0, (fuel - k) as nat),
    decreases k,
{
    if k > 0 {
        let p = (k - 1) as nat;
        assert(walk(langs, i, p) is Some && continues(langs, rows, key, walk(langs, i, p)->Some_0));
        lemma_resolve_shift(langs, rows, key, i, p, fuel);
        let j = walk(langs, i, p)->Some_0;
        assert(walk(langs, i, k) == step(langs, j));
    }
}

/// With known fallbacks that run in no circle, the chain from `i` stops
/// after at most `n - 1` fallbacks (for `n` languages).
proof fn lemma_first_stop(
    langs: Seq<LangView>,
    rows: Seq<(Seq<char>, Seq<char>, Seq<char>)>,
    key: Seq<char>,
    i: int,
    m: nat,
) -> (k: nat)
    requires
        fallbacks_known(langs),
        fallbacks_acyclic(langs),
        0 <= i < langs.len(),
        m < langs.len(),
        walk(langs, i, m) is Some,
        forall|q: nat| q < m ==> #[trigger] walk(langs, i, q) is Some && continues(langs, rows, key, walk(langs, i, q)->Some_0),
    ensures
        m <= k < langs.len(),
        chain_stops_at(langs, rows, key, i, k),
    decreases langs.len() - m,
{
    let n = langs.len() as int;
    let w = walk(langs, i, m)->Some_0;
    lemma_walk_in_range(langs, i, m);
    if !continues(langs, rows, key, w) {
        m
    } else {
        assert(langs[w].fallback is Some);
        assert(find_lang(langs, langs[w].fallback->Some_0) is Some);
        assert(walk(langs, i, m + 1) == step(langs, w));
        assert forall|q: nat| q < m + 1 implies #[trigger] walk(langs, i, q) is Some && continues(langs, rows, key, walk(langs, i, q)->Some_0) by {
            if q < m {
            } else {
                assert(q == m);
            }
        }
        if m + 1 < n {
            lemma_first_stop(langs, rows, key, i, m + 1)
        } else {
            // Every one of the n + 1 steps 0..=n reaches a language: two agree.
            assert forall|q: nat| q <= m + 1 implies #[trigger] walk(langs, i, q) is Some by {
                if q < m + 1 {
                    assert(walk(langs, i, q) is Some && continues(langs, rows, key, walk(langs, i, q)->Some_0));
                }
            }
            let s = Seq::new((n + 1) as nat, |q: int| walk(langs, i, q as nat)->Some_0);
            assert forall|q: int| 0 <= q < s.len() implies 0 <= #[trigger] s[q] < n by {
                assert(walk(langs, i, q as nat) is Some);
                lemma_walk_in_range(langs, i, q as nat);
            }
            lemma_pigeonhole(s, n);
            let (a, b) = choose|a: int, b: int| 0 <= a < b < s.len() && s[a] == s[b];
            let ja = s[a];
            lemma_walk_add(langs, i, a as nat, (b - a) as nat);
            assert((a as nat + (b - a) as nat) as nat == b as nat);
            assert(walk(langs, i, a as nat) == Some(ja));
            assert(walk(langs, i, b as nat) == Some(s[b]));
            assert(walk(langs, ja, (b - a) as nat) == Some(ja));
            assert(0 <= ja < n);
            assert(walk(langs, ja, (b - a) as nat) != Some(ja));
            m
        }
    }
}

/// With known fallbacks that run in no circle, each language gets the text
/// of the first language along its chain that has one, or none when the
/// chain ends without one; the chain stops after at most `n - 1` fallbacks.
pub proof fn law_acyclic_fallbacks_find_first_text(
    langs: Seq<LangView>,
    rows: Seq<(Seq<char>, Seq<char>, Seq<char>)>,
    key: Seq<char>,
    i: int,
)
    requires
        fallbacks_known(langs),
        fallbacks_acyclic(langs),
        0 <= i < langs.len(),
    ensures
        exists|k: nat| k < langs.len() && #[trigger] chain_stops_at(langs, rows, key, i, k)
            && resolve(langs, rows, key, i) == match lookup(rows, key, langs[walk(langs, i, k)->Some_0].name) {
                Some(t) => Resolution::Found(t),
                None => Resolution::Missing,
            },
{
    let k = lemma_first_stop(langs, rows, key, i, 0);
    lemma_resolve_shift(langs, rows, key, i, k, langs.len());
    let j = walk(langs, i, k)->Some_0;
    assert(!continues(langs, rows, key, j));
    assert(chain_stops_at(langs, rows, key, i, k));
}

/// With known fallbacks that run in no circle, resolving any message meets
/// no fault, so `get_translations` succeeds.
pub proof fn law_acyclic_fallbacks_succeed(
    cfg: ConfigView,
    rows: Seq<(Seq<char>, Seq<char>, Seq<char>)>,
    key: Seq<char>,
)
    requires
        fallbacks_known(cfg.langs),
        fallbacks_acyclic(cfg.langs),
    ensures
        translations_fault(cfg, rows, key) is None,
{
    lemma_no_fault_prefix(cfg, rows, key, cfg.langs.len() as int);
}

proof fn lemma_no_fault_prefix(
    cfg: ConfigView,
    rows: Seq<(Seq<char>, Seq<char>, Seq<char>)>,
    key: Seq<char>,
    n: int,
)
    requires
        fallbacks_known(cfg.langs),
        fallbacks_acyclic(cfg.langs),
        n <= cfg.langs.len(),
    ensures
        first_fault(cfg.langs, rows, key, n) is None,
    decreases n,
{
    if n > 0 {
        lemma_no_fault_prefix(cfg, rows, key, n - 1);
        law_acyclic_fallbacks_find_first_text(cfg.langs, rows, key, n - 1);
    }
}

/// No language name is configured twice.
pub open spec fn names_distinct(langs: Seq<LangView>) -> bool {
    forall|i: int, j: int| 0 <= i < j < langs.len() ==> #[trigger] langs[i].name != #[trigger] langs[j].name
}

/// With distinct names, the entries of the first `n` languages are one per
/// language, in order.
proof fn lemma_resolved_prefix_distinct(
    langs: Seq<LangView>,
    rows: Seq<(Seq<char>, Seq<char>, Seq<char>)>,
    key: Seq<char>,
    n: int,
)
    requires
        names_distinct(langs),
        0 <= n <= langs.len(),
    ensures
        resolved_prefix(langs, rows, key, n).len() == n,
        forall|i: int| 0 <= i < n ==> #[trigger] resolved_prefix(langs, rows, key, n)[i]
            == (langs[i].name, found_text(resolve(langs, rows, key, i))),
    decreases n,
{
    if n > 0 {
        lemma_resolved_prefix_distinct(langs, rows, key, n - 1);
        assert(is_last_name(langs, n - 1)) by {
            assert forall|j: int| n - 1 < j < langs.len() implies #[trigger] langs[j].name != langs[n - 1].name by {
                assert(langs[n - 1].name != langs[j].name);
            }
        }
        let prev = resolved_prefix(langs, rows, key, n - 1);
        assert forall|i: int| 0 <= i < n implies #[trigger] resolved_prefix(langs, rows, key, n)[i]
            == (langs[i].name, found_text(resolve(langs, rows, key, i))) by {
            if i < n - 1 {
                assert(resolved_prefix(langs, rows, key, n)[i] == prev[i]);
            }
        }
    }
}

/// With known fallbacks that run in no circle and no language name
/// configured twice, `get_translations` gives one entry per configured
/// language, in order: its name, and the text of the first language along
/// its chain of fallbacks (itself, its fallback, that one's fallback, ...)
/// that has one, or none where the chain ends without a text.
pub proof fn law_translations_follow_fallback_chains(
    cfg: ConfigView,
    rows: Seq<(Seq<char>, Seq<char>, Seq<char>)>,
    key: Seq<char>,
)
    requires
        fallbacks_known(cfg.langs),
        fallbacks_acyclic(cfg.langs),
        names_distinct(cfg.langs),
    ensures
        translations_fault(cfg, rows, key) is None,
        translations_spec(cfg, rows, key).len() == cfg.langs.len(),
        forall|i: int| 0 <= i < cfg.langs.len() ==> (#[trigger] translations_spec(cfg, rows, key)[i]).0 == cfg.langs[i].name
            && exists|k: nat| k < cfg.langs.len() && #[trigger] chain_stops_at(cfg.langs, rows, key, i, k)
                && translations_spec(cfg, rows, key)[i].1 == lookup(rows, key, cfg.langs[walk(cfg.langs, i, k)->Some_0].name),
{
    let langs = cfg.langs;
    law_acyclic_fallbacks_succeed(cfg, rows, key);
    lemma_resolved_prefix_distinct(langs, rows, key, langs.len() as int);
    assert forall|i: int| 0 <= i < langs.len() implies (#[trigger] translations_spec(cfg, rows, key)[i]).0 == langs[i].name
        && exists|k: nat| k < langs.len() && #[trigger] chain_stops_at(langs, rows, key, i, k)
            && translations_spec(cfg, rows, key)[i].1 == lookup(rows, key, langs[walk(langs, i, k)->Some_0].name) by {
        law_acyclic_fallbacks_find_first_text(langs, rows, key, i);
        let k = choose|k: nat| k < langs.len() && #[trigger] chain_stops_at(langs, rows, key, i, k)
            && resolve(langs, rows, key, i) == match lookup(rows, key, langs[walk(langs, i, k)->Some_0].name) {
                Some(t) => Resolution::Found(t),
                None => Resolution::Missing,
            };
        assert(translations_spec(cfg, rows, key)[i].1 == lookup(rows, key, langs[walk(langs, i, k)->Some_0].name));
    }
}

/// With known fallbacks that run in no circle, a language (the last
/// configured under its name) that has no text for message `key`, neither
/// its own nor one along its chain of fallbacks, makes the expansion for
/// `key` a compile error: "Missing translation for key '{key}' in lang
/// '{m}'" for a configured language `m` without a text.
pub proof fn law_language_without_text_is_compile_error(
    cfg: ConfigView,
    rows: Seq<(Seq<char>, Seq<char>, Seq<char>)>,
    key: Seq<char>,
    i: int,
)
    requires
        fallbacks_known(cfg.langs),
        fallbacks_acyclic(cfg.langs),
        0 <= i < cfg.langs.len(),
        is_last_name(cfg.langs, i),
        forall|k: nat| #[trigger] walk(cfg.langs, i, k) matches Some(j)
            ==> lookup(rows, key, cfg.langs[j].name) is None,
    ensures
        expansion(cfg, rows, key) matches Err(L10nFault::MissingTranslation(m))
            && exists|j: int| 0 <= j < cfg.langs.len() && is_last_name(cfg.langs, j)
                && #[trigger] resolve(cfg.langs, rows, key, j) == Resolution::Missing
                && m == missing_message(key, cfg.langs[j].name),
{
    let langs = cfg.langs;
    law_acyclic_fallbacks_succeed(cfg, rows, key);
    law_acyclic_fallbacks_find_first_text(langs, rows, key, i);
    let k = choose|k: nat| k < langs.len() && #[trigger] chain_stops_at(langs, rows, key, i, k)
        && resolve(langs, rows, key, i) == match lookup(rows, key, langs[walk(langs, i, k)->Some_0].name) {
            Some(t) => Resolution::Found(t),
            None => Resolution::Missing,
        };
    assert(walk(langs, i, k) is Some);
    assert(resolve(langs, rows, key, i) == Resolution::Missing);
    law_missing_translation_is_compile_error(cfg, rows, key);
    assert(expansion(cfg, rows, key) is Err);
}

/// The name of a `langs` element: the string itself, or the string under
/// `name` of a table.
pub open spec fn item_name(v: TomlValue) -> Option<Seq<char>> {
    match v {
        TomlValue::Str(s) => Some(s@),
        TomlValue::Table(_) => match v.spec_get("name"@) {
            Some(TomlValue::Str(n)) => Some(n@),
            _ => None,
        },
        _ => None,
    }
}

/// The fallback of a `langs` element: the string under `fallback` of a
/// table; none when the key is absent or not a string, or for a plain name.
pub open spec fn item_fallback(v: TomlValue) -> Option<Seq<char>> {
    match v.spec_get("fallback"@) {
        Some(TomlValue::Str(f)) => Some(f@),
        _ => None,
    }
}

/// An element of `langs` that is a plain name, or a table with a string
/// `name`, reads as that language, with the fallback its table gives if
/// any: a table without a `fallback` key is a language without fallback,
/// not an error. A table without a string `name` makes the metadata
/// invalid; any other element is skipped.
pub proof fn law_language_entry_reads_name_and_optional_fallback(v: TomlValue)
    ensures
        item_name(v) matches Some(n) ==> lang_item(v) == Some(Some(LangView { name: n, fallback: item_fallback(v) })),
        v is Table && v.spec_get("fallback"@) is None && item_name(v) is Some
            ==> lang_item(v) == Some(Some(LangView { name: item_name(v)->Some_0, fallback: None })),
        v is Table && item_name(v) is None ==> lang_item(v) is None,
        !(v is Table) && !(v is Str) ==> lang_item(v) == Some(None::<LangView>),
{
    if let TomlValue::Str(s) = v {
        assert(v.spec_get("fallback"@) is None);
    }
}

/// A `langs` array of plain names and tables with a string `name` gives
/// one language per element, in order, each as its element reads.
pub proof fn law_languages_read_in_order(items: Seq<TomlValue>)
    requires
        forall|j: int| 0 <= j < items.len() ==> (#[trigger] item_name(items[j])) is Some,
    ensures
        lang_items(items) matches Some(ls) && ls.len() == items.len()
            && forall|j: int| 0 <= j < items.len() ==> #[trigger] ls[j]
                == (LangView { name: item_name(items[j])->Some_0, fallback: item_fallback(items[j]) }),
    decreases items.len(),
{
    if items.len() > 0 {
        let p = items.drop_last();
        assert forall|j: int| 0 <= j < p.len() implies (#[trigger] item_name(p[j])) is Some by {
            assert(p[j] == items[j]);
        }
        law_languages_read_in_order(p);
        let x = items.last();
        assert(item_name(items[items.len() - 1]) is Some);
        law_language_entry_reads_name_and_optional_fallback(x);
        let ls = lang_items(items)->Some_0;
        let lp = lang_items(p)->Some_0;
        assert forall|j: int| 0 <= j < items.len() implies #[trigger] ls[j]
            == (LangView { name: item_name(items[j])->Some_0, fallback: item_fallback(items[j]) }) by {
            if j < p.len() {
                assert(p[j] == items[j]);
                assert(ls[j] == lp[j]);
            }
        }
    }
}

/// A metadata table with string `path` and `base` and a `langs` array of
/// plain names and tables with a string `name` configures exactly those
/// languages, in order.
pub proof fn law_metadata_lists_configured_languages(cfg: TomlValue, path: Seq<char>, base: Seq<char>, items: Seq<TomlValue>)
    requires
        cfg.spec_get("path"@) matches Some(TomlValue::Str(p)) && p@ == path,
        cfg.spec_get("base"@) matches Some(TomlValue::Str(b)) && b@ == base,
        cfg.spec_get("langs"@) matches Some(TomlValue::Array(a)) && a@ == items,
        forall|j: int| 0 <= j < items.len() ==> (#[trigger] item_name(items[j])) is Some,
    ensures
        metadata_spec(cfg) matches Some(c) && c.path == path && c.base == base && c.langs.len() == items.len()
            && forall|j: int| 0 <= j < items.len() ==> #[trigger] c.langs[j]
                == (LangView { name: item_name(items[j])->Some_0, fallback: item_fallback(items[j]) }),
{
    law_languages_read_in_order(items);
}

/// An element of `langs` that is a table without a string `name` makes the
/// whole list unreadable.
proof fn lemma_bad_language_entry(items: Seq<TomlValue>, j: int)
    requires
        0 <= j < items.len(),
        items[j] is Table,
        item_name(items[j]) is None,
    ensures
        lang_items(items) is None,
    decreases items.len(),
{
    law_language_entry_reads_name_and_optional_fallback(items[j]);
    if j < items.len() - 1 {
        assert(items.drop_last()[j] == items[j]);
        lemma_bad_language_entry(items.drop_last(), j);
    }
}

/// The metadata is invalid without `path` and `base` strings or without
/// `langs`, or with a `langs` element that is a table without a string
/// `name`; a `langs` that is not an array configures no language.
pub proof fn law_metadata_needs_path_base_and_langs(cfg: TomlValue)
    ensures
        !(cfg.spec_get("path"@) matches Some(TomlValue::Str(_))) ==> metadata_spec(cfg) is None,
        !(cfg.spec_get("base"@) matches Some(TomlValue::Str(_))) ==> metadata_spec(cfg) is None,
        cfg.spec_get("langs"@) is None ==> metadata_spec(cfg) is None,
        ((cfg.spec_get("path"@) matches Some(TomlValue::Str(_)))
            && (cfg.spec_get("base"@) matches Some(TomlValue::Str(_)))
            && cfg.spec_get("langs"@) is Some && !(cfg.spec_get("langs"@)->Some_0 is Array))
            ==> (metadata_spec(cfg) matches Some(c) && c.langs.len() == 0),
        ((cfg.spec_get("langs"@) matches Some(TomlValue::Array(a))
            && exists|j: int| 0 <= j < a@.len() && (#[trigger] a@[j]) is Table && item_name(a@[j]) is None))
            ==> metadata_spec(cfg) is None,
{
    if let Some(TomlValue::Array(a)) = cfg.spec_get("langs"@) {
        if exists|j: int| 0 <= j < a@.len() && (#[trigger] a@[j]) is Table && item_name(a@[j]) is None {
            let j = choose|j: int| 0 <= j < a@.len() && (#[trigger] a@[j]) is Table && item_name(a@[j]) is None;
            lemma_bad_language_entry(a@, j);
        }
    }
}

/// The value of a message gives text `v` in `lang`: it is a table whose
/// field `lang` is the string `v`.
pub open spec fn value_gives(value: TomlValue, lang: Seq<char>, v: Seq<char>) -> bool {
    match value {
        TomlValue::Table(langs) => exists|b: int| 0 <= b < langs@.len() && #[trigger] langs@[b].0@ == lang
            && (langs@[b].1 matches TomlValue::Str(t) && t@ == v),
        _ => false,
    }
}

/// A translation file gives message `key` text `v` in `lang`: it is a table
/// whose entry `key` gives that text.
pub open spec fn file_gives(doc: Option<TomlValue>, key: Seq<char>, lang: Seq<char>, v: Seq<char>) -> bool {
    match doc {
        Some(TomlValue::Table(entries)) => exists|a: int| 0 <= a < entries@.len() && #[trigger] entries@[a].0@ == key
            && value_gives(entries@[a].1, lang, v),
        _ => false,
    }
}

proof fn lemma_contains_concat<A>(a: Seq<A>, b: Seq<A>, x: A)
    ensures
        (a + b).contains(x) <==> a.contains(x) || b.contains(x),
{
    if (a + b).contains(x) {
        let i = choose|i: int| 0 <= i < (a + b).len() && (a + b)[i] == x;
        if i < a.len() {
            assert(a[i] == x);
        } else {
            assert(b[i - a.len()] == x);
        }
    }
    if a.contains(x) {
        let i = choose|i: int| 0 <= i < a.len() && a[i] == x;
        assert((a + b)[i] == x);
    }
    if b.contains(x) {
        let i = choose|i: int| 0 <= i < b.len() && b[i] == x;
        assert((a + b)[i + a.len()] == x);
    }
}

proof fn lemma_lang_rows_contains(key: Seq<char>, langs: Seq<(String, TomlValue)>, k: Seq<char>, l: Seq<char>, v: Seq<char>)
    ensures
        lang_rows(key, langs).contains((k, l, v)) <==> k == key && exists|b: int| 0 <= b < langs.len()
            && #[trigger] langs[b].0@ == l && (langs[b].1 matches TomlValue::Str(t) && t@ == v),
    decreases langs.len(),
{
    if langs.len() == 0 {
        assert(!lang_rows(key, langs).contains((k, l, v)));
    } else {
        let p = langs.drop_last();
        lemma_lang_rows_contains(key, p, k, l, v);
        let tail = match langs.last().1 {
            TomlValue::Str(t) => seq![(key, langs.last().0@, t@)],
            _ => Seq::empty(),
        };
        lemma_contains_concat(lang_rows(key, p), tail, (k, l, v));
        if tail.contains((k, l, v)) {
            let i = choose|i: int| 0 <= i < tail.len() && tail[i] == (k, l, v);
            assert(langs[langs.len() - 1].0@ == l);
        }
        if k == key && exists|b: int| 0 <= b < langs.len() && #[trigger] langs[b].0@ == l
            && (langs[b].1 matches TomlValue::Str(t) && t@ == v) {
            let b = choose|b: int| 0 <= b < langs.len() && #[trigger] langs[b].0@ == l
                && (langs[b].1 matches TomlValue::Str(t) && t@ == v);
            if b < p.len() {
                assert(p[b] == langs[b]);
            } else {
                assert(tail[0] == (k, l, v));
            }
        }
        if exists|b: int| 0 <= b < p.len() && #[trigger] p[b].0@ == l && (p[b].1 matches TomlValue::Str(t) && t@ == v) {
            let b = choose|b: int| 0 <= b < p.len() && #[trigger] p[b].0@ == l && (p[b].1 matches TomlValue::Str(t) && t@ == v);
            assert(langs[b] == p[b]);
        }
    }
}

pub(crate) proof fn lemma_doc_rows_contains(entries: Seq<(String, TomlValue)>, k: Seq<char>, l: Seq<char>, v: Seq<char>)
    ensures
        doc_rows(entries).contains((k, l, v)) <==> exists|a: int| 0 <= a < entries.len()
            && #[trigger] entries[a].0@ == k && value_gives(entries[a].1, l, v),
    decreases entries.len(),
{
    if entries.len() == 0 {
        assert(!doc_rows(entries).contains((k, l, v)));
    } else {
        let p = entries.drop_last();
        let last = entries.last();
        lemma_doc_rows_contains(p, k, l, v);
        lemma_contains_concat(doc_rows(p), entry_rows(last.0@, last.1), (k, l, v));
        if let TomlValue::Table(langs) = last.1 {
            lemma_lang_rows_contains(last.0@, langs@, k, l, v);
        } else {
            assert(!entry_rows(last.0@, last.1).contains((k, l, v)));
        }
        if exists|a: int| 0 <= a < entries.len() && #[trigger] entries[a].0@ == k && value_gives(entries[a].1, l, v) {
            let a = choose|a: int| 0 <= a < entries.len() && #[trigger] entries[a].0@ == k && value_gives(entries[a].1, l, v);
            if a < p.len() {
                assert(p[a] == entries[a]);
            }
        }
        if exists|a: int| 0 <= a < p.len() && #[trigger] p[a].0@ == k && value_gives(p[a].1, l, v) {
            let a = choose|a: int| 0 <= a < p.len() && #[trigger] p[a].0@ == k && value_gives(p[a].1, l, v);
            assert(entries[a] == p[a]);
        }
        if entry_rows(last.0@, last.1).contains((k, l, v)) {
            assert(entries[entries.len() - 1] == last);
        }
    }
}

/// The rows of the files are exactly the texts that the files give: a file
/// that is a table maps the message to a table whose field for the language
/// is that string.
pub proof fn law_file_rows_are_file_texts(docs: Seq<Option<TomlValue>>, key: Seq<char>, lang: Seq<char>, v: Seq<char>)
    ensures
        explicit_rows(docs).contains((key, lang, v)) <==>
            exists|f: int| 0 <= f < docs.len() && #[trigger] file_gives(docs[f], key, lang, v),
    decreases docs.len(),
{
    if docs.len() == 0 {
        assert(!explicit_rows(docs).contains((key, lang, v)));
    } else {
        let p = docs.drop_last();
        law_file_rows_are_file_texts(p, key, lang, v);
        lemma_contains_concat(explicit_rows(p), file_rows(docs.last()), (key, lang, v));
        if let Some(TomlValue::Table(entries)) = docs.last() {
            lemma_doc_rows_contains(entries@, key, lang, v);
            assert(file_rows(docs.last()).contains((key, lang, v)) <==> file_gives(docs.last(), key, lang, v));
        } else {
            assert(!file_rows(docs.last()).contains((key, lang, v)));
            assert(!file_gives(docs.last(), key, lang, v));
        }
        if exists|f: int| 0 <= f < docs.len() && #[trigger] file_gives(docs[f], key, lang, v) {
            let f = choose|f: int| 0 <= f < docs.len() && #[trigger] file_gives(docs[f], key, lang, v);
            if f < p.len() {
                assert(p[f] == docs[f]);
            }
        }
        if exists|f: int| 0 <= f < p.len() && #[trigger] file_gives(p[f], key, lang, v) {
            let f = choose|f: int| 0 <= f < p.len() && #[trigger] file_gives(p[f], key, lang, v);
            assert(docs[f] == p[f]);
        }
        if file_rows(docs.last()).contains((key, lang, v)) {
            assert(docs[docs.len() - 1] == docs.last());
            assert(file_gives(docs[docs.len() - 1], key, lang, v));
        }
    }
}

/// When the files write out no pair twice, the table holds text `v` for
/// message `key` in `lang` exactly when a file gives it, or when `lang` is
/// the base language, `v` is the message, a file names the message, and no
/// file gives it a base-language text.
pub proof fn law_table_is_file_texts_and_base_entries(
    docs: Seq<Option<TomlValue>>,
    base: Seq<char>,
    key: Seq<char>,
    lang: Seq<char>,
    v: Seq<char>,
)
    requires
        no_duplicate_pairs(explicit_rows(docs)),
    ensures
        lookup(table_rows(docs, base), key, lang) == Some(v) <==> (
            (exists|f: int| 0 <= f < docs.len() && #[trigger] file_gives(docs[f], key, lang, v))
            || (lang == base && v == key && all_keys(docs).contains(key)
                && !(exists|f: int, w: Seq<char>| 0 <= f < docs.len() && #[trigger] file_gives(docs[f], key, base, w)))
        ),
{
    let e = explicit_rows(docs);
    law_table_lookup_exact(docs, base, key, lang, v);
    law_file_rows_are_file_texts(docs, key, lang, v);
    if has_pair(e, key, base) {
        let i = choose|i: int| 0 <= i < e.len() && #[trigger] e[i].0 == key && e[i].1 == base;
        let w = e[i].2;
        assert(e[i] == (key, base, w));
        law_file_rows_are_file_texts(docs, key, base, w);
        let f = choose|f: int| 0 <= f < docs.len() && #[trigger] file_gives(docs[f], key, base, w);
    }
    if exists|f: int, w: Seq<char>| 0 <= f < docs.len() && #[trigger] file_gives(docs[f], key, base, w) {
        let (f, w) = choose|f: int, w: Seq<char>| 0 <= f < docs.len() && #[trigger] file_gives(docs[f], key, base, w);
        law_file_rows_are_file_texts(docs, key, base, w);
        let i = choose|i: int| 0 <= i < e.len() && e[i] == (key, base, w);
        assert(e[i].0 == key && e[i].1 == base);
    }
}

} // verus!
