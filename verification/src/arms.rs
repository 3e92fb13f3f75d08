use vstd::prelude::*;
use crate::toml_model::str_eq;
use crate::resolve::ResolvedLang;

verus! {

/// One arm of the expansion of a localization macro: the language it
/// matches and either the text it yields or the compile error it raises.
pub enum Arm {
    Text { lang: String, text: String },
    Missing { lang: String, message: String },
}

/// An arm, by the views of its parts.
pub enum ArmView {
    Text(Seq<char>, Seq<char>),
    Missing(Seq<char>, Seq<char>),
}

impl View for Arm {
    type V = ArmView;

    open spec fn view(&self) -> ArmView {
        match self {
            Arm::Text { lang, text } => ArmView::Text(lang@, text@),
            Arm::Missing { lang, message } => ArmView::Missing(lang@, message@),
        }
    }
}

impl ArmView {
    /// The language the arm matches.
    pub open spec fn lang(self) -> Seq<char> {
        match self {
            ArmView::Text(l, _) => l,
            ArmView::Missing(l, _) => l,
        }
    }
}

/// The compile error raised for a message without a text in a language.
pub open spec fn missing_message(key: Seq<char>, lang: Seq<char>) -> Seq<char> {
    "Missing translation for key '"@ + key + "' in lang '"@ + lang + "'"@
}

/// The arm of one language's entry.
pub open spec fn arm_of(key: Seq<char>, entry: (Seq<char>, Option<Seq<char>>)) -> ArmView {
    match entry.1 {
        Some(t) => ArmView::Text(entry.0, t),
        None => ArmView::Missing(entry.0, missing_message(key, entry.0)),
    }
}

/// The arms of all entries, in order.
pub open spec fn arms_of(key: Seq<char>, entries: Seq<(Seq<char>, Option<Seq<char>>)>) -> Seq<ArmView> {
    entries.map_values(|e: (Seq<char>, Option<Seq<char>>)| arm_of(key, e))
}

/// The message of the first arm that raises a compile error.
pub open spec fn first_missing(arms: Seq<ArmView>) -> Option<Seq<char>>
    decreases arms.len(),
{
    if arms.len() == 0 {
        None
    } else {
        match arms[0] {
            ArmView::Missing(_, m) => Some(m),
            ArmView::Text(_, _) => first_missing(arms.drop_first()),
        }
    }
}

/// What the arms yield when the current language is `lang`: the first arm
/// that matches it, as a `match` takes it.
pub open spec fn select(arms: Seq<ArmView>, lang: Seq<char>) -> Option<ArmView>
    decreases arms.len(),
{
    if arms.len() == 0 {
        None
    } else if arms[0].lang() == lang {
        Some(arms[0])
    } else {
        select(arms.drop_first(), lang)
    }
}

/// The compile error for `key` missing in `lang`.
pub fn missing_translation_message(key: &str, lang: &str) -> (m: String)
    ensures
        m@ == missing_message(key@, lang@),
{
    let mut m = String::new();
    m.append("Missing translation for key '");
    m.append(key);
    m.append("' in lang '");
    m.append(lang);
    m.append("'");
    m
}

/// One arm per language entry: the entry's text, or a compile error naming
/// the message and the language that lacks it.
pub fn build_l10n_arms(key: &str, entries: &Vec<ResolvedLang>) -> (arms: Vec<Arm>)
    ensures
        arms@.map_values(|a: Arm| a@) == arms_of(key@, entries@.map_values(|e: ResolvedLang| e@)),
{
    let ghost ev = entries@.map_values(|e: ResolvedLang| e@);
    let mut arms: Vec<Arm> = Vec::new();
    let mut i: usize = 0;
    while i < entries.len()
        invariant
            i <= entries@.len(),
            ev == entries@.map_values(|e: ResolvedLang| e@),
            arms@.map_values(|a: Arm| a@) == arms_of(key@, ev.take(i as int)),
        decreases entries@.len() - i,
    {
        let e = &entries[i];
        let arm = match &e.text {
            Some(t) => Arm::Text { lang: e.lang.clone(), text: t.clone() },
            None => Arm::Missing { lang: e.lang.clone(), message: missing_translation_message(key, e.lang.as_str()) },
        };
        assert(arm@ == arm_of(key@, ev[i as int]));
        let ghost before = arms@.map_values(|a: Arm| a@);
        arms.push(arm);
        assert(arms@.map_values(|a: Arm| a@) =~= before.push(arm@));
        assert(arms_of(key@, ev.take(i as int).push(ev[i as int])) =~= arms_of(key@, ev.take(i as int)).push(arm_of(key@, ev[i as int])));
        assert(ev.take(i + 1) =~= ev.take(i as int).push(ev[i as int]));
        assert(arms@.map_values(|a: Arm| a@) =~= arms_of(key@, ev.take(i + 1)));
        i = i + 1;
    }
    assert(ev.take(entries@.len() as int) =~= ev);
    arms
}

/// The message of the first arm that raises a compile error.
pub fn first_missing_arm(arms: &Vec<Arm>) -> (r: Option<&String>)
    ensures
        match r {
            Some(m) => first_missing(arms@.map_values(|a: Arm| a@)) == Some(m@),
            None => first_missing(arms@.map_values(|a: Arm| a@)) is None,
        },
{
    let ghost av = arms@.map_values(|a: Arm| a@);
    let mut i: usize = 0;
    assert(av.skip(0) =~= av);
    while i < arms.len()
        invariant
            i <= arms@.len(),
            av == arms@.map_values(|a: Arm| a@),
            first_missing(av) == first_missing(av.skip(i as int)),
        decreases arms@.len() - i,
    {
        assert(av.skip(i as int).drop_first() =~= av.skip(i + 1));
        assert(av.skip(i as int)[0] == av[i as int]);
        match &arms[i] {
            Arm::Missing { message, .. } => return Some(message),
            Arm::Text { .. } => {},
        }
        i = i + 1;
    }
    None
}

/// The index of the arm that matches `lang`.
pub fn select_arm(arms: &Vec<Arm>, lang: &str) -> (r: Option<usize>)
    ensures
        match r {
            Some(k) => k < arms@.len() && select(arms@.map_values(|a: Arm| a@), lang@) == Some(arms@[k as int]@),
            None => select(arms@.map_values(|a: Arm| a@), lang@) is None,
        },
{
    let ghost av = arms@.map_values(|a: Arm| a@);
    let mut i: usize = 0;
    assert(av.skip(0) =~= av);
    while i < arms.len()
        invariant
            i <= arms@.len(),
            av == arms@.map_values(|a: Arm| a@),
            select(av, lang@) == select(av.skip(i as int), lang@),
        decreases arms@.len() - i,
    {
        assert(av.skip(i as int).drop_first() =~= av.skip(i + 1));
        assert(av.skip(i as int)[0] == av[i as int]);
        let arm_lang = match &arms[i] {
            Arm::Text { lang, .. } => lang,
            Arm::Missing { lang, .. } => lang,
        };
        if str_eq(arm_lang.as_str(), lang) {
            return Some(i);
        }
        i = i + 1;
    }
    None
}

} // verus!
