use vstd::prelude::*;
use crate::config::{Config, ConfigView, LangView};
use crate::translations::{TranslationTable, DuplicateTranslation, parse_translations, explicit_rows, table_rows, first_duplicate};
use crate::toml_model::TomlValue;
use crate::resolve::{Resolution, FallbackError, get_translations, translations_fault, translations_spec};
use crate::arms::{Arm, ArmView, arms_of, first_missing, select, build_l10n_arms, first_missing_arm, select_arm};
use crate::format::{FormatArg, FormatError, FormatFault, format_spec, format_template};
use crate::render::{decimal, decimal_spec};

verus! {

/// Why a localization macro yields no text.
pub enum L10nError {
    /// A fallback chain cannot be followed: the expansion itself fails.
    Fallback(FallbackError),
    /// Some language has no text: the expansion holds this compile error.
    MissingTranslation(String),
    /// The template of `lang` does not format with the arguments: a compile error.
    Format { lang: String, error: FormatError },
    /// The current language has no arm: the code panics with
    /// "Unsupported language: {lang}" when it runs.
    UnsupportedLanguage(String),
}

/// A localization failure, by the views of its parts.
pub enum L10nFault {
    Fallback(Seq<char>, Resolution),
    MissingTranslation(Seq<char>),
    Format(Seq<char>, FormatFault),
    UnsupportedLanguage(Seq<char>),
}

impl View for L10nError {
    type V = L10nFault;

    open spec fn view(&self) -> L10nFault {
        match self {
            L10nError::Fallback(e) => L10nFault::Fallback(e@.0, e@.1),
            L10nError::MissingTranslation(m) => L10nFault::MissingTranslation(m@),
            L10nError::Format { lang, error } => L10nFault::Format(lang@, error@),
            L10nError::UnsupportedLanguage(l) => L10nFault::UnsupportedLanguage(l@),
        }
    }
}

/// The arms that a localization macro for `key` expands to, or the failure
/// of the expansion: a fallback fault, or else the compile error of the
/// first language without a text.
pub open spec fn expansion(cfg: ConfigView, rows: Seq<(Seq<char>, Seq<char>, Seq<char>)>, key: Seq<char>) -> Result<Seq<ArmView>, L10nFault> {
    match translations_fault(cfg, rows, key) {
        Some(f) => Err(L10nFault::Fallback(f.0, f.1)),
        None => match first_missing(arms_of(key, translations_spec(cfg, rows, key))) {
            Some(m) => Err(L10nFault::MissingTranslation(m)),
            None => Ok(arms_of(key, translations_spec(cfg, rows, key))),
        },
    }
}

/// What `l10n!(key)` yields when the current language is `current`.
pub open spec fn l10n_spec(cfg: ConfigView, rows: Seq<(Seq<char>, Seq<char>, Seq<char>)>, current: Seq<char>, key: Seq<char>) -> Result<Seq<char>, L10nFault> {
    match expansion(cfg, rows, key) {
        Err(e) => Err(e),
        Ok(arms) => match select(arms, current) {
            Some(ArmView::Text(_, t)) => Ok(t),
            _ => Err(L10nFault::UnsupportedLanguage(current)),
        },
    }
}

/// The first arm whose template does not format with `args`, with the fault.
pub open spec fn first_format_fault(arms: Seq<ArmView>, args: Seq<(Option<Seq<char>>, Seq<char>)>) -> Option<(Seq<char>, FormatFault)>
    decreases arms.len(),
{
    if arms.len() == 0 {
        None
    } else {
        match arms[0] {
            ArmView::Text(l, t) => match format_spec(t, args) {
                Err(f) => Some((l, f)),
                Ok(_) => first_format_fault(arms.drop_first(), args),
            },
            ArmView::Missing(_, _) => first_format_fault(arms.drop_first(), args),
        }
    }
}

/// What `f16n!(fmt, args..)` yields when the current language is `current`:
/// the template of every language must format with the arguments; the
/// current language's is formatted.
pub open spec fn f16n_spec(
    cfg: ConfigView,
    rows: Seq<(Seq<char>, Seq<char>, Seq<char>)>,
    current: Seq<char>,
    fmt: Seq<char>,
    args: Seq<(Option<Seq<char>>, Seq<char>)>,
) -> Result<Seq<char>, L10nFault> {
    match expansion(cfg, rows, fmt) {
        Err(e) => Err(e),
        Ok(arms) => match first_format_fault(arms, args) {
            Some((l, f)) => Err(L10nFault::Format(l, f)),
            None => match select(arms, current) {
                Some(ArmView::Text(l, t)) => match format_spec(t, args) {
                    Ok(s) => Ok(s),
                    Err(f) => Err(L10nFault::Format(l, f)),
                },
                _ => Err(L10nFault::UnsupportedLanguage(current)),
            },
        },
    }
}

/// The compile error of `l10n!(key)`, if it has one.
pub open spec fn l10n_compile_fault(cfg: ConfigView, rows: Seq<(Seq<char>, Seq<char>, Seq<char>)>, key: Seq<char>) -> Option<L10nFault> {
    match expansion(cfg, rows, key) {
        Err(e) => Some(e),
        Ok(_) => None,
    }
}

/// The compile error of `f16n!(fmt, args..)`, if it has one.
pub open spec fn f16n_compile_fault(
    cfg: ConfigView,
    rows: Seq<(Seq<char>, Seq<char>, Seq<char>)>,
    fmt: Seq<char>,
    args: Seq<(Option<Seq<char>>, Seq<char>)>,
) -> Option<L10nFault> {
    match expansion(cfg, rows, fmt) {
        Err(e) => Some(e),
        Ok(arms) => match first_format_fault(arms, args) {
            Some((l, f)) => Some(L10nFault::Format(l, f)),
            None => None,
        },
    }
}

/// What a localized assertion does: a compile error stops it; a condition
/// that holds passes (`None`) without looking at the message; a condition that
/// fails panics with the message (`Some`), or with the message's own run-time
/// failure.
pub open spec fn checked(
    compile: Option<L10nFault>,
    cond: bool,
    message: Result<Seq<char>, L10nFault>,
) -> Result<Option<Seq<char>>, L10nFault> {
    match compile {
        Some(e) => Err(e),
        None => if cond {
            Ok(None)
        } else {
            match message {
                Ok(m) => Ok(Some(m)),
                Err(e) => Err(e),
            }
        },
    }
}

/// The panic message of a failed `assert_eq!` (`op` is "==") or
/// `assert_ne!` (`op` is "!=") with custom message `msg`.
pub open spec fn comparison_message(op: Seq<char>, msg: Seq<char>, left: i64, right: i64) -> Seq<char> {
    "assertion `left "@ + op + " right` failed: "@ + msg + "\n  left: "@ + decimal_spec(left as int)
        + "\n right: "@ + decimal_spec(right as int)
}

/// The line that reports a configured language.
pub open spec fn lang_line(l: LangView) -> Seq<char> {
    match l.fallback {
        Some(f) => "    - name: "@ + l.name + ", fallback: "@ + f,
        None => "    - name: "@ + l.name,
    }
}

/// The line that reports a loaded translation.
pub open spec fn row_line(r: (Seq<char>, Seq<char>, Seq<char>)) -> Seq<char> {
    "  - key: "@ + r.0 + ", lang: "@ + r.1 + ", translation: "@ + r.2
}

/// The report of the metadata and the loaded translations.
pub open spec fn metadata_report(cfg: ConfigView, rows: Seq<(Seq<char>, Seq<char>, Seq<char>)>) -> Seq<Seq<char>> {
    seq!["static-l10n metadata:"@, "  path: "@ + cfg.path, "  langs:"@]
        + cfg.langs.map_values(|l: LangView| lang_line(l))
        + seq!["Loaded translations:"@]
        + rows.map_values(|r: (Seq<char>, Seq<char>, Seq<char>)| row_line(r))
}

/// A string holding the text `t`.
fn text_line(t: &str) -> (s: String)
    ensures
        s@ == t@,
{
    let mut s = String::new();
    s.append(t);
    assert(s@ =~= t@);
    s
}

/// A result by its views.
pub open spec fn result_view(r: Result<String, L10nError>) -> Result<Seq<char>, L10nFault> {
    match r {
        Ok(t) => Ok(t@),
        Err(e) => Err(e@),
    }
}

/// An assertion's outcome by its views.
pub open spec fn outcome_view(r: Result<Option<String>, L10nError>) -> Result<Option<Seq<char>>, L10nFault> {
    match r {
        Ok(Some(m)) => Ok(Some(m@)),
        Ok(None) => Ok(None),
        Err(e) => Err(e@),
    }
}

/// The panic message of a failed comparison, around the localized message.
pub open spec fn wrap_message(op: Seq<char>, msg: Result<Seq<char>, L10nFault>, left: i64, right: i64) -> Result<Seq<char>, L10nFault> {
    match msg {
        Ok(m) => Ok(comparison_message(op, m, left, right)),
        Err(e) => Err(e),
    }
}

/// The panic message of a failed `assert_eq!` or `assert_ne!`.
pub fn comparison_failure(op: &str, msg: &str, left: i64, right: i64) -> (m: String)
    ensures
        m@ == comparison_message(op@, msg@, left, right),
{
    let mut m = String::new();
    m.append("assertion `left ");
    m.append(op);
    m.append(" right` failed: ");
    m.append(msg);
    m.append("\n  left: ");
    let l = decimal(left);
    m.append(l.as_str());
    m.append("\n right: ");
    let r = decimal(right);
    m.append(r.as_str());
    m
}

/// The configuration, translations and current language of a crate that
/// uses the localization macros.
pub struct Catalog {
    pub config: Config,
    pub table: TranslationTable,
    pub current: String,
}

impl Catalog {
    /// What `l10n!(key)` yields in this catalog's current language.
    pub open spec fn spec_l10n(&self, key: Seq<char>) -> Result<Seq<char>, L10nFault> {
        l10n_spec(self.config@, self.table@, self.current@, key)
    }

    /// What `f16n!(fmt, args..)` yields in this catalog's current language.
    pub open spec fn spec_f16n(&self, fmt: Seq<char>, args: Seq<(Option<Seq<char>>, Seq<char>)>) -> Result<Seq<char>, L10nFault> {
        f16n_spec(self.config@, self.table@, self.current@, fmt, args)
    }

    /// The state that `main!()` sets up: the current language is the base language.
    pub fn new(config: Config, table: TranslationTable) -> (c: Catalog)
        ensures
            c.config@ == config@,
            c.table@ == table@,
            c.current@ == config@.base,
    {
        let current = config.base.clone();
        Catalog { config, table, current }
    }

    /// The catalog of a configuration and its parsed translation files.
    pub fn from_documents(config: Config, docs: &Vec<Option<TomlValue>>) -> (r: Result<Catalog, DuplicateTranslation>)
        ensures
            match r {
                Ok(c) => first_duplicate(explicit_rows(docs@)) is None
                    && c.config@ == config@ && c.table@ == table_rows(docs@, config@.base)
                    && c.current@ == config@.base,
                Err(d) => first_duplicate(explicit_rows(docs@)) == Some((d.key@, d.lang@)),
            },
    {
        match parse_translations(docs, &config.base) {
            Ok(table) => Ok(Catalog::new(config, table)),
            Err(d) => Err(d),
        }
    }

    /// `lang!(lang)`: switches the current language.
    pub fn lang(&mut self, lang: &str)
        ensures
            final(self).current@ == lang@,
            final(self).config@ == old(self).config@,
            final(self).table@ == old(self).table@,
    {
        self.current = lang.to_string();
    }

    /// The arms that a macro for `key` expands to.
    fn expand(&self, key: &str) -> (r: Result<Vec<Arm>, L10nError>)
        ensures
            match r {
                Ok(arms) => expansion(self.config@, self.table@, key@) == Ok::<Seq<ArmView>, L10nFault>(arms@.map_values(|a: Arm| a@)),
                Err(e) => expansion(self.config@, self.table@, key@) == Err::<Seq<ArmView>, L10nFault>(e@),
            },
    {
        let entries = match get_translations(key, &self.config, &self.table) {
            Ok(v) => v,
            Err(e) => return Err(L10nError::Fallback(e)),
        };
        let arms = build_l10n_arms(key, &entries);
        match first_missing_arm(&arms) {
            Some(m) => Err(L10nError::MissingTranslation(m.clone())),
            None => Ok(arms),
        }
    }

    /// `l10n!(key)`: the text of `key` in the current language.
    pub fn l10n(&self, key: &str) -> (r: Result<String, L10nError>)
        ensures
            match r {
                Ok(t) => self.spec_l10n(key@) == Ok::<Seq<char>, L10nFault>(t@),
                Err(e) => self.spec_l10n(key@) == Err::<Seq<char>, L10nFault>(e@),
            },
    {
        let arms = match self.expand(key) {
            Ok(a) => a,
            Err(e) => return Err(e),
        };
        match select_arm(&arms, self.current.as_str()) {
            Some(k) => match &arms[k] {
                Arm::Text { text, .. } => Ok(text.clone()),
                Arm::Missing { .. } => Err(L10nError::UnsupportedLanguage(self.current.clone())),
            },
            None => Err(L10nError::UnsupportedLanguage(self.current.clone())),
        }
    }

    /// The arms for `fmt`, each of whose templates formats with `args`: what
    /// must hold for `f16n!(fmt, args..)` to compile.
    #[verifier::loop_isolation(false)]
    fn expand_formatted(&self, fmt: &str, args: &Vec<FormatArg>) -> (r: Result<Vec<Arm>, L10nError>)
        ensures
            match r {
                Ok(arms) => f16n_compile_fault(self.config@, self.table@, fmt@, args@.map_values(|a: FormatArg| a@)) is None
                    && expansion(self.config@, self.table@, fmt@) == Ok::<Seq<ArmView>, L10nFault>(arms@.map_values(|a: Arm| a@)),
                Err(e) => f16n_compile_fault(self.config@, self.table@, fmt@, args@.map_values(|a: FormatArg| a@)) == Some(e@),
            },
    {
        let ghost av = args@.map_values(|a: FormatArg| a@);
        let arms = match self.expand(fmt) {
            Ok(a) => a,
            Err(e) => return Err(e),
        };
        let ghost arv = arms@.map_values(|a: Arm| a@);
        let mut i: usize = 0;
        assert(arv.skip(0) =~= arv);
        while i < arms.len()
            invariant
                i <= arms@.len(),
                arv == arms@.map_values(|a: Arm| a@),
                av == args@.map_values(|a: FormatArg| a@),
                first_format_fault(arv, av) == first_format_fault(arv.skip(i as int), av),
            decreases arms@.len() - i,
        {
            assert(arv.skip(i as int).drop_first() =~= arv.skip(i + 1));
            assert(arv.skip(i as int)[0] == arv[i as int]);
            match &arms[i] {
                Arm::Text { lang, text } => {
                    match format_template(text.as_str(), args) {
                        Err(e) => return Err(L10nError::Format { lang: lang.clone(), error: e }),
                        Ok(_) => {},
                    }
                },
                Arm::Missing { .. } => {},
            }
            i = i + 1;
        }
        assert(arv.skip(arms@.len() as int) =~= Seq::<ArmView>::empty());
        Ok(arms)
    }

    /// `f16n!(fmt, args..)`: the template of `fmt` in the current language,
    /// formatted with `args`.
    pub fn f16n(&self, fmt: &str, args: &Vec<FormatArg>) -> (r: Result<String, L10nError>)
        ensures
            match r {
                Ok(t) => self.spec_f16n(fmt@, args@.map_values(|a: FormatArg| a@)) == Ok::<Seq<char>, L10nFault>(t@),
                Err(e) => self.spec_f16n(fmt@, args@.map_values(|a: FormatArg| a@)) == Err::<Seq<char>, L10nFault>(e@),
            },
    {
        let arms = match self.expand_formatted(fmt, args) {
            Ok(a) => a,
            Err(e) => return Err(e),
        };
        match select_arm(&arms, self.current.as_str()) {
            Some(k) => match &arms[k] {
                Arm::Text { lang, text } => match format_template(text.as_str(), args) {
                    Ok(s) => Ok(s),
                    Err(e) => Err(L10nError::Format { lang: lang.clone(), error: e }),
                },
                Arm::Missing { .. } => Err(L10nError::UnsupportedLanguage(self.current.clone())),
            },
            None => Err(L10nError::UnsupportedLanguage(self.current.clone())),
        }
    }

    /// `l10n_args!(key)`: what the `fmt::Arguments` it makes display. Each
    /// language's text is a format string without arguments, as for
    /// `f16n!(key)`: `{{` and `}}` stand for braces.
    pub fn l10n_args(&self, key: &str) -> (r: Result<String, L10nError>)
        ensures
            result_view(r) == self.spec_f16n(key@, Seq::empty()),
    {
        let no_args: Vec<FormatArg> = Vec::new();
        assert(no_args@.map_values(|a: FormatArg| a@) =~= Seq::<(Option<Seq<char>>, Seq<char>)>::empty());
        self.f16n(key, &no_args)
    }

    /// `f16n_args!(fmt, args..)`: what the `fmt::Arguments` it makes display,
    /// that is the text of `f16n!(fmt, args..)`.
    pub fn f16n_args(&self, fmt: &str, args: &Vec<FormatArg>) -> (r: Result<String, L10nError>)
        ensures
            result_view(r) == self.spec_f16n(fmt@, args@.map_values(|a: FormatArg| a@)),
    {
        self.f16n(fmt, args)
    }

    /// `l10n_panic!(key)`: the message it panics with; each language's text
    /// is a format string without arguments.
    pub fn l10n_panic(&self, key: &str) -> (r: Result<String, L10nError>)
        ensures
            result_view(r) == self.spec_f16n(key@, Seq::empty()),
    {
        let no_args: Vec<FormatArg> = Vec::new();
        assert(no_args@.map_values(|a: FormatArg| a@) =~= Seq::<(Option<Seq<char>>, Seq<char>)>::empty());
        self.f16n(key, &no_args)
    }

    /// `f16n_panic!(fmt, args..)`: the message it panics with.
    pub fn f16n_panic(&self, fmt: &str, args: &Vec<FormatArg>) -> (r: Result<String, L10nError>)
        ensures
            result_view(r) == self.spec_f16n(fmt@, args@.map_values(|a: FormatArg| a@)),
    {
        self.f16n(fmt, args)
    }

    /// `l10n_write!(buf, key)`: appends the text of `key` to `buf`; each
    /// language's text is a format string without arguments.
    pub fn l10n_write(&self, buf: &mut String, key: &str) -> (r: Result<(), L10nError>)
        ensures
            match self.spec_f16n(key@, Seq::empty()) {
                Ok(t) => r is Ok && final(buf)@ == old(buf)@ + t,
                Err(e) => (r matches Err(x) && x@ == e) && final(buf)@ == old(buf)@,
            },
    {
        let no_args: Vec<FormatArg> = Vec::new();
        assert(no_args@.map_values(|a: FormatArg| a@) =~= Seq::<(Option<Seq<char>>, Seq<char>)>::empty());
        self.f16n_write(buf, key, &no_args)
    }

    /// `l10n_writeln!(buf, key)`: appends the text of `key` and a newline to
    /// `buf`; each language's text is a format string without arguments.
    pub fn l10n_writeln(&self, buf: &mut String, key: &str) -> (r: Result<(), L10nError>)
        ensures
            match self.spec_f16n(key@, Seq::empty()) {
                Ok(t) => r is Ok && final(buf)@ == old(buf)@ + t + "\n"@,
                Err(e) => (r matches Err(x) && x@ == e) && final(buf)@ == old(buf)@,
            },
    {
        let no_args: Vec<FormatArg> = Vec::new();
        assert(no_args@.map_values(|a: FormatArg| a@) =~= Seq::<(Option<Seq<char>>, Seq<char>)>::empty());
        self.f16n_writeln(buf, key, &no_args)
    }

    /// `f16n_write!(buf, fmt, args..)`: appends the formatted text to `buf`.
    pub fn f16n_write(&self, buf: &mut String, fmt: &str, args: &Vec<FormatArg>) -> (r: Result<(), L10nError>)
        ensures
            match self.spec_f16n(fmt@, args@.map_values(|a: FormatArg| a@)) {
                Ok(t) => r is Ok && final(buf)@ == old(buf)@ + t,
                Err(e) => (r matches Err(x) && x@ == e) && final(buf)@ == old(buf)@,
            },
    {
        match self.f16n(fmt, args) {
            Ok(t) => {
                buf.append(t.as_str());
                Ok(())
            },
            Err(e) => Err(e),
        }
    }

    /// `f16n_writeln!(buf, fmt, args..)`: appends the formatted text and a
    /// newline to `buf`.
    pub fn f16n_writeln(&self, buf: &mut String, fmt: &str, args: &Vec<FormatArg>) -> (r: Result<(), L10nError>)
        ensures
            match self.spec_f16n(fmt@, args@.map_values(|a: FormatArg| a@)) {
                Ok(t) => r is Ok && final(buf)@ == old(buf)@ + t + "\n"@,
                Err(e) => (r matches Err(x) && x@ == e) && final(buf)@ == old(buf)@,
            },
    {
        match self.f16n(fmt, args) {
            Ok(t) => {
                buf.append(t.as_str());
                buf.append("\n");
                Ok(())
            },
            Err(e) => Err(e),
        }
    }

    /// `l10n_assert!(cond, key)`: `None` when `cond` holds, else the message
    /// of the panic, the text of `key`.
    pub fn l10n_assert(&self, cond: bool, key: &str) -> (r: Result<Option<String>, L10nError>)
        ensures
            outcome_view(r) == checked(l10n_compile_fault(self.config@, self.table@, key@), cond, self.spec_l10n(key@)),
    {
        match self.expand(key) {
            Err(e) => return Err(e),
            Ok(_) => {},
        }
        if cond {
            return Ok(None);
        }
        match self.l10n(key) {
            Ok(t) => Ok(Some(t)),
            Err(e) => Err(e),
        }
    }

    /// `l10n_assert_eq!(left, right, key)`: `None` when the two are equal,
    /// else the message of the panic.
    pub fn l10n_assert_eq(&self, left: i64, right: i64, key: &str) -> (r: Result<Option<String>, L10nError>)
        ensures
            outcome_view(r) == checked(l10n_compile_fault(self.config@, self.table@, key@), left == right,
                wrap_message("=="@, self.spec_l10n(key@), left, right)),
    {
        match self.expand(key) {
            Err(e) => return Err(e),
            Ok(_) => {},
        }
        if left == right {
            return Ok(None);
        }
        match self.l10n(key) {
            Ok(t) => Ok(Some(comparison_failure("==", t.as_str(), left, right))),
            Err(e) => Err(e),
        }
    }

    /// `l10n_assert_ne!(left, right, key)`: `None` when the two differ, else
    /// the message of the panic.
    pub fn l10n_assert_ne(&self, left: i64, right: i64, key: &str) -> (r: Result<Option<String>, L10nError>)
        ensures
            outcome_view(r) == checked(l10n_compile_fault(self.config@, self.table@, key@), left != right,
                wrap_message("!="@, self.spec_l10n(key@), left, right)),
    {
        match self.expand(key) {
            Err(e) => return Err(e),
            Ok(_) => {},
        }
        if left != right {
            return Ok(None);
        }
        match self.l10n(key) {
            Ok(t) => Ok(Some(comparison_failure("!=", t.as_str(), left, right))),
            Err(e) => Err(e),
        }
    }

    /// `f16n_assert!(cond, fmt, args..)`: `None` when `cond` holds, else the
    /// message of the panic, the formatted text.
    pub fn f16n_assert(&self, cond: bool, fmt: &str, args: &Vec<FormatArg>) -> (r: Result<Option<String>, L10nError>)
        ensures
            outcome_view(r) == checked(f16n_compile_fault(self.config@, self.table@, fmt@, args@.map_values(|a: FormatArg| a@)),
                cond, self.spec_f16n(fmt@, args@.map_values(|a: FormatArg| a@))),
    {
        match self.expand_formatted(fmt, args) {
            Err(e) => return Err(e),
            Ok(_) => {},
        }
        if cond {
            return Ok(None);
        }
        match self.f16n(fmt, args) {
            Ok(t) => Ok(Some(t)),
            Err(e) => Err(e),
        }
    }

    /// `f16n_assert_eq!(left, right, fmt, args..)`: `None` when the two are
    /// equal, else the message of the panic.
    pub fn f16n_assert_eq(&self, left: i64, right: i64, fmt: &str, args: &Vec<FormatArg>) -> (r: Result<Option<String>, L10nError>)
        ensures
            outcome_view(r) == checked(f16n_compile_fault(self.config@, self.table@, fmt@, args@.map_values(|a: FormatArg| a@)),
                left == right, wrap_message("=="@, self.spec_f16n(fmt@, args@.map_values(|a: FormatArg| a@)), left, right)),
    {
        match self.expand_formatted(fmt, args) {
            Err(e) => return Err(e),
            Ok(_) => {},
        }
        if left == right {
            return Ok(None);
        }
        match self.f16n(fmt, args) {
            Ok(t) => Ok(Some(comparison_failure("==", t.as_str(), left, right))),
            Err(e) => Err(e),
        }
    }

    /// `f16n_assert_ne!(left, right, fmt, args..)`: `None` when the two
    /// differ, else the message of the panic.
    pub fn f16n_assert_ne(&self, left: i64, right: i64, fmt: &str, args: &Vec<FormatArg>) -> (r: Result<Option<String>, L10nError>)
        ensures
            outcome_view(r) == checked(f16n_compile_fault(self.config@, self.table@, fmt@, args@.map_values(|a: FormatArg| a@)),
                left != right, wrap_message("!="@, self.spec_f16n(fmt@, args@.map_values(|a: FormatArg| a@)), left, right)),
    {
        match self.expand_formatted(fmt, args) {
            Err(e) => return Err(e),
            Ok(_) => {},
        }
        if left != right {
            return Ok(None);
        }
        match self.f16n(fmt, args) {
            Ok(t) => Ok(Some(comparison_failure("!=", t.as_str(), left, right))),
            Err(e) => Err(e),
        }
    }

    /// `l10n_debug_assert!(cond, key)`, in a build with debug assertions on.
    pub fn l10n_debug_assert(&self, cond: bool, key: &str) -> (r: Result<Option<String>, L10nError>)
        ensures
            outcome_view(r) == checked(l10n_compile_fault(self.config@, self.table@, key@), cond, self.spec_l10n(key@)),
    {
        self.l10n_assert(cond, key)
    }

    /// `l10n_debug_assert_eq!(left, right, key)`, in a build with debug assertions on.
    pub fn l10n_debug_assert_eq(&self, left: i64, right: i64, key: &str) -> (r: Result<Option<String>, L10nError>)
        ensures
            outcome_view(r) == checked(l10n_compile_fault(self.config@, self.table@, key@), left == right,
                wrap_message("=="@, self.spec_l10n(key@), left, right)),
    {
        self.l10n_assert_eq(left, right, key)
    }

    /// `l10n_debug_assert_ne!(left, right, key)`, in a build with debug assertions on.
    pub fn l10n_debug_assert_ne(&self, left: i64, right: i64, key: &str) -> (r: Result<Option<String>, L10nError>)
        ensures
            outcome_view(r) == checked(l10n_compile_fault(self.config@, self.table@, key@), left != right,
                wrap_message("!="@, self.spec_l10n(key@), left, right)),
    {
        self.l10n_assert_ne(left, right, key)
    }

    /// `f16n_debug_assert!(cond, fmt, args..)`, in a build with debug assertions on.
    pub fn f16n_debug_assert(&self, cond: bool, fmt: &str, args: &Vec<FormatArg>) -> (r: Result<Option<String>, L10nError>)
        ensures
            outcome_view(r) == checked(f16n_compile_fault(self.config@, self.table@, fmt@, args@.map_values(|a: FormatArg| a@)),
                cond, self.spec_f16n(fmt@, args@.map_values(|a: FormatArg| a@))),
    {
        self.f16n_assert(cond, fmt, args)
    }

    /// `f16n_debug_assert_eq!(left, right, fmt, args..)`, in a build with debug assertions on.
    pub fn f16n_debug_assert_eq(&self, left: i64, right: i64, fmt: &str, args: &Vec<FormatArg>) -> (r: Result<Option<String>, L10nError>)
        ensures
            outcome_view(r) == checked(f16n_compile_fault(self.config@, self.table@, fmt@, args@.map_values(|a: FormatArg| a@)),
                left == right, wrap_message("=="@, self.spec_f16n(fmt@, args@.map_values(|a: FormatArg| a@)), left, right)),
    {
        self.f16n_assert_eq(left, right, fmt, args)
    }

    /// `f16n_debug_assert_ne!(left, right, fmt, args..)`, in a build with debug assertions on.
    pub fn f16n_debug_assert_ne(&self, left: i64, right: i64, fmt: &str, args: &Vec<FormatArg>) -> (r: Result<Option<String>, L10nError>)
        ensures
            outcome_view(r) == checked(f16n_compile_fault(self.config@, self.table@, fmt@, args@.map_values(|a: FormatArg| a@)),
                left != right, wrap_message("!="@, self.spec_f16n(fmt@, args@.map_values(|a: FormatArg| a@)), left, right)),
    {
        self.f16n_assert_ne(left, right, fmt, args)
    }

    /// `l10n_debug_assert!(cond, key)`, `l10n_debug_assert_eq!(left, right, key)`
    /// and `l10n_debug_assert_ne!(left, right, key)` in a build with debug
    /// assertions off: the expansion is still made, so its compile error
    /// still stops the build, but the condition is not evaluated and nothing
    /// panics.
    pub fn l10n_debug_assert_release(&self, key: &str) -> (r: Result<(), L10nError>)
        ensures
            match r {
                Ok(()) => l10n_compile_fault(self.config@, self.table@, key@) is None,
                Err(e) => l10n_compile_fault(self.config@, self.table@, key@) == Some(e@),
            },
    {
        match self.expand(key) {
            Err(e) => Err(e),
            Ok(_) => Ok(()),
        }
    }

    /// `f16n_debug_assert!(cond, fmt, args..)` and its `_eq` and `_ne` forms
    /// in a build with debug assertions off: the expansion is still made and
    /// every language's template checked against the arguments, so a compile
    /// error still stops the build, but the condition is not evaluated and
    /// nothing panics.
    pub fn f16n_debug_assert_release(&self, fmt: &str, args: &Vec<FormatArg>) -> (r: Result<(), L10nError>)
        ensures
            match r {
                Ok(()) => f16n_compile_fault(self.config@, self.table@, fmt@, args@.map_values(|a: FormatArg| a@)) is None,
                Err(e) => f16n_compile_fault(self.config@, self.table@, fmt@, args@.map_values(|a: FormatArg| a@)) == Some(e@),
            },
    {
        match self.expand_formatted(fmt, args) {
            Err(e) => Err(e),
            Ok(_) => Ok(()),
        }
    }

    /// `debug_print_metadata!()`: the lines it prints about the metadata and
    /// the loaded translations, after the manifest directory and the calling file.
    pub fn debug_print_metadata(&self) -> (lines: Vec<String>)
        ensures
            lines@.map_values(|l: String| l@) == metadata_report(self.config@, self.table@),
    {
        let mut lines: Vec<String> = Vec::new();
        lines.push(text_line("static-l10n metadata:"));
        let mut path = String::new();
        path.append("  path: ");
        path.append(self.config.path.as_str());
        lines.push(path);
        lines.push(text_line("  langs:"));
        let ghost head = lines@.map_values(|l: String| l@);
        assert(head =~= seq!["static-l10n metadata:"@, "  path: "@ + self.config@.path, "  langs:"@]);
        let langs = &self.config.langs;
        let ghost lv = self.config@.langs;
        let mut i: usize = 0;
        while i < langs.len()
            invariant
                i <= langs@.len(),
                lv == langs@.map_values(|l: crate::config::LangConfig| l@),
                lines@.map_values(|l: String| l@) == head + lv.take(i as int).map_values(|l: LangView| lang_line(l)),
            decreases langs@.len() - i,
        {
            let mut line = String::new();
            line.append("    - name: ");
            line.append(langs[i].name.as_str());
            match &langs[i].fallback {
                Some(f) => {
                    line.append(", fallback: ");
                    line.append(f.as_str());
                },
                None => {},
            }
            assert(line@ == lang_line(lv[i as int]));
            let ghost before = lines@.map_values(|l: String| l@);
            lines.push(line);
            assert(lines@.map_values(|l: String| l@) =~= before.push(lang_line(lv[i as int])));
            assert(lv.take(i as int).push(lv[i as int]).map_values(|l: LangView| lang_line(l))
                =~= lv.take(i as int).map_values(|l: LangView| lang_line(l)).push(lang_line(lv[i as int])));
            assert(lv.take(i + 1) =~= lv.take(i as int).push(lv[i as int]));
            assert(lines@.map_values(|l: String| l@) =~= head + lv.take(i + 1).map_values(|l: LangView| lang_line(l)));
            i = i + 1;
        }
        assert(lv.take(langs@.len() as int) =~= lv);
        lines.push(text_line("Loaded translations:"));
        let ghost mid = lines@.map_values(|l: String| l@);
        assert(mid =~= head + lv.map_values(|l: LangView| lang_line(l)) + seq!["Loaded translations:"@]);
        let ghost rv = self.table@;
        let mut k: usize = 0;
        while k < self.table.len()
            invariant
                k <= rv.len(),
                rv == self.table@,
                lines@.map_values(|l: String| l@) == mid + rv.take(k as int).map_values(|r: (Seq<char>, Seq<char>, Seq<char>)| row_line(r)),
            decreases rv.len() - k,
        {
            let row = self.table.row(k);
            let mut line = String::new();
            line.append("  - key: ");
            line.append(row.key.as_str());
            line.append(", lang: ");
            line.append(row.lang.as_str());
            line.append(", translation: ");
            line.append(row.text.as_str());
            assert(line@ == row_line(rv[k as int]));
            let ghost before = lines@.map_values(|l: String| l@);
            lines.push(line);
            assert(lines@.map_values(|l: String| l@) =~= before.push(row_line(rv[k as int])));
            assert(rv.take(k as int).push(rv[k as int]).map_values(|r: (Seq<char>, Seq<char>, Seq<char>)| row_line(r))
                =~= rv.take(k as int).map_values(|r: (Seq<char>, Seq<char>, Seq<char>)| row_line(r)).push(row_line(rv[k as int])));
            assert(rv.take(k + 1) =~= rv.take(k as int).push(rv[k as int]));
            assert(lines@.map_values(|l: String| l@) =~= mid + rv.take(k + 1).map_values(|r: (Seq<char>, Seq<char>, Seq<char>)| row_line(r)));
            k = k + 1;
        }
        assert(rv.take(rv.len() as int) =~= rv);
        lines
    }
}

} // verus!
