use vstd::prelude::*;
use crate::toml_model::str_eq;

verus! {

/// A string argument handed to a formatted message: `name = value`, or a
/// positional `value`.
pub struct FormatArg {
    pub name: Option<String>,
    pub value: String,
}

impl View for FormatArg {
    type V = (Option<Seq<char>>, Seq<char>);

    open spec fn view(&self) -> (Option<Seq<char>>, Seq<char>) {
        (match self.name {
            Some(n) => Some(n@),
            None => None,
        }, self.value@)
    }
}

/// Why a template and its arguments do not make a message.
pub enum FormatError {
    /// A positional argument follows a named one.
    PositionalAfterNamed,
    /// Two arguments have the same name.
    DuplicateName(String),
    /// A `{` that neither starts `{{` nor is closed by a `}`.
    UnmatchedOpen,
    /// A `}` that neither ends a placeholder nor starts `}}`.
    UnmatchedClose,
    /// A placeholder whose format spec (after `:`) is not made of fill,
    /// alignment, flags, width, precision and the type `?`.
    UnsupportedSpec,
    /// A placeholder that refers to an argument position beyond the arguments.
    IndexOutOfRange,
    /// A placeholder naming no argument.
    UnknownName(String),
    /// An argument that no placeholder uses (its position).
    UnusedArgument(usize),
}

/// A formatting failure, by the views of its parts.
pub enum FormatFault {
    PositionalAfterNamed,
    DuplicateName(Seq<char>),
    UnmatchedOpen,
    UnmatchedClose,
    UnsupportedSpec,
    IndexOutOfRange,
    UnknownName(Seq<char>),
    UnusedArgument(int),
}

impl View for FormatError {
    type V = FormatFault;

    open spec fn view(&self) -> FormatFault {
        match self {
            FormatError::PositionalAfterNamed => FormatFault::PositionalAfterNamed,
            FormatError::DuplicateName(n) => FormatFault::DuplicateName(n@),
            FormatError::UnmatchedOpen => FormatFault::UnmatchedOpen,
            FormatError::UnmatchedClose => FormatFault::UnmatchedClose,
            FormatError::UnsupportedSpec => FormatFault::UnsupportedSpec,
            FormatError::IndexOutOfRange => FormatFault::IndexOutOfRange,
            FormatError::UnknownName(n) => FormatFault::UnknownName(n@),
            FormatError::UnusedArgument(k) => FormatFault::UnusedArgument(*k as int),
        }
    }
}

/// The first fault in the argument list among its first `n` arguments: a
/// positional argument after a named one, or a name given twice.
pub open spec fn args_fault(args: Seq<(Option<Seq<char>>, Seq<char>)>, n: int) -> Option<FormatFault>
    decreases n,
{
    if n <= 0 {
        None
    } else {
        match args_fault(args, n - 1) {
            Some(f) => Some(f),
            None => match args[n - 1].0 {
                None => if exists|k: int| 0 <= k < n - 1 && (#[trigger] args[k].0) is Some {
                    Some(FormatFault::PositionalAfterNamed)
                } else {
                    None
                },
                Some(name) => if exists|k: int| 0 <= k < n - 1 && #[trigger] args[k].0 == Some(name) {
                    Some(FormatFault::DuplicateName(name))
                } else {
                    None
                },
            },
        }
    }
}

/// The position of the first argument named `name`, searching from `k`.
pub open spec fn named_index(args: Seq<(Option<Seq<char>>, Seq<char>)>, name: Seq<char>, k: int) -> Option<int>
    decreases args.len() - k,
{
    if k < 0 || k >= args.len() {
        None
    } else if args[k].0 == Some(name) {
        Some(k)
    } else {
        named_index(args, name, k + 1)
    }
}

/// The position of the first `}` in `t` at or after `k`.
pub open spec fn close_from(t: Seq<char>, k: int) -> Option<int>
    decreases t.len() - k,
{
    if k < 0 || k >= t.len() {
        None
    } else if t[k] == '}' {
        Some(k)
    } else {
        close_from(t, k + 1)
    }
}

/// `c` is an ASCII decimal digit.
pub open spec fn is_digit(c: char) -> bool {
    '0' <= c && c <= '9'
}

/// `c` is a non-empty run of decimal digits.
pub open spec fn all_digits(c: Seq<char>) -> bool {
    c.len() > 0 && forall|k: int| 0 <= k < c.len() ==> is_digit(#[trigger] c[k])
}

/// The number that a run of decimal digits spells.
pub open spec fn digits_value(c: Seq<char>) -> nat
    decreases c.len(),
{
    if c.len() == 0 {
        0
    } else {
        digits_value(c.drop_last()) * 10 + ((c.last() as int) - ('0' as int)) as nat
    }
}

/// The argument that the argument part `content` of a placeholder (before
/// any `:`) refers to, and the next implicit position: `{}` takes the next
/// implicit position, `{i}` position `i`, `{name}` the argument so named.
pub open spec fn placeholder_target(
    content: Seq<char>,
    counter: nat,
    args: Seq<(Option<Seq<char>>, Seq<char>)>,
) -> Result<(int, nat), FormatFault> {
    if content.len() == 0 {
        if counter < args.len() {
            Ok((counter as int, counter + 1))
        } else {
            Err(FormatFault::IndexOutOfRange)
        }
    } else if all_digits(content) {
        if digits_value(content) < args.len() {
            Ok((digits_value(content) as int, counter))
        } else {
            Err(FormatFault::IndexOutOfRange)
        }
    } else {
        match named_index(args, content, 0) {
            Some(k) => Ok((k, counter)),
            None => Err(FormatFault::UnknownName(content)),
        }
    }
}

/// How a padded argument is placed in its width.
pub enum Align {
    Left,
    Center,
    Right,
}

/// A format spec that this formatter takes,
/// `[[fill]align][sign]['#']['0'][width]['.' precision]['?']`, by what it
/// changes for a string argument.
pub struct FmtSpec {
    pub fill: char,
    pub align: Option<Align>,
    pub width: Option<nat>,
    pub precision: Option<nat>,
    /// `?`: the argument is shown by its `Debug` text.
    pub debug: bool,
}

/// The spec of a placeholder without one.
pub open spec fn no_spec() -> FmtSpec {
    FmtSpec { fill: ' ', align: None, width: None, precision: None, debug: false }
}

pub open spec fn is_align(c: char) -> bool {
    c == '<' || c == '^' || c == '>'
}

pub open spec fn align_of(c: char) -> Align {
    if c == '<' {
        Align::Left
    } else if c == '^' {
        Align::Center
    } else {
        Align::Right
    }
}

/// The number of decimal digits at the front of `s`.
pub open spec fn digit_run(s: Seq<char>) -> nat
    decreases s.len(),
{
    if s.len() > 0 && is_digit(s[0]) {
        1 + digit_run(s.drop_first())
    } else {
        0
    }
}

/// The largest width or precision a spec may give.
pub open spec fn count_limit() -> nat {
    65535
}

/// What is left of `s` after the flags that a string argument takes and
/// ignores: a sign (`+` or `-`), then `#`, then `0`, each at most once.
pub open spec fn drop_flags(s: Seq<char>) -> Seq<char> {
    let a = if s.len() > 0 && (s[0] == '+' || s[0] == '-') { s.skip(1) } else { s };
    let b = if a.len() > 0 && a[0] == '#' { a.skip(1) } else { a };
    if b.len() > 0 && b[0] == '0' { b.skip(1) } else { b }
}

/// The layout that a spec's text (without its type) gives, if this formatter
/// takes it: an optional fill character and alignment (`<`, `^`, `>`), the
/// flags of `drop_flags`, an optional width, an optional `.` and precision,
/// nothing else (no `$` or `*` counts).
pub open spec fn parse_layout(sp: Seq<char>) -> Option<FmtSpec> {
    let (fill, align, r0) = if sp.len() >= 2 && is_align(sp[1]) {
        (sp[0], Some(align_of(sp[1])), sp.skip(2))
    } else if sp.len() >= 1 && is_align(sp[0]) {
        (' ', Some(align_of(sp[0])), sp.skip(1))
    } else {
        (' ', None::<Align>, sp)
    };
    let r1 = drop_flags(r0);
    let wl = digit_run(r1);
    let r2 = r1.skip(wl as int);
    let width = if wl == 0 { None::<nat> } else { Some(digits_value(r1.take(wl as int))) };
    let precision = if r2.len() > 0 && r2[0] == '.' && digit_run(r2.skip(1)) > 0 {
        Some(digits_value(r2.skip(1)))
    } else {
        None::<nat>
    };
    if width matches Some(w) && w > count_limit() {
        None
    } else if r2.len() == 0 {
        Some(FmtSpec { fill, align, width, precision: None, debug: false })
    } else if r2[0] == '.' && digit_run(r2.skip(1)) > 0 && digit_run(r2.skip(1)) == r2.len() - 1
        && digits_value(r2.skip(1)) <= count_limit() {
        Some(FmtSpec { fill, align, width, precision, debug: false })
    } else {
        None
    }
}

/// The spec that the text after a placeholder's `:` gives, if this
/// formatter takes it: a layout as `parse_layout` reads it, then no type or
/// the type `?`.
pub open spec fn parse_spec(sp: Seq<char>) -> Option<FmtSpec> {
    let debug = sp.len() > 0 && sp.last() == '?';
    let body = if debug { sp.drop_last() } else { sp };
    match parse_layout(body) {
        Some(f) => Some(FmtSpec { fill: f.fill, align: f.align, width: f.width, precision: f.precision, debug }),
        None => None,
    }
}

/// `n` copies of `c`.
pub open spec fn repeat(c: char, n: nat) -> Seq<char> {
    Seq::new(n, |i: int| c)
}

/// A string argument shown under the layout of spec `f`, as
/// `Formatter::pad` shows it: cut to `precision` characters, then filled out
/// to `width` characters, on the right by default.
pub open spec fn apply_spec(v: Seq<char>, f: FmtSpec) -> Seq<char> {
    let cut = match f.precision {
        Some(p) => if v.len() > p { v.take(p as int) } else { v },
        None => v,
    };
    match f.width {
        Some(w) => if cut.len() >= w {
            cut
        } else {
            let n = (w - cut.len()) as nat;
            match f.align {
                Some(Align::Right) => repeat(f.fill, n) + cut,
                Some(Align::Center) => repeat(f.fill, n / 2) + cut + repeat(f.fill, (n - n / 2) as nat),
                _ => cut + repeat(f.fill, n),
            }
        },
        None => cut,
    }
}

/// The position of the first `:` in `c` at or after `k`.
pub open spec fn colon_from(c: Seq<char>, k: int) -> Option<int>
    decreases c.len() - k,
{
    if k < 0 || k >= c.len() {
        None
    } else if c[k] == ':' {
        Some(k)
    } else {
        colon_from(c, k + 1)
    }
}

/// What a placeholder with text `content` (between its braces) yields: the
/// text of the argument it refers to, shown under its spec (under `?`, the
/// argument's `Debug` text from `debug`, which a string's `Debug` writes
/// without fill, width or precision), with the argument's position and the
/// next implicit position.
pub open spec fn placeholder(
    content: Seq<char>,
    counter: nat,
    args: Seq<(Option<Seq<char>>, Seq<char>)>,
    debug: Seq<Seq<char>>,
) -> Result<(Seq<char>, int, nat), FormatFault> {
    let (arg, spec) = match colon_from(content, 0) {
        Some(c) => (content.take(c), parse_spec(content.skip(c + 1))),
        None => (content, Some(no_spec())),
    };
    match spec {
        None => Err(FormatFault::UnsupportedSpec),
        Some(f) => match placeholder_target(arg, counter, args) {
            Err(e) => Err(e),
            Ok((k, next)) => Ok((if f.debug { debug[k] } else { apply_spec(args[k].1, f) }, k, next)),
        },
    }
}

/// Puts `prefix` before the text of a result and adds `used` to its used
/// argument positions.
pub open spec fn lift(
    prefix: Seq<char>,
    used: Set<int>,
    r: Result<(Seq<char>, Set<int>), FormatFault>,
) -> Result<(Seq<char>, Set<int>), FormatFault> {
    match r {
        Ok((o, u)) => Ok((prefix + o, used.union(u))),
        Err(e) => Err(e),
    }
}

/// The text that `t` from position `i` on yields, with the argument
/// positions its placeholders use; `counter` is the next implicit position,
/// `debug` the arguments' `Debug` texts.
pub open spec fn scan(
    t: Seq<char>,
    i: int,
    counter: nat,
    args: Seq<(Option<Seq<char>>, Seq<char>)>,
    debug: Seq<Seq<char>>,
) -> Result<(Seq<char>, Set<int>), FormatFault>
    decreases t.len() - i,
{
    if i < 0 || i >= t.len() {
        Ok((Seq::empty(), Set::empty()))
    } else if t[i] == '{' {
        if i + 1 < t.len() && t[i + 1] == '{' {
            lift(seq!['{'], Set::empty(), scan(t, i + 2, counter, args, debug))
        } else {
            match close_from(t, i + 1) {
                None => Err(FormatFault::UnmatchedOpen),
                Some(j) => {
                    proof { lemma_close_from(t, i + 1); }
                    match placeholder(t.subrange(i + 1, j), counter, args, debug) {
                        Err(e) => Err(e),
                        Ok((text, k, next)) => lift(text, set![k], scan(t, j + 1, next, args, debug)),
                    }
                },
            }
        }
    } else if t[i] == '}' {
        if i + 1 < t.len() && t[i + 1] == '}' {
            lift(seq!['}'], Set::empty(), scan(t, i + 2, counter, args, debug))
        } else {
            Err(FormatFault::UnmatchedClose)
        }
    } else {
        lift(seq![t[i]], Set::empty(), scan(t, i + 1, counter, args, debug))
    }
}

/// The first of the first `n` argument positions that `used` lacks.
pub open spec fn first_unused(used: Set<int>, n: int) -> Option<int>
    decreases n,
{
    if n <= 0 {
        None
    } else {
        match first_unused(used, n - 1) {
            Some(k) => Some(k),
            None => if used.contains(n - 1) {
                None
            } else {
                Some(n - 1)
            },
        }
    }
}

/// The message that template `t` makes with `args`, whose `Debug` texts
/// are `debug`, as `format!` makes it: `{{` and `}}` stand for braces, each
/// placeholder for the text of its argument; every argument must be used.
pub open spec fn format_spec_with(
    t: Seq<char>,
    args: Seq<(Option<Seq<char>>, Seq<char>)>,
    debug: Seq<Seq<char>>,
) -> Result<Seq<char>, FormatFault> {
    match args_fault(args, args.len() as int) {
        Some(f) => Err(f),
        None => match scan(t, 0, 0, args, debug) {
            Err(e) => Err(e),
            Ok((o, u)) => match first_unused(u, args.len() as int) {
                Some(k) => Err(FormatFault::UnusedArgument(k)),
                None => Ok(o),
            },
        },
    }
}

/// What `<str as Debug>::fmt` writes for a string with characters `s`.
pub uninterp spec fn str_debug(s: Seq<char>) -> Seq<char>;

/// The `Debug` texts of string arguments.
pub open spec fn debug_views(args: Seq<(Option<Seq<char>>, Seq<char>)>) -> Seq<Seq<char>> {
    args.map_values(|a: (Option<Seq<char>>, Seq<char>)| str_debug(a.1))
}

/// The message that template `t` makes with the string arguments `args`,
/// as `format!` makes it.
pub open spec fn format_spec(t: Seq<char>, args: Seq<(Option<Seq<char>>, Seq<char>)>) -> Result<Seq<char>, FormatFault> {
    format_spec_with(t, args, debug_views(args))
}

/// `<str as core::fmt::Debug>::fmt`, by `format!("{:?}", ..)`: the string
/// in double quotes, its quotes, backslashes and unprintable characters
/// escaped. Claimed: the text depends on the string's characters alone
/// (`str_debug`); which characters are escaped is left unsaid, since it
/// rests on the Unicode tables of the standard library.
#[verifier::external_body]
fn debug_text(s: &str) -> (r: String)
    ensures
        r@ == str_debug(s@),
{
    format!("{:?}", s)
}

/// Where `close_from` stops.
pub proof fn lemma_close_from(t: Seq<char>, k: int)
    ensures
        match close_from(t, k) {
            Some(j) => k <= j < t.len() && 0 <= k && t[j] == '}'
                && forall|m: int| k <= m < j ==> t[m] != '}',
            None => forall|m: int| 0 <= k <= m < t.len() ==> t[m] != '}',
        },
    decreases t.len() - k,
{
    if 0 <= k < t.len() && t[k] != '}' {
        lemma_close_from(t, k + 1);
    }
}

/// The set of positions marked in `used`.
pub open spec fn used_set(used: Seq<bool>) -> Set<int> {
    Set::new(|k: int| 0 <= k < used.len() && used[k])
}

/// Checks the argument list: no positional argument after a named one, no
/// name given twice.
#[verifier::loop_isolation(false)]
fn check_args(args: &Vec<FormatArg>) -> (r: Result<(), FormatError>)
    ensures
        match r {
            Ok(()) => args_fault(args@.map_values(|a: FormatArg| a@), args@.len() as int) is None,
            Err(e) => args_fault(args@.map_values(|a: FormatArg| a@), args@.len() as int) == Some(e@),
        },
{
    let ghost av = args@.map_values(|a: FormatArg| a@);
    let mut j: usize = 0;
    while j < args.len()
        invariant
            j <= args@.len(),
            av == args@.map_values(|a: FormatArg| a@),
            args_fault(av, j as int) is None,
        decreases args@.len() - j,
    {
        match &args[j].name {
            None => {
                let mut k: usize = 0;
                while k < j
                    invariant
                        k <= j < args@.len(),
                        av == args@.map_values(|a: FormatArg| a@),
                        forall|m: int| 0 <= m < k ==> (#[trigger] av[m].0) is None,
                    decreases j - k,
                {
                    if args[k].name.is_some() {
                        assert(av[k as int].0 is Some);
                        proof { lemma_args_fault_extends(av, j as int + 1); }
                        return Err(FormatError::PositionalAfterNamed);
                    }
                    k = k + 1;
                }
            },
            Some(name) => {
                let mut k: usize = 0;
                while k < j
                    invariant
                        k <= j < args@.len(),
                        av == args@.map_values(|a: FormatArg| a@),
                        av[j as int].0 == Some(name@),
                        forall|m: int| 0 <= m < k ==> #[trigger] av[m].0 != Some(name@),
                    decreases j - k,
                {
                    match &args[k].name {
                        Some(other) => {
                            if str_eq(other.as_str(), name.as_str()) {
                                assert(av[k as int].0 == Some(name@));
                                proof { lemma_args_fault_extends(av, j as int + 1); }
                                return Err(FormatError::DuplicateName(name.clone()));
                            }
                        },
                        None => {},
                    }
                    k = k + 1;
                }
            },
        }
        j = j + 1;
    }
    Ok(())
}

/// A fault among the first `k` arguments is the first fault among all.
proof fn lemma_args_fault_extends(args: Seq<(Option<Seq<char>>, Seq<char>)>, k: int)
    requires
        0 <= k <= args.len(),
        args_fault(args, k) is Some,
    ensures
        args_fault(args, args.len() as int) == args_fault(args, k),
    decreases args.len() - k,
{
    if k < args.len() {
        lemma_args_fault_extends(args, k + 1);
    }
}

/// The position of the first `}` in `t` at or after `k`.
fn find_close(t: &str, k: usize) -> (r: Option<usize>)
    ensures
        match r {
            Some(j) => close_from(t@, k as int) == Some(j as int),
            None => close_from(t@, k as int) is None,
        },
{
    let n = t.unicode_len();
    let mut m: usize = k;
    while m < n
        invariant
            n == t@.len(),
            k <= m,
            close_from(t@, k as int) == close_from(t@, m as int),
        decreases n - m,
    {
        if t.get_char(m) == '}' {
            return Some(m);
        }
        m = m + 1;
    }
    None
}

/// The position of the first argument named `name`.
fn named_index_exec(args: &Vec<FormatArg>, name: &str) -> (r: Option<usize>)
    ensures
        match r {
            Some(k) => named_index(args@.map_values(|a: FormatArg| a@), name@, 0) == Some(k as int)
                && k < args@.len(),
            None => named_index(args@.map_values(|a: FormatArg| a@), name@, 0) is None,
        },
{
    let ghost av = args@.map_values(|a: FormatArg| a@);
    let mut k: usize = 0;
    while k < args.len()
        invariant
            k <= args@.len(),
            av == args@.map_values(|a: FormatArg| a@),
            named_index(av, name@, 0) == named_index(av, name@, k as int),
        decreases args@.len() - k,
    {
        match &args[k].name {
            Some(n) => {
                if str_eq(n.as_str(), name) {
                    return Some(k);
                }
            },
            None => {},
        }
        k = k + 1;
    }
    None
}

/// The argument position that the argument part `content` of a placeholder
/// refers to, and the next implicit position.
#[verifier::loop_isolation(false)]
fn placeholder_target_exec(content: &str, counter: usize, args: &Vec<FormatArg>) -> (r: Result<(usize, usize), FormatError>)
    requires
        counter <= args@.len(),
    ensures
        match r {
            Ok((k, next)) => placeholder_target(content@, counter as nat, args@.map_values(|a: FormatArg| a@))
                == Ok::<(int, nat), FormatFault>((k as int, next as nat)) && next <= args@.len() && k < args@.len(),
            Err(e) => placeholder_target(content@, counter as nat, args@.map_values(|a: FormatArg| a@)) == Err::<(int, nat), FormatFault>(e@),
        },
{
    let ghost av = args@.map_values(|a: FormatArg| a@);
    let c = content;
    let n = c.unicode_len();
    let mut m: usize = 0;
    let mut digits = true;
    let mut big = false;
    let mut value: u128 = 0;
    let limit = args.len();
    while m < n
        invariant
            n == c@.len(),
            m <= n,
            limit == args@.len(),
            digits == (forall|q: int| 0 <= q < m ==> is_digit(#[trigger] c@[q])),
            digits && !big ==> value == digits_value(c@.take(m as int)) && value <= limit,
            digits && big ==> digits_value(c@.take(m as int)) > limit,
        decreases n - m,
    {
        let ch = c.get_char(m);
        assert(c@.take(m + 1).drop_last() =~= c@.take(m as int));
        if digits {
            if '0' <= ch && ch <= '9' {
                let d = (ch as u32) - ('0' as u32);
                if !big {
                    let next: u128 = value * 10 + (d as u128);
                    if next > (limit as u128) {
                        big = true;
                    } else {
                        value = next;
                    }
                }
            } else {
                digits = false;
                assert(!is_digit(c@[m as int]));
            }
        }
        m = m + 1;
    }
    assert(c@.take(n as int) =~= c@);
    if n == 0 {
        if counter < args.len() {
            return Ok((counter, counter + 1));
        } else {
            return Err(FormatError::IndexOutOfRange);
        }
    }
    if digits {
        assert(all_digits(c@));
        if big {
            return Err(FormatError::IndexOutOfRange);
        } else if (value as usize) < args.len() {
            return Ok((value as usize, counter));
        } else {
            return Err(FormatError::IndexOutOfRange);
        }
    }
    assert(!all_digits(c@));
    match named_index_exec(args, c) {
        Some(k) => Ok((k, counter)),
        None => Err(FormatError::UnknownName(c.to_string())),
    }
}

/// A width or precision as the formatter holds it, by its value.
pub open spec fn count_view(c: Option<usize>) -> Option<nat> {
    match c {
        Some(v) => Some(v as nat),
        None => None,
    }
}

/// `digit_run` counts the digits that open `s`, one at a time.
pub(crate) proof fn lemma_digit_run(s: Seq<char>, m: int)
    requires
        0 <= m <= s.len(),
        forall|q: int| 0 <= q < m ==> is_digit(#[trigger] s[q]),
    ensures
        digit_run(s) == m + digit_run(s.skip(m)),
    decreases m,
{
    if m > 0 {
        assert(s.drop_first().skip(m - 1) =~= s.skip(m));
        assert forall|q: int| 0 <= q < m - 1 implies is_digit(#[trigger] s.drop_first()[q]) by {
            assert(s.drop_first()[q] == s[q + 1]);
        }
        lemma_digit_run(s.drop_first(), m - 1);
        assert(is_digit(s[0]));
    } else {
        assert(s.skip(0) =~= s);
    }
}

/// The length of the run of digits that opens `s`, and the number it
/// spells if that is at most `count_limit()`.
fn digit_prefix(s: &str) -> (r: (usize, Option<usize>))
    ensures
        r.0 == digit_run(s@),
        r.0 <= s@.len(),
        forall|q: int| 0 <= q < r.0 ==> is_digit(#[trigger] s@[q]),
        match r.1 {
            Some(v) => v == digits_value(s@.take(r.0 as int)) && v <= count_limit(),
            None => digits_value(s@.take(r.0 as int)) > count_limit(),
        },
{
    let n = s.unicode_len();
    let mut m: usize = 0;
    let mut value: usize = 0;
    let mut big = false;
    while m < n && '0' <= s.get_char(m) && s.get_char(m) <= '9'
        invariant
            n == s@.len(),
            m <= n,
            forall|q: int| 0 <= q < m ==> is_digit(#[trigger] s@[q]),
            !big ==> value == digits_value(s@.take(m as int)) && value <= count_limit(),
            big ==> digits_value(s@.take(m as int)) > count_limit(),
        decreases n - m,
    {
        let ch = s.get_char(m);
        let d = (ch as u32) - ('0' as u32);
        assert(s@.take(m + 1).drop_last() =~= s@.take(m as int));
        assert(s@.take(m + 1).last() == ch);
        if !big {
            let next: usize = value * 10 + (d as usize);
            if next > 65535 {
                big = true;
            } else {
                value = next;
            }
        }
        m = m + 1;
    }
    proof {
        lemma_digit_run(s@, m as int);
        if m < n {
            assert(s@.skip(m as int)[0] == s@[m as int]);
        }
    }
    if big {
        (m, None)
    } else {
        (m, Some(value))
    }
}

/// The position of the first `:` in `c`.
fn find_colon(c: &str) -> (r: Option<usize>)
    ensures
        match r {
            Some(j) => colon_from(c@, 0) == Some(j as int) && j < c@.len(),
            None => colon_from(c@, 0) is None,
        },
{
    let n = c.unicode_len();
    let mut m: usize = 0;
    while m < n
        invariant
            n == c@.len(),
            colon_from(c@, 0) == colon_from(c@, m as int),
        decreases n - m,
    {
        if c.get_char(m) == ':' {
            return Some(m);
        }
        m = m + 1;
    }
    None
}

fn align_char(c: char) -> (r: Option<Align>)
    ensures
        match r {
            Some(a) => is_align(c) && a == align_of(c),
            None => !is_align(c),
        },
{
    if c == '<' {
        Some(Align::Left)
    } else if c == '^' {
        Some(Align::Center)
    } else if c == '>' {
        Some(Align::Right)
    } else {
        None
    }
}

/// Drops the flags that `drop_flags` drops.
fn drop_flags_exec<'a>(s: &'a str) -> (r: &'a str)
    ensures
        r@ == drop_flags(s@),
{
    let n = s.unicode_len();
    let a = if n > 0 && (s.get_char(0) == '+' || s.get_char(0) == '-') { s.substring_char(1, n) } else { s };
    let an = a.unicode_len();
    let b = if an > 0 && a.get_char(0) == '#' { a.substring_char(1, an) } else { a };
    let bn = b.unicode_len();
    let c = if bn > 0 && b.get_char(0) == '0' { b.substring_char(1, bn) } else { b };
    assert(n > 0 ==> s@.subrange(1, n as int) =~= s@.skip(1));
    assert(an > 0 ==> a@.subrange(1, an as int) =~= a@.skip(1));
    assert(bn > 0 ==> b@.subrange(1, bn as int) =~= b@.skip(1));
    c
}

/// Reads a spec's layout as `parse_layout` does: the fill (a one-character
/// text), the alignment, the width and the precision.
#[verifier::loop_isolation(false)]
fn parse_layout_exec<'a>(sp: &'a str) -> (r: Option<(&'a str, Option<Align>, Option<usize>, Option<usize>)>)
    ensures
        match r {
            Some((fill, align, width, precision)) => fill@.len() == 1 && parse_layout(sp@) == Some(
                FmtSpec { fill: fill@[0], align, width: count_view(width), precision: count_view(precision), debug: false },
            ),
            None => parse_layout(sp@) is None,
        },
{
    let n = sp.unicode_len();
    let space = " ";
    proof { reveal_strlit(" "); }
    let mut fill: &str = space;
    let mut align: Option<Align> = None;
    let mut start: usize = 0;
    if n >= 2 {
        match align_char(sp.get_char(1)) {
            Some(a) => {
                fill = sp.substring_char(0, 1);
                align = Some(a);
                start = 2;
            },
            None => {},
        }
    }
    if start == 0 && n >= 1 {
        match align_char(sp.get_char(0)) {
            Some(a) => {
                align = Some(a);
                start = 1;
            },
            None => {},
        }
    }
    let ghost fill_c: char = if sp@.len() >= 2 && is_align(sp@[1]) { sp@[0] } else { ' ' };
    let ghost r0s: Seq<char> = if sp@.len() >= 2 && is_align(sp@[1]) {
        sp@.skip(2)
    } else if sp@.len() >= 1 && is_align(sp@[0]) {
        sp@.skip(1)
    } else {
        sp@
    };
    assert(fill@.len() == 1 && fill@[0] == fill_c);
    let r0 = sp.substring_char(start, n);
    assert(r0@ =~= r0s);
    let r1 = drop_flags_exec(r0);
    let (wl, wv) = digit_prefix(r1);
    let r1n = r1.unicode_len();
    let r2 = r1.substring_char(wl, r1n);
    assert(r2@ =~= r1@.skip(wl as int));
    assert(r1@.take(wl as int) =~= r1@.take(wl as int));
    let width: Option<usize> = if wl == 0 {
        None
    } else {
        match wv {
            None => return None,
            Some(w) => Some(w),
        }
    };
    let r2n = r2.unicode_len();
    if r2n == 0 {
        return Some((fill, align, width, None));
    }
    if r2.get_char(0) != '.' {
        return None;
    }
    let r3 = r2.substring_char(1, r2n);
    assert(r3@ =~= r2@.skip(1));
    let (pl, pv) = digit_prefix(r3);
    if pl == 0 || pl != r2n - 1 {
        return None;
    }
    assert(r3@.take(pl as int) =~= r3@);
    match pv {
        None => None,
        Some(p) => Some((fill, align, width, Some(p))),
    }
}

/// Reads the text after a placeholder's `:` as `parse_spec` does: the
/// layout, and whether the type is `?`.
fn parse_spec_exec<'a>(sp: &'a str) -> (r: Option<(&'a str, Option<Align>, Option<usize>, Option<usize>, bool)>)
    ensures
        match r {
            Some((fill, align, width, precision, debug)) => fill@.len() == 1 && parse_spec(sp@) == Some(
                FmtSpec { fill: fill@[0], align, width: count_view(width), precision: count_view(precision), debug },
            ),
            None => parse_spec(sp@) is None,
        },
{
    let n = sp.unicode_len();
    let debug = n > 0 && sp.get_char(n - 1) == '?';
    let body = if debug { sp.substring_char(0, n - 1) } else { sp };
    assert(debug ==> body@ =~= sp@.drop_last());
    match parse_layout_exec(body) {
        None => None,
        Some((fill, align, width, precision)) => Some((fill, align, width, precision, debug)),
    }
}

/// `n` copies of `fill` (a one-character text) after `out`.
fn push_fill(out: &mut String, fill: &str, n: usize)
    requires
        fill@.len() == 1,
    ensures
        final(out)@ == old(out)@ + repeat(fill@[0], n as nat),
{
    let ghost start = out@;
    let mut i: usize = 0;
    while i < n
        invariant
            i <= n,
            fill@.len() == 1,
            out@ == start + repeat(fill@[0], i as nat),
        decreases n - i,
    {
        out.append(fill);
        assert(repeat(fill@[0], (i + 1) as nat) =~= repeat(fill@[0], i as nat) + fill@);
        assert(start + repeat(fill@[0], (i + 1) as nat) =~= start + repeat(fill@[0], i as nat) + fill@);
        i = i + 1;
    }
}

/// Shows `v` under a spec as `apply_spec` says: cut to the precision, then
/// filled out to the width.
fn apply_spec_exec(v: &str, fill: &str, align: Option<Align>, width: Option<usize>, precision: Option<usize>) -> (r: String)
    requires
        fill@.len() == 1,
    ensures
        r@ == apply_spec(v@, FmtSpec { fill: fill@[0], align, width: count_view(width), precision: count_view(precision), debug: false }),
{
    let vn = v.unicode_len();
    let cut: &str = match precision {
        Some(p) => if vn > p { v.substring_char(0, p) } else { v },
        None => v,
    };
    let cn = cut.unicode_len();
    let mut out = String::new();
    match width {
        None => {
            out.append(cut);
        },
        Some(w) => {
            if cn >= w {
                out.append(cut);
            } else {
                let n = w - cn;
                match align {
                    Some(Align::Right) => {
                        push_fill(&mut out, fill, n);
                        out.append(cut);
                    },
                    Some(Align::Center) => {
                        push_fill(&mut out, fill, n / 2);
                        out.append(cut);
                        push_fill(&mut out, fill, n - n / 2);
                    },
                    _ => {
                        out.append(cut);
                        push_fill(&mut out, fill, n);
                    },
                }
            }
        },
    }
    assert(Seq::<char>::empty() + cut@ =~= cut@);
    out
}

/// What the placeholder `content` yields, as `placeholder` says.
fn placeholder_exec(content: &str, counter: usize, args: &Vec<FormatArg>, debug: &Vec<String>) -> (r: Result<(String, usize, usize), FormatError>)
    requires
        counter <= args@.len(),
        debug@.len() == args@.len(),
    ensures
        match r {
            Ok((s, k, next)) => placeholder(content@, counter as nat, args@.map_values(|a: FormatArg| a@), debug@.map_values(|d: String| d@))
                == Ok::<(Seq<char>, int, nat), FormatFault>((s@, k as int, next as nat))
                && next <= args@.len() && k < args@.len(),
            Err(e) => placeholder(content@, counter as nat, args@.map_values(|a: FormatArg| a@), debug@.map_values(|d: String| d@))
                == Err::<(Seq<char>, int, nat), FormatFault>(e@),
        },
{
    let n = content.unicode_len();
    match find_colon(content) {
        None => {
            let (k, next) = match placeholder_target_exec(content, counter, args) {
                Err(e) => return Err(e),
                Ok(p) => p,
            };
            let s = String::from_str(args[k].value.as_str());
            Ok((s, k, next))
        },
        Some(c) => {
            let arg = content.substring_char(0, c);
            let rest = content.substring_char(c + 1, n);
            assert(arg@ =~= content@.take(c as int));
            assert(rest@ =~= content@.skip(c + 1));
            match parse_spec_exec(rest) {
                None => Err(FormatError::UnsupportedSpec),
                Some((fill, align, width, precision, dbg)) => {
                    let (k, next) = match placeholder_target_exec(arg, counter, args) {
                        Err(e) => return Err(e),
                        Ok(p) => p,
                    };
                    if dbg {
                        Ok((debug[k].clone(), k, next))
                    } else {
                        let s = apply_spec_exec(args[k].value.as_str(), fill, align, width, precision);
                        Ok((s, k, next))
                    }
                },
            }
        },
    }
}

/// Lifting twice is lifting once by the joined prefix and the joined positions.
proof fn lemma_lift_lift(
    o: Seq<char>,
    uo: Set<int>,
    p: Seq<char>,
    up: Set<int>,
    r: Result<(Seq<char>, Set<int>), FormatFault>,
)
    ensures
        lift(o, uo, lift(p, up, r)) == lift(o + p, uo.union(up), r),
{
    match r {
        Ok((x, ux)) => {
            assert(o + (p + x) =~= (o + p) + x);
            assert(uo.union(up.union(ux)) =~= uo.union(up).union(ux));
        },
        Err(_) => {},
    }
}

/// An argument position missing among the first `k` is the first missing
/// among all.
pub(crate) proof fn lemma_first_unused_extends(used: Set<int>, k: int, n: int)
    requires
        0 <= k <= n,
        first_unused(used, k) is Some,
    ensures
        first_unused(used, n) == first_unused(used, k),
    decreases n - k,
{
    if k < n {
        lemma_first_unused_extends(used, k + 1, n);
    }
}

/// Formats `template` with the string arguments `args` as `format!` does:
/// `{{` and `}}` stand for braces, `{}` for the next positional argument,
/// `{i}` for argument `i`, `{name}` for the argument so named, each shown
/// under its spec (`{:>5}`, `{0:*^9.3}`, `{:?}`, ...) as `parse_spec`,
/// `apply_spec` and `str_debug` say; every argument must be used.
pub fn format_template(template: &str, args: &Vec<FormatArg>) -> (r: Result<String, FormatError>)
    ensures
        match r {
            Ok(s) => format_spec(template@, args@.map_values(|a: FormatArg| a@)) == Ok::<Seq<char>, FormatFault>(s@),
            Err(e) => format_spec(template@, args@.map_values(|a: FormatArg| a@)) == Err::<Seq<char>, FormatFault>(e@),
        },
{
    let ghost av = args@.map_values(|a: FormatArg| a@);
    let mut debug: Vec<String> = Vec::new();
    let mut k: usize = 0;
    while k < args.len()
        invariant
            k <= args@.len(),
            av == args@.map_values(|a: FormatArg| a@),
            debug@.len() == k,
            forall|m: int| 0 <= m < k ==> #[trigger] debug@[m]@ == str_debug(av[m].1),
        decreases args@.len() - k,
    {
        debug.push(debug_text(args[k].value.as_str()));
        k = k + 1;
    }
    assert(debug@.map_values(|d: String| d@) =~= debug_views(av));
    format_template_with(template, args, &debug)
}

/// Formats `template` with `args` as `format_template` does, the arguments'
/// `Debug` texts (for `{:?}`) being `debug`, one per argument.
#[verifier::loop_isolation(false)]
pub fn format_template_with(template: &str, args: &Vec<FormatArg>, debug: &Vec<String>) -> (r: Result<String, FormatError>)
    requires
        debug@.len() == args@.len(),
    ensures
        match r {
            Ok(s) => format_spec_with(template@, args@.map_values(|a: FormatArg| a@), debug@.map_values(|d: String| d@))
                == Ok::<Seq<char>, FormatFault>(s@),
            Err(e) => format_spec_with(template@, args@.map_values(|a: FormatArg| a@), debug@.map_values(|d: String| d@))
                == Err::<Seq<char>, FormatFault>(e@),
        },
{
    let ghost av = args@.map_values(|a: FormatArg| a@);
    let ghost dv = debug@.map_values(|d: String| d@);
    let ghost t = template@;
    match check_args(args) {
        Err(e) => return Err(e),
        Ok(()) => {},
    }
    let n = template.unicode_len();
    let mut used: Vec<bool> = Vec::new();
    while used.len() < args.len()
        invariant
            used@.len() <= args@.len(),
            forall|k: int| 0 <= k < used@.len() ==> !used@[k],
        decreases args@.len() - used@.len(),
    {
        used.push(false);
    }
    assert(used_set(used@) =~= Set::<int>::empty());
    let mut out = String::new();
    let mut counter: usize = 0;
    let mut i: usize = 0;
    assert(lift(out@, used_set(used@), scan(t, 0, 0, av, dv)) == scan(t, 0, 0, av, dv)) by {
        match scan(t, 0, 0, av, dv) {
            Ok((x, ux)) => {
                assert(out@ + x =~= x);
                assert(used_set(used@).union(ux) =~= ux);
            },
            Err(_) => {},
        }
    }
    while i < n
        invariant
            n == t.len(),
            t == template@,
            av == args@.map_values(|a: FormatArg| a@),
            dv == debug@.map_values(|d: String| d@),
            debug@.len() == args@.len(),
            i <= n,
            counter <= args@.len(),
            used@.len() == args@.len(),
            args_fault(av, av.len() as int) is None,
            scan(t, 0, 0, av, dv) == lift(out@, used_set(used@), scan(t, i as int, counter as nat, av, dv)),
        decreases n - i,
    {
        let ch = template.get_char(i);
        if ch == '{' {
            if i + 1 < n && template.get_char(i + 1) == '{' {
                let piece = template.substring_char(i, i + 1);
                assert(piece@ =~= seq!['{']);
                proof { lemma_lift_lift(out@, used_set(used@), piece@, Set::empty(), scan(t, i + 2, counter as nat, av, dv)); }
                assert(used_set(used@).union(Set::empty()) =~= used_set(used@));
                out.append(piece);
                i = i + 2;
            } else {
                let j = match find_close(template, i + 1) {
                    None => return Err(FormatError::UnmatchedOpen),
                    Some(j) => j,
                };
                proof { lemma_close_from(t, i + 1); }
                let content = template.substring_char(i + 1, j);
                let (text, k, next) = match placeholder_exec(content, counter, args, debug) {
                    Err(e) => return Err(e),
                    Ok(p) => p,
                };
                proof {
                    lemma_lift_lift(out@, used_set(used@), text@, set![k as int], scan(t, j + 1, next as nat, av, dv));
                }
                let ghost old_used = used@;
                out.append(text.as_str());
                used.set(k, true);
                assert(used_set(used@) =~= used_set(old_used).union(set![k as int]));
                counter = next;
                i = j + 1;
            }
        } else if ch == '}' {
            if i + 1 < n && template.get_char(i + 1) == '}' {
                let piece = template.substring_char(i, i + 1);
                assert(piece@ =~= seq!['}']);
                proof { lemma_lift_lift(out@, used_set(used@), piece@, Set::empty(), scan(t, i + 2, counter as nat, av, dv)); }
                assert(used_set(used@).union(Set::empty()) =~= used_set(used@));
                out.append(piece);
                i = i + 2;
            } else {
                return Err(FormatError::UnmatchedClose);
            }
        } else {
            let piece = template.substring_char(i, i + 1);
            assert(piece@ =~= seq![t[i as int]]);
            proof { lemma_lift_lift(out@, used_set(used@), piece@, Set::empty(), scan(t, i + 1, counter as nat, av, dv)); }
            assert(used_set(used@).union(Set::empty()) =~= used_set(used@));
            out.append(piece);
            i = i + 1;
        }
    }
    assert(scan(t, 0, 0, av, dv) == Ok::<(Seq<char>, Set<int>), FormatFault>((out@, used_set(used@)))) by {
        assert(out@ + Seq::<char>::empty() =~= out@);
        assert(used_set(used@).union(Set::<int>::empty()) =~= used_set(used@));
    }
    let mut k: usize = 0;
    while k < used.len()
        invariant
            k <= used@.len(),
            used@.len() == args@.len(),
            av.len() == args@.len(),
            first_unused(used_set(used@), k as int) is None,
        decreases used@.len() - k,
    {
        if !used[k] {
            assert(!used_set(used@).contains(k as int));
            proof { lemma_first_unused_extends(used_set(used@), k as int + 1, used@.len() as int); }
            return Err(FormatError::UnusedArgument(k));
        }
        assert(used_set(used@).contains(k as int));
        k = k + 1;
    }
    Ok(out)
}

} // verus!
