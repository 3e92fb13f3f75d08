use vstd::prelude::*;
use crate::format::{
    FormatFault, format_spec, format_spec_with, scan, lift, placeholder, placeholder_target, close_from,
    lemma_close_from, digits_value, is_digit, all_digits, digit_run, lemma_digit_run,
};
use crate::render::{digits_of, digit_char};
use crate::laws::{no_braces, lemma_plain_segment};

verus! {

/// The digit character of `d` spells `d`.
proof fn lemma_digit_char(d: int)
    requires
        0 <= d < 10,
    ensures
        is_digit(digit_char(d)),
        (digit_char(d) as int) - ('0' as int) == d,
        digit_char(d) != '{' && digit_char(d) != '}' && digit_char(d) != ':' && digit_char(d) != '?',
{
    reveal_strlit("0123456789");
    let t = "0123456789"@;
    assert(t =~= seq!['0', '1', '2', '3', '4', '5', '6', '7', '8', '9']);
    if d == 0 { assert(t[d] == '0'); }
    else if d == 1 { assert(t[d] == '1'); }
    else if d == 2 { assert(t[d] == '2'); }
    else if d == 3 { assert(t[d] == '3'); }
    else if d == 4 { assert(t[d] == '4'); }
    else if d == 5 { assert(t[d] == '5'); }
    else if d == 6 { assert(t[d] == '6'); }
    else if d == 7 { assert(t[d] == '7'); }
    else if d == 8 { assert(t[d] == '8'); }
    else { assert(t[d] == '9'); }
}

/// The decimal digits of a number, read back, are that number: widths,
/// precisions and argument positions are decimal.
pub proof fn law_digits_spell_their_decimal_value(n: nat)
    ensures
        all_digits(digits_of(n)),
        digits_value(digits_of(n)) == n,
        n >= 1 ==> digits_of(n)[0] != '0',
        digit_run(digits_of(n)) == digits_of(n).len(),
        forall|k: int| 0 <= k < digits_of(n).len() ==> #[trigger] digits_of(n)[k] != '{'
            && digits_of(n)[k] != '}' && digits_of(n)[k] != ':' && digits_of(n)[k] != '?'
            && digits_of(n)[k] != '+' && digits_of(n)[k] != '-' && digits_of(n)[k] != '#'
            && digits_of(n)[k] != '.' && digits_of(n)[k] != '<' && digits_of(n)[k] != '^' && digits_of(n)[k] != '>',
    decreases n,
{
    let s = digits_of(n);
    if n < 10 {
        lemma_digit_char(n as int);
        assert(s.drop_last() =~= Seq::<char>::empty());
        assert(s.last() == digit_char(n as int));
        assert(digits_value(s.drop_last()) == 0);
    } else {
        law_digits_spell_their_decimal_value(n / 10);
        lemma_digit_char((n % 10) as int);
        let p = digits_of(n / 10);
        assert(s.drop_last() =~= p);
        assert(s.last() == digit_char((n % 10) as int));
        assert(digits_value(s) == (n / 10) * 10 + n % 10);
        assert(s[0] == p[0]);
        assert forall|k: int| 0 <= k < s.len() implies is_digit(#[trigger] s[k]) by {
            if k < p.len() {
                assert(s[k] == p[k]);
            }
        }
    }
    assert forall|k: int| 0 <= k < s.len() implies is_digit(#[trigger] s[k]) by {
        if n < 10 {
            lemma_digit_char(n as int);
        }
    }
    lemma_digit_run(s, s.len() as int);
    assert(s.skip(s.len() as int).len() == 0);
}

/// The text holds neither `{` nor `}`.
spec fn brace_free(c: Seq<char>) -> bool {
    forall|k: int| 0 <= k < c.len() ==> #[trigger] c[k] != '{' && c[k] != '}'
}

/// A placeholder `{c}` at position `i` of `t` yields what `placeholder`
/// makes of `c`, and scanning goes on after its `}`.
proof fn lemma_scan_placeholder(
    t: Seq<char>,
    i: int,
    c: Seq<char>,
    counter: nat,
    args: Seq<(Option<Seq<char>>, Seq<char>)>,
    debug: Seq<Seq<char>>,
)
    requires
        0 <= i,
        i + c.len() + 2 <= t.len(),
        t[i] == '{',
        t.subrange(i + 1, i + 1 + c.len()) == c,
        t[i + 1 + c.len()] == '}',
        brace_free(c),
    ensures
        scan(t, i, counter, args, debug) == match placeholder(c, counter, args, debug) {
            Err(e) => Err(e),
            Ok((text, k, next)) => lift(text, set![k], scan(t, i + c.len() + 2, next, args, debug)),
        },
{
    let e = i + 1 + c.len();
    assert forall|m: int| i + 1 <= m < e implies t[m] != '}' by {
        assert(t[m] == t.subrange(i + 1, e)[m - i - 1]);
    }
    if c.len() > 0 {
        assert(t[i + 1] == t.subrange(i + 1, e)[0]);
    }
    assert(t[i + 1] != '{');
    lemma_close_from(t, i + 1);
    assert(close_from(t, i + 1) == Some(e));
}

/// The template `p{c}s`, with `p` and `s` free of braces, scans as `p`, then
/// what the placeholder yields, then `s`.
proof fn lemma_one_placeholder(
    p: Seq<char>,
    c: Seq<char>,
    s: Seq<char>,
    args: Seq<(Option<Seq<char>>, Seq<char>)>,
    debug: Seq<Seq<char>>,
)
    requires
        no_braces(p),
        no_braces(s),
        brace_free(c),
    ensures
        scan(p + seq!['{'] + c + seq!['}'] + s, 0, 0, args, debug) == match placeholder(c, 0, args, debug) {
            Err(e) => Err(e),
            Ok((text, k, next)) => Ok((p + text + s, set![k])),
        },
{
    let t = p + seq!['{'] + c + seq!['}'] + s;
    let n = p.len() as int;
    let e = n + c.len() + 2;
    assert forall|k: int| 0 <= k < n implies #[trigger] t[k] != '{' && t[k] != '}' by {
        assert(t[k] == p[k]);
    }
    assert forall|k: int| e <= k < t.len() implies #[trigger] t[k] != '{' && t[k] != '}' by {
        assert(t[k] == s[k - e]);
    }
    assert(t[n] == '{');
    assert(t.subrange(n + 1, n + 1 + c.len()) =~= c);
    assert(t[n + 1 + c.len()] == '}');
    lemma_plain_segment(t, 0, n, 0, args, debug);
    assert(t.subrange(0, n) =~= p);
    lemma_scan_placeholder(t, n, c, 0, args, debug);
    if let Ok((text, k, next)) = placeholder(c, 0, args, debug) {
        lemma_plain_segment(t, e, t.len() as int, next, args, debug);
        assert(t.subrange(e, t.len() as int) =~= s);
        assert(scan(t, t.len() as int, next, args, debug) == Ok::<(Seq<char>, Set<int>), FormatFault>((Seq::empty(), Set::empty())));
        assert(s + Seq::<char>::empty() =~= s);
        assert(p + (text + s) =~= p + text + s);
        assert(Set::<int>::empty().union(set![k].union(Set::<int>::empty().union(Set::<int>::empty()))) =~= set![k]);
    }
}

/// `n` spaces (none when `n` is not positive).
pub open spec fn spaces(n: int) -> Seq<char> {
    Seq::new(if n > 0 { n as nat } else { 0 }, |i: int| ' ')
}

/// The template `p{c}s` with one positional argument `v` gives `p`, then
/// what the placeholder yields, then `s`.
proof fn lemma_one_argument(p: Seq<char>, c: Seq<char>, s: Seq<char>, v: Seq<char>)
    requires
        no_braces(p),
        no_braces(s),
        brace_free(c),
    ensures
        format_spec(p + seq!['{'] + c + seq!['}'] + s, seq![(None::<Seq<char>>, v)]) == match placeholder(c, 0,
            seq![(None::<Seq<char>>, v)], crate::format::debug_views(seq![(None::<Seq<char>>, v)])) {
            Err(e) => Err(e),
            Ok((text, k, next)) => if k == 0 { Ok(p + text + s) } else { Err(FormatFault::UnusedArgument(0)) },
        },
{
    let args = seq![(None::<Seq<char>>, v)];
    let dv = crate::format::debug_views(args);
    lemma_one_placeholder(p, c, s, args, dv);
    assert(args_fault_free(args)) by {
        assert(crate::format::args_fault(args, 0) is None);
        assert(!(exists|k: int| 0 <= k < 0 && (#[trigger] args[k].0) is Some));
    }
    if let Ok((text, k, next)) = placeholder(c, 0, args, dv) {
        assert(crate::format::first_unused(set![k], 0) is None);
        if k == 0 {
            assert(set![k].contains(0));
        } else {
            assert(!set![k].contains(0));
        }
    }
}

spec fn args_fault_free(args: Seq<(Option<Seq<char>>, Seq<char>)>) -> bool {
    crate::format::args_fault(args, args.len() as int) is None
}

/// A width `w` written in decimal pads a string argument shorter than `w`
/// with spaces after it, up to `w` characters, and leaves a longer one as
/// it is.
#[verifier::spinoff_prover]
#[verifier::rlimit(40)]
pub proof fn law_width_pads_to_decimal_width(p: Seq<char>, s: Seq<char>, v: Seq<char>, w: nat)
    requires
        no_braces(p),
        no_braces(s),
        1 <= w <= 65535,
    ensures
        format_spec(p + seq!['{', ':'] + digits_of(w) + seq!['}'] + s, seq![(None::<Seq<char>>, v)])
            == Ok::<Seq<char>, FormatFault>(p + v + spaces(w - v.len()) + s),
{
    let d = digits_of(w);
    let c = seq![':'] + d;
    law_digits_spell_their_decimal_value(w);
    assert(p + seq!['{', ':'] + d + seq!['}'] + s =~= p + seq!['{'] + c + seq!['}'] + s);
    assert(brace_free(c)) by {
        assert forall|k: int| 0 <= k < c.len() implies #[trigger] c[k] != '{' && c[k] != '}' by {
            if k > 0 {
                assert(c[k] == d[k - 1]);
            }
        }
    }
    lemma_one_argument(p, c, s, v);
    assert(crate::format::colon_from(c, 0) == Some(0int));
    assert(c.take(0) =~= Seq::<char>::empty());
    assert(c.skip(1) =~= d);
    assert(d.last() == d[d.len() - 1]);
    assert(d.len() >= 1);
    assert(crate::format::drop_flags(d) == d);
    assert(d.skip(d.len() as int) =~= Seq::<char>::empty());
    assert(d.take(d.len() as int) =~= d);
    let f = crate::format::FmtSpec { fill: ' ', align: None, width: Some(w), precision: None, debug: false };
    assert(crate::format::parse_layout(d) == Some(f));
    assert(crate::format::parse_spec(d) == Some(f));
    assert(placeholder_target(Seq::<char>::empty(), 0, seq![(None::<Seq<char>>, v)]) == Ok::<(int, nat), FormatFault>((0, 1)));
    let out = crate::format::apply_spec(v, f);
    if v.len() >= w {
        assert(spaces(w - v.len()) =~= Seq::<char>::empty());
        assert(v + spaces(w - v.len()) =~= v);
    } else {
        assert(out == v + crate::format::repeat(' ', (w - v.len()) as nat));
        assert(crate::format::repeat(' ', (w - v.len()) as nat) =~= spaces(w - v.len()));
    }
    assert(p + out + s == p + v + spaces(w - v.len()) + s);
}

/// A precision `q` written in decimal only cuts a string argument: it keeps
/// its first `q` characters, or all of them when it has fewer; nothing is
/// added.
#[verifier::spinoff_prover]
#[verifier::rlimit(40)]
pub proof fn law_precision_only_cuts(p: Seq<char>, s: Seq<char>, v: Seq<char>, q: nat)
    requires
        no_braces(p),
        no_braces(s),
        q <= 65535,
    ensures
        format_spec(p + seq!['{', ':', '.'] + digits_of(q) + seq!['}'] + s, seq![(None::<Seq<char>>, v)])
            == Ok::<Seq<char>, FormatFault>(p + v.take(if q < v.len() { q as int } else { v.len() as int }) + s),
{
    let d = digits_of(q);
    let r = seq!['.'] + d;
    let c = seq![':'] + r;
    law_digits_spell_their_decimal_value(q);
    assert(p + seq!['{', ':', '.'] + d + seq!['}'] + s =~= p + seq!['{'] + c + seq!['}'] + s);
    assert(brace_free(c)) by {
        assert forall|k: int| 0 <= k < c.len() implies #[trigger] c[k] != '{' && c[k] != '}' by {
            if k > 1 {
                assert(c[k] == d[k - 2]);
            }
        }
    }
    lemma_one_argument(p, c, s, v);
    assert(crate::format::colon_from(c, 0) == Some(0int));
    assert(c.take(0) =~= Seq::<char>::empty());
    assert(c.skip(1) =~= r);
    assert(d.len() >= 1);
    assert(r.last() == d[d.len() - 1]);
    assert(r[1] == d[0]);
    assert(crate::format::drop_flags(r) == r);
    assert(digit_run(r) == 0);
    assert(r.skip(0) =~= r);
    assert(r.skip(1) =~= d);
    let f = crate::format::FmtSpec { fill: ' ', align: None, width: None, precision: Some(q), debug: false };
    assert(crate::format::parse_layout(r) == Some(f));
    assert(crate::format::parse_spec(r) == Some(f));
    assert(placeholder_target(Seq::<char>::empty(), 0, seq![(None::<Seq<char>>, v)]) == Ok::<(int, nat), FormatFault>((0, 1)));
    if q >= v.len() {
        assert(v.take(v.len() as int) =~= v);
    }
}

/// A placeholder `{i}`, with `i` written in decimal, yields argument `i`
/// and leaves the implicit position where it was.
pub proof fn law_explicit_index_is_decimal_and_keeps_counter(
    i: nat,
    counter: nat,
    args: Seq<(Option<Seq<char>>, Seq<char>)>,
    debug: Seq<Seq<char>>,
)
    requires
        i < args.len(),
    ensures
        placeholder(digits_of(i), counter, args, debug)
            == Ok::<(Seq<char>, int, nat), FormatFault>((args[i as int].1, i as int, counter)),
{
    let d = digits_of(i);
    law_digits_spell_their_decimal_value(i);
    lemma_no_colon(d);
    assert(d.len() >= 1);
    assert(crate::format::apply_spec(args[i as int].1, crate::format::no_spec()) == args[i as int].1);
}

/// Text without `:` has no `:` for `colon_from` to find.
proof fn lemma_no_colon(c: Seq<char>)
    requires
        forall|k: int| 0 <= k < c.len() ==> #[trigger] c[k] != ':',
    ensures
        crate::format::colon_from(c, 0) is None,
{
    lemma_no_colon_from(c, 0);
}

proof fn lemma_no_colon_from(c: Seq<char>, m: int)
    requires
        0 <= m,
        forall|k: int| 0 <= k < c.len() ==> #[trigger] c[k] != ':',
    ensures
        crate::format::colon_from(c, m) is None,
    decreases c.len() - m,
{
    if m < c.len() {
        lemma_no_colon_from(c, m + 1);
    }
}

/// With two positional arguments `a` and `b`, `{i}{}{}` gives argument `i`,
/// then `a`, then `b`: an explicit index does not move the implicit
/// position, which starts at the first argument.
pub proof fn law_explicit_index_leaves_implicit_order(i: nat, a: Seq<char>, b: Seq<char>)
    requires
        i < 2,
    ensures
        format_spec(seq!['{'] + digits_of(i) + seq!['}', '{', '}', '{', '}'],
            seq![(None::<Seq<char>>, a), (None::<Seq<char>>, b)])
            == Ok::<Seq<char>, FormatFault>(seq![(None::<Seq<char>>, a), (None::<Seq<char>>, b)][i as int].1 + a + b),
{
    let args = seq![(None::<Seq<char>>, a), (None::<Seq<char>>, b)];
    let dv = crate::format::debug_views(args);
    let d = digits_of(i);
    let t = seq!['{'] + d + seq!['}', '{', '}', '{', '}'];
    let l: int = d.len() as int + 2;
    law_digits_spell_their_decimal_value(i);
    law_explicit_index_is_decimal_and_keeps_counter(i, 0, args, dv);
    assert(brace_free(d));
    assert(brace_free(Seq::<char>::empty()));
    assert(t.subrange(1, 1 + d.len() as int) =~= d);
    assert(t[1 + d.len() as int] == '}');
    lemma_scan_placeholder(t, 0, d, 0, args, dv);
    assert(t.subrange(l + 1, l + 1) =~= Seq::<char>::empty());
    assert(t[l] == '{' && t[l + 1] == '}');
    assert(t[l + 2] == '{' && t[l + 3] == '}');
    assert(t.subrange(l + 3, l + 3) =~= Seq::<char>::empty());
    lemma_no_colon(Seq::<char>::empty());
    assert(crate::format::apply_spec(a, crate::format::no_spec()) == a);
    assert(crate::format::apply_spec(b, crate::format::no_spec()) == b);
    assert(placeholder(Seq::<char>::empty(), 0, args, dv) == Ok::<(Seq<char>, int, nat), FormatFault>((a, 0, 1)));
    assert(placeholder(Seq::<char>::empty(), 1, args, dv) == Ok::<(Seq<char>, int, nat), FormatFault>((b, 1, 2)));
    lemma_scan_placeholder(t, l, Seq::<char>::empty(), 0, args, dv);
    lemma_scan_placeholder(t, l + 2, Seq::<char>::empty(), 1, args, dv);
    assert(t.len() == l + 4);
    assert(scan(t, l + 4, 2, args, dv) == Ok::<(Seq<char>, Set<int>), FormatFault>((Seq::empty(), Set::empty())));
    let x = args[i as int].1;
    assert(b + Seq::<char>::empty() =~= b);
    assert(x + (a + b) =~= x + a + b);
    let u = set![i as int].union(set![0int].union(set![1int].union(Set::<int>::empty())));
    assert(scan(t, 0, 0, args, dv) == Ok::<(Seq<char>, Set<int>), FormatFault>((x + a + b, u)));
    assert(u.contains(0) && u.contains(1));
    assert(crate::format::args_fault(args, 2) is None) by {
        assert(crate::format::args_fault(args, 0) is None);
        assert(crate::format::args_fault(args, 1) is None) by {
            assert(!(exists|k: int| 0 <= k < 0 && (#[trigger] args[k].0) is Some));
        }
        assert(!(exists|k: int| 0 <= k < 1 && (#[trigger] args[k].0) is Some)) by {
            assert(args[0].0 is None);
        }
    }
    assert(crate::format::first_unused(u, 2) is None) by {
        assert(crate::format::first_unused(u, 0) is None);
        assert(crate::format::first_unused(u, 1) is None);
    }
}

/// With every position below `m` used, none of them is the first unused.
proof fn lemma_first_unused_none(u: Set<int>, m: int)
    requires
        forall|j: int| 0 <= j < m ==> u.contains(j),
    ensures
        crate::format::first_unused(u, m) is None,
    decreases m,
{
    if m > 0 {
        lemma_first_unused_none(u, m - 1);
    }
}

/// Every argument must be used: when the placeholders of `t` leave some
/// argument unused, positional or named, formatting fails on the first such
/// argument; and a message that formats has used every argument.
pub proof fn law_every_argument_must_be_used(
    t: Seq<char>,
    args: Seq<(Option<Seq<char>>, Seq<char>)>,
    debug: Seq<Seq<char>>,
    k: int,
)
    requires
        crate::format::args_fault(args, args.len() as int) is None,
    ensures
        scan(t, 0, 0, args, debug) matches Ok((o, u)) && 0 <= k < args.len() && !u.contains(k)
            && (forall|j: int| 0 <= j < k ==> u.contains(j))
            ==> format_spec_with(t, args, debug) == Err::<Seq<char>, FormatFault>(FormatFault::UnusedArgument(k)),
        format_spec_with(t, args, debug) matches Ok(o) ==> scan(t, 0, 0, args, debug) matches Ok((o2, u))
            && o2 == o && forall|j: int| 0 <= j < args.len() ==> u.contains(j),
{
    if let Ok((o, u)) = scan(t, 0, 0, args, debug) {
        if 0 <= k < args.len() && !u.contains(k) && (forall|j: int| 0 <= j < k ==> u.contains(j)) {
            lemma_first_unused_none(u, k);
            assert(crate::format::first_unused(u, k + 1) == Some(k));
            crate::format::lemma_first_unused_extends(u, k + 1, args.len() as int);
        }
        if format_spec_with(t, args, debug) is Ok {
            assert forall|j: int| 0 <= j < args.len() implies u.contains(j) by {
                if !u.contains(j) {
                    let m = choose_first_unused(u, j);
                    lemma_first_unused_none(u, m);
                    assert(crate::format::first_unused(u, m + 1) == Some(m));
                    crate::format::lemma_first_unused_extends(u, m + 1, args.len() as int);
                }
            }
        }
    }
}

/// The least position at or below `j` that `u` lacks, given that it lacks `j`.
proof fn choose_first_unused(u: Set<int>, j: int) -> (m: int)
    requires
        0 <= j,
        !u.contains(j),
    ensures
        0 <= m <= j,
        !u.contains(m),
        forall|i: int| 0 <= i < m ==> u.contains(i),
    decreases j,
{
    if j == 0 {
        0
    } else if !u.contains(j - 1) {
        choose_first_unused(u, j - 1)
    } else if forall|i: int| 0 <= i < j ==> u.contains(i) {
        j
    } else {
        let i = choose|i: int| 0 <= i < j && !u.contains(i);
        choose_first_unused(u, i)
    }
}

/// A template without braces uses no argument, so with any argument, named
/// or positional, it does not format: the first argument is unused.
pub proof fn law_template_without_placeholders_refuses_arguments(
    t: Seq<char>,
    args: Seq<(Option<Seq<char>>, Seq<char>)>,
)
    requires
        no_braces(t),
        args.len() >= 1,
        crate::format::args_fault(args, args.len() as int) is None,
    ensures
        format_spec(t, args) == Err::<Seq<char>, FormatFault>(FormatFault::UnusedArgument(0)),
{
    let dv = crate::format::debug_views(args);
    lemma_plain_segment(t, 0, t.len() as int, 0, args, dv);
    assert(t.subrange(0, t.len() as int) =~= t);
    assert(scan(t, t.len() as int, 0, args, dv) == Ok::<(Seq<char>, Set<int>), FormatFault>((Seq::empty(), Set::empty())));
    let u = Set::<int>::empty().union(Set::<int>::empty());
    assert(u =~= Set::<int>::empty());
    assert(t + Seq::<char>::empty() =~= t);
    law_every_argument_must_be_used(t, args, dv, 0);
}

/// `n` copies of `c` (none when `n` is not positive).
pub open spec fn fills(c: char, n: int) -> Seq<char> {
    Seq::new(if n > 0 { n as nat } else { 0 }, |i: int| c)
}

/// A fill character `f`, an alignment `a` (`<`, `^` or `>`) and a decimal
/// width `w` place a string argument shorter than `w` in `w` characters:
/// after the argument the fill runs to the left, before it to the right,
/// and around it, half before (rounded down) and the rest after, to the
/// centre; a longer argument stands as it is.
#[verifier::spinoff_prover]
#[verifier::rlimit(40)]
pub proof fn law_fill_and_alignment(p: Seq<char>, s: Seq<char>, v: Seq<char>, f: char, a: char, w: nat)
    requires
        no_braces(p),
        no_braces(s),
        f != '{' && f != '}',
        a == '<' || a == '^' || a == '>',
        1 <= w <= 65535,
    ensures
        format_spec(p + seq!['{', ':', f, a] + digits_of(w) + seq!['}'] + s, seq![(None::<Seq<char>>, v)])
            == Ok::<Seq<char>, FormatFault>(p + (if v.len() >= w {
                v
            } else if a == '<' {
                v + fills(f, w - v.len())
            } else if a == '>' {
                fills(f, w - v.len()) + v
            } else {
                fills(f, (w - v.len()) / 2) + v + fills(f, w - v.len() - (w - v.len()) / 2)
            }) + s),
{
    let d = digits_of(w);
    let sp = seq![f, a] + d;
    let c = seq![':'] + sp;
    law_digits_spell_their_decimal_value(w);
    assert(p + seq!['{', ':', f, a] + d + seq!['}'] + s =~= p + seq!['{'] + c + seq!['}'] + s);
    assert(brace_free(c)) by {
        assert forall|k: int| 0 <= k < c.len() implies #[trigger] c[k] != '{' && c[k] != '}' by {
            if k > 2 {
                assert(c[k] == d[k - 3]);
            }
        }
    }
    lemma_one_argument(p, c, s, v);
    assert(crate::format::colon_from(c, 0) == Some(0int));
    assert(c.take(0) =~= Seq::<char>::empty());
    assert(c.skip(1) =~= sp);
    assert(d.len() >= 1);
    assert(sp.last() == d[d.len() - 1]);
    assert(sp[1] == a);
    assert(sp.skip(2) =~= d);
    assert(crate::format::drop_flags(d) == d);
    assert(d.skip(d.len() as int) =~= Seq::<char>::empty());
    assert(d.take(d.len() as int) =~= d);
    let al = crate::format::align_of(a);
    let fs = crate::format::FmtSpec { fill: f, align: Some(al), width: Some(w), precision: None, debug: false };
    assert(crate::format::parse_layout(sp) == Some(fs));
    assert(crate::format::parse_spec(sp) == Some(fs));
    assert(placeholder_target(Seq::<char>::empty(), 0, seq![(None::<Seq<char>>, v)]) == Ok::<(int, nat), FormatFault>((0, 1)));
    let out = crate::format::apply_spec(v, fs);
    if v.len() < w {
        let n = (w - v.len()) as nat;
        assert(crate::format::repeat(f, n) =~= fills(f, w - v.len()));
        assert(crate::format::repeat(f, n / 2) =~= fills(f, (w - v.len()) / 2));
        assert(crate::format::repeat(f, (n - n / 2) as nat) =~= fills(f, w - v.len() - (w - v.len()) / 2));
    }
}

/// `{:?}` shows a string argument by its `Debug` text.
#[verifier::spinoff_prover]
#[verifier::rlimit(40)]
pub proof fn law_debug_spec_shows_debug_text(p: Seq<char>, s: Seq<char>, v: Seq<char>)
    requires
        no_braces(p),
        no_braces(s),
    ensures
        format_spec(p + seq!['{', ':', '?', '}'] + s, seq![(None::<Seq<char>>, v)])
            == Ok::<Seq<char>, FormatFault>(p + crate::format::str_debug(v) + s),
{
    let args = seq![(None::<Seq<char>>, v)];
    assert(placeholder_target(Seq::<char>::empty(), 0, args) == Ok::<(int, nat), FormatFault>((0, 1)));
    assert(crate::format::debug_views(args)[0] == crate::format::str_debug(v));
    let c1 = seq![':', '?'];
    assert(p + seq!['{', ':', '?', '}'] + s =~= p + seq!['{'] + c1 + seq!['}'] + s);
    assert(brace_free(c1));
    lemma_one_argument(p, c1, s, v);
    assert(crate::format::colon_from(c1, 0) == Some(0int));
    assert(c1.take(0) =~= Seq::<char>::empty());
    assert(c1.skip(1) =~= seq!['?']);
    assert(seq!['?'].drop_last() =~= Seq::<char>::empty());
    assert(crate::format::drop_flags(Seq::<char>::empty()) =~= Seq::<char>::empty());
    assert(Seq::<char>::empty().skip(0) =~= Seq::<char>::empty());
    let f = crate::format::FmtSpec { fill: ' ', align: None, width: None, precision: None, debug: false };
    assert(crate::format::parse_layout(Seq::<char>::empty()) == Some(f));
    assert(crate::format::parse_spec(seq!['?']) == Some(crate::format::FmtSpec { debug: true, ..f }));
}

/// Under `?`, a string argument's `Debug` text is shown as it is: fill,
/// alignment and width do not pad it.
#[verifier::spinoff_prover]
#[verifier::rlimit(40)]
pub proof fn law_debug_text_is_not_padded(p: Seq<char>, s: Seq<char>, v: Seq<char>, w: nat)
    requires
        no_braces(p),
        no_braces(s),
        1 <= w <= 65535,
    ensures
        format_spec(p + seq!['{', ':', '>'] + digits_of(w) + seq!['?', '}'] + s, seq![(None::<Seq<char>>, v)])
            == Ok::<Seq<char>, FormatFault>(p + crate::format::str_debug(v) + s),
{
    let args = seq![(None::<Seq<char>>, v)];
    assert(placeholder_target(Seq::<char>::empty(), 0, args) == Ok::<(int, nat), FormatFault>((0, 1)));
    assert(crate::format::debug_views(args)[0] == crate::format::str_debug(v));
    let d = digits_of(w);
    law_digits_spell_their_decimal_value(w);
    let sp = seq!['>'] + d + seq!['?'];
    let c2 = seq![':'] + sp;
    assert(p + seq!['{', ':', '>'] + d + seq!['?', '}'] + s =~= p + seq!['{'] + c2 + seq!['}'] + s);
    assert(brace_free(c2)) by {
        assert forall|k: int| 0 <= k < c2.len() implies #[trigger] c2[k] != '{' && c2[k] != '}' by {
            if 2 <= k < c2.len() - 1 {
                assert(c2[k] == d[k - 2]);
            }
        }
    }
    lemma_one_argument(p, c2, s, v);
    assert(crate::format::colon_from(c2, 0) == Some(0int));
    assert(c2.take(0) =~= Seq::<char>::empty());
    assert(c2.skip(1) =~= sp);
    let body = seq!['>'] + d;
    assert(sp.drop_last() =~= body);
    assert(sp.last() == '?');
    assert(d.len() >= 1);
    assert(body[1] == d[0]);
    assert(d[0] != '<' && d[0] != '^' && d[0] != '>');
    assert(body.skip(1) =~= d);
    assert(crate::format::drop_flags(d) == d);
    assert(d.skip(d.len() as int) =~= Seq::<char>::empty());
    assert(d.take(d.len() as int) =~= d);
    let f = crate::format::FmtSpec { fill: ' ', align: Some(crate::format::Align::Right), width: Some(w), precision: None, debug: false };
    assert(crate::format::parse_layout(body) == Some(f));
    assert(crate::format::parse_spec(sp) == Some(crate::format::FmtSpec { debug: true, ..f }));
}

/// `{{` and `}}` stand for single braces: a template made of brace-free
/// text around them, given no arguments, is that text with one brace each.
#[verifier::spinoff_prover]
pub proof fn law_doubled_braces_are_literal(p: Seq<char>, q: Seq<char>, s: Seq<char>)
    requires
        no_braces(p),
        no_braces(q),
        no_braces(s),
    ensures
        format_spec(p + seq!['{', '{'] + q + seq!['}', '}'] + s, Seq::empty())
            == Ok::<Seq<char>, FormatFault>(p + seq!['{'] + q + seq!['}'] + s),
{
    let args = Seq::<(Option<Seq<char>>, Seq<char>)>::empty();
    let dv = crate::format::debug_views(args);
    let t = p + seq!['{', '{'] + q + seq!['}', '}'] + s;
    let a = p.len() as int;
    let b = a + 2 + q.len();
    let e = b + 2;
    assert forall|k: int| 0 <= k < a implies #[trigger] t[k] != '{' && t[k] != '}' by { assert(t[k] == p[k]); }
    assert forall|k: int| a + 2 <= k < b implies #[trigger] t[k] != '{' && t[k] != '}' by { assert(t[k] == q[k - a - 2]); }
    assert forall|k: int| e <= k < t.len() implies #[trigger] t[k] != '{' && t[k] != '}' by { assert(t[k] == s[k - e]); }
    lemma_plain_segment(t, 0, a, 0, args, dv);
    lemma_plain_segment(t, a + 2, b, 0, args, dv);
    lemma_plain_segment(t, e, t.len() as int, 0, args, dv);
    assert(t[a] == '{' && t[a + 1] == '{');
    assert(t[b] == '}' && t[b + 1] == '}');
    assert(t.subrange(0, a) =~= p);
    assert(t.subrange(a + 2, b) =~= q);
    assert(t.subrange(e, t.len() as int) =~= s);
    let emp = Set::<int>::empty();
    assert(scan(t, t.len() as int, 0, args, dv) == Ok::<(Seq<char>, Set<int>), FormatFault>((Seq::empty(), emp)));
    assert(emp.union(emp) =~= emp);
    assert(s + Seq::<char>::empty() =~= s);
    assert(scan(t, e, 0, args, dv) == Ok::<(Seq<char>, Set<int>), FormatFault>((s, emp)));
    assert(scan(t, b, 0, args, dv) == Ok::<(Seq<char>, Set<int>), FormatFault>((seq!['}'] + s, emp)));
    assert(scan(t, a + 2, 0, args, dv) == Ok::<(Seq<char>, Set<int>), FormatFault>((q + (seq!['}'] + s), emp)));
    assert(scan(t, a, 0, args, dv) == Ok::<(Seq<char>, Set<int>), FormatFault>((seq!['{'] + (q + (seq!['}'] + s)), emp)));
    assert(p + (seq!['{'] + (q + (seq!['}'] + s))) =~= p + seq!['{'] + q + seq!['}'] + s);
    assert(crate::format::args_fault(args, 0) is None);
    assert(crate::format::first_unused(emp, 0) is None);
}

/// A `}` that neither closes a placeholder nor is doubled makes the
/// template fail, and so does a `{` that nothing closes.
#[verifier::spinoff_prover]
pub proof fn law_unmatched_braces_are_refused(
    p: Seq<char>,
    s: Seq<char>,
    args: Seq<(Option<Seq<char>>, Seq<char>)>,
    debug: Seq<Seq<char>>,
)
    requires
        no_braces(p),
        no_braces(s),
        crate::format::args_fault(args, args.len() as int) is None,
    ensures
        format_spec_with(p + seq!['}'] + s, args, debug) == Err::<Seq<char>, FormatFault>(FormatFault::UnmatchedClose),
        format_spec_with(p + seq!['{'] + s, args, debug) == Err::<Seq<char>, FormatFault>(FormatFault::UnmatchedOpen),
{
    let a = p.len() as int;
    let t1 = p + seq!['}'] + s;
    let t2 = p + seq!['{'] + s;
    assert forall|k: int| 0 <= k < a implies #[trigger] t1[k] != '{' && t1[k] != '}' by { assert(t1[k] == p[k]); }
    assert forall|k: int| 0 <= k < a implies #[trigger] t2[k] != '{' && t2[k] != '}' by { assert(t2[k] == p[k]); }
    lemma_plain_segment(t1, 0, a, 0, args, debug);
    lemma_plain_segment(t2, 0, a, 0, args, debug);
    assert(t1[a] == '}');
    if a + 1 < t1.len() {
        assert(t1[a + 1] == s[0]);
    }
    assert(t2[a] == '{');
    if a + 1 < t2.len() {
        assert(t2[a + 1] == s[0]);
    }
    assert forall|m: int| a + 1 <= m < t2.len() implies t2[m] != '}' by { assert(t2[m] == s[m - a - 1]); }
    lemma_close_from(t2, a + 1);
}

/// `{name}` yields the first argument so named and leaves the implicit
/// position where it was; a name that no argument has fails.
pub proof fn law_named_placeholder_finds_its_argument(
    name: Seq<char>,
    counter: nat,
    args: Seq<(Option<Seq<char>>, Seq<char>)>,
    debug: Seq<Seq<char>>,
)
    requires
        name.len() > 0,
        !is_digit(name[0]),
        forall|k: int| 0 <= k < name.len() ==> #[trigger] name[k] != ':',
    ensures
        forall|k: int| 0 <= k < args.len() && args[k].0 == Some(name)
            && (forall|j: int| 0 <= j < k ==> args[j].0 != Some(name))
            ==> #[trigger] placeholder(name, counter, args, debug)
                == Ok::<(Seq<char>, int, nat), FormatFault>((args[k].1, k, counter)),
        (forall|j: int| 0 <= j < args.len() ==> args[j].0 != Some(name))
            ==> placeholder(name, counter, args, debug) == Err::<(Seq<char>, int, nat), FormatFault>(FormatFault::UnknownName(name)),
{
    lemma_no_colon(name);
    assert(!all_digits(name));
    assert forall|k: int| 0 <= k < args.len() && args[k].0 == Some(name)
        && (forall|j: int| 0 <= j < k ==> args[j].0 != Some(name))
        implies #[trigger] placeholder(name, counter, args, debug)
            == Ok::<(Seq<char>, int, nat), FormatFault>((args[k].1, k, counter)) by {
        lemma_named_index_first(args, name, 0, k);
        assert(crate::format::apply_spec(args[k].1, crate::format::no_spec()) == args[k].1);
    }
    if forall|j: int| 0 <= j < args.len() ==> args[j].0 != Some(name) {
        lemma_named_index_none(args, name, 0);
    }
}

proof fn lemma_named_index_first(args: Seq<(Option<Seq<char>>, Seq<char>)>, name: Seq<char>, m: int, k: int)
    requires
        0 <= m <= k < args.len(),
        args[k].0 == Some(name),
        forall|j: int| 0 <= j < k ==> args[j].0 != Some(name),
    ensures
        crate::format::named_index(args, name, m) == Some(k),
    decreases k - m,
{
    if m < k {
        lemma_named_index_first(args, name, m + 1, k);
    }
}

proof fn lemma_named_index_none(args: Seq<(Option<Seq<char>>, Seq<char>)>, name: Seq<char>, m: int)
    requires
        0 <= m,
        forall|j: int| 0 <= j < args.len() ==> args[j].0 != Some(name),
    ensures
        crate::format::named_index(args, name, m) is None,
    decreases args.len() - m,
{
    if m < args.len() {
        lemma_named_index_none(args, name, m + 1);
    }
}


/// The argument list is sound among its first `n` arguments: no positional
/// argument after a named one, no name given twice.
pub open spec fn args_sound(args: Seq<(Option<Seq<char>>, Seq<char>)>, n: int) -> bool {
    forall|i: int, j: int| 0 <= i < j < n ==> !((#[trigger] args[i].0) is Some && (#[trigger] args[j].0) is None)
        && (args[i].0 is Some ==> args[i].0 != args[j].0)
}

proof fn lemma_args_sound(args: Seq<(Option<Seq<char>>, Seq<char>)>, n: int)
    requires
        0 <= n <= args.len(),
    ensures
        crate::format::args_fault(args, n) is None <==> args_sound(args, n),
    decreases n,
{
    if n > 0 {
        lemma_args_sound(args, n - 1);
        let j = n - 1;
        if args_sound(args, n - 1) {
            match args[j].0 {
                None => {
                    if exists|k: int| 0 <= k < j && (#[trigger] args[k].0) is Some {
                        let k = choose|k: int| 0 <= k < j && (#[trigger] args[k].0) is Some;
                        assert(!args_sound(args, n)) by {
                            assert(args[k].0 is Some && args[j].0 is None);
                        }
                    } else {
                        assert forall|a: int, b: int| 0 <= a < b < n implies !((#[trigger] args[a].0) is Some && (#[trigger] args[b].0) is None)
                            && (args[a].0 is Some ==> args[a].0 != args[b].0) by {
                            if b == j {
                                assert(args[a].0 is None);
                            }
                        }
                    }
                },
                Some(name) => {
                    if exists|k: int| 0 <= k < j && #[trigger] args[k].0 == Some(name) {
                        let k = choose|k: int| 0 <= k < j && #[trigger] args[k].0 == Some(name);
                        assert(!args_sound(args, n)) by {
                            assert(args[k].0 is Some && args[k].0 == args[j].0);
                        }
                    } else {
                        assert forall|a: int, b: int| 0 <= a < b < n implies !((#[trigger] args[a].0) is Some && (#[trigger] args[b].0) is None)
                            && (args[a].0 is Some ==> args[a].0 != args[b].0) by {
                            if b == j {
                                assert(args[a].0 != Some(name));
                            }
                        }
                    }
                },
            }
        } else {
            let (a, b) = choose|a: int, b: int| 0 <= a < b < n - 1 && !(!((#[trigger] args[a].0) is Some && (#[trigger] args[b].0) is None)
                && (args[a].0 is Some ==> args[a].0 != args[b].0));
            assert(!args_sound(args, n)) by {
                assert(0 <= a < b < n);
            }
        }
    }
}

/// The argument list is refused exactly when a positional argument follows
/// a named one or a name is given twice; a refused list refuses every
/// template.
pub proof fn law_argument_list_faults(
    t: Seq<char>,
    args: Seq<(Option<Seq<char>>, Seq<char>)>,
    debug: Seq<Seq<char>>,
)
    ensures
        crate::format::args_fault(args, args.len() as int) is None <==> args_sound(args, args.len() as int),
        !args_sound(args, args.len() as int) ==> format_spec_with(t, args, debug) is Err,
{
    lemma_args_sound(args, args.len() as int);
}


/// `w.q`, both written in decimal, is the spec with width `w` and precision `q`.
#[verifier::spinoff_prover]
#[verifier::rlimit(40)]
proof fn lemma_parse_width_precision(w: nat, q: nat)
    requires
        1 <= w <= 65535,
        q <= 65535,
    ensures
        crate::format::parse_spec(digits_of(w) + (seq!['.'] + digits_of(q))) == Some(
            crate::format::FmtSpec { fill: ' ', align: None, width: Some(w), precision: Some(q), debug: false }),
{
    let dw = digits_of(w);
    let dq = digits_of(q);
    law_digits_spell_their_decimal_value(w);
    law_digits_spell_their_decimal_value(q);
    let r2 = seq!['.'] + dq;
    let sp = dw + r2;
    assert(dw.len() >= 1 && dq.len() >= 1);
    assert(sp.last() == dq[dq.len() - 1]);
    assert(sp[0] == dw[0]);
    if dw.len() >= 2 {
        assert(sp[1] == dw[1]);
    } else {
        assert(sp[1] == '.');
    }
    assert(crate::format::drop_flags(sp) == sp);
    assert forall|k: int| 0 <= k < dw.len() implies is_digit(#[trigger] sp[k]) by {
        assert(sp[k] == dw[k]);
    }
    lemma_digit_run(sp, dw.len() as int);
    assert(sp.skip(dw.len() as int) =~= r2);
    assert(digit_run(r2) == 0);
    assert(sp.take(dw.len() as int) =~= dw);
    assert(r2.skip(1) =~= dq);
    let f = crate::format::FmtSpec { fill: ' ', align: None, width: Some(w), precision: Some(q), debug: false };
    assert(crate::format::parse_layout(sp) == Some(f));
}

/// With both a width and a precision, the argument is first cut to the
/// precision, then padded with spaces after it up to the width.
#[verifier::spinoff_prover]
#[verifier::rlimit(40)]
pub proof fn law_precision_cuts_before_width_pads(p: Seq<char>, s: Seq<char>, v: Seq<char>, w: nat, q: nat)
    requires
        no_braces(p),
        no_braces(s),
        1 <= w <= 65535,
        q <= 65535,
    ensures
        ({
            let cut = v.take(if q < v.len() { q as int } else { v.len() as int });
            format_spec(p + seq!['{', ':'] + digits_of(w) + seq!['.'] + digits_of(q) + seq!['}'] + s, seq![(None::<Seq<char>>, v)])
                == Ok::<Seq<char>, FormatFault>(p + cut + spaces(w - cut.len()) + s)
        }),
{
    let dw = digits_of(w);
    let dq = digits_of(q);
    law_digits_spell_their_decimal_value(w);
    law_digits_spell_their_decimal_value(q);
    let sp = dw + (seq!['.'] + dq);
    let c = seq![':'] + sp;
    assert(p + seq!['{', ':'] + dw + seq!['.'] + dq + seq!['}'] + s =~= p + seq!['{'] + c + seq!['}'] + s);
    assert(brace_free(c)) by {
        assert forall|k: int| 0 <= k < c.len() implies #[trigger] c[k] != '{' && c[k] != '}' by {
            if 1 <= k < 1 + dw.len() {
                assert(c[k] == dw[k - 1]);
            } else if k > 1 + dw.len() {
                assert(c[k] == dq[k - 2 - dw.len()]);
            }
        }
    }
    lemma_one_argument(p, c, s, v);
    assert(crate::format::colon_from(c, 0) == Some(0int));
    assert(c.take(0) =~= Seq::<char>::empty());
    assert(c.skip(1) =~= sp);
    lemma_parse_width_precision(w, q);
    let f = crate::format::FmtSpec { fill: ' ', align: None, width: Some(w), precision: Some(q), debug: false };
    assert(placeholder_target(Seq::<char>::empty(), 0, seq![(None::<Seq<char>>, v)]) == Ok::<(int, nat), FormatFault>((0, 1)));
    let cut = v.take(if q < v.len() { q as int } else { v.len() as int });
    if q >= v.len() {
        assert(v.take(v.len() as int) =~= v);
    }
    let cut0 = if v.len() > q { v.take(q as int) } else { v };
    assert(cut0 == cut);
    let out = crate::format::apply_spec(v, f);
    if cut.len() >= w {
        assert(spaces(w - cut.len()) =~= Seq::<char>::empty());
        assert(cut + spaces(w - cut.len()) =~= cut);
        assert(out == cut);
    } else {
        assert(crate::format::repeat(' ', (w - cut.len()) as nat) =~= spaces(w - cut.len()));
        assert(out == cut + crate::format::repeat(' ', (w - cut.len()) as nat));
    }
    assert(out == cut + spaces(w - cut.len()));
    let args = seq![(None::<Seq<char>>, v)];
    assert(placeholder(c, 0, args, crate::format::debug_views(args)) == Ok::<(Seq<char>, int, nat), FormatFault>((out, 0, 1)));
    assert(p + out + s =~= p + cut + spaces(w - cut.len()) + s);
}
} // verus!
