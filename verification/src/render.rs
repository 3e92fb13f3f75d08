use vstd::prelude::*;

verus! {

/// The character of decimal digit `d`.
pub open spec fn digit_char(d: int) -> char {
    "0123456789"@[d]
}

/// The decimal digits of `n`, most significant first, without leading zeros.
pub open spec fn digits_of(n: nat) -> Seq<char>
    decreases n,
{
    if n < 10 {
        seq![digit_char(n as int)]
    } else {
        digits_of(n / 10).push(digit_char((n % 10) as int))
    }
}

/// How `{:?}` (and `{}`) shows an integer: its decimal digits, after a minus
/// sign when it is negative.
pub open spec fn decimal_spec(n: int) -> Seq<char> {
    if n < 0 {
        seq!['-'] + digits_of((-n) as nat)
    } else {
        digits_of(n as nat)
    }
}

/// The text of one decimal digit.
fn digit(d: u64) -> (s: String)
    requires
        d < 10,
    ensures
        s@ == seq![digit_char(d as int)],
{
    proof { reveal_strlit("0123456789"); }
    let mut s = String::new();
    s.append("0123456789".substring_char(d as usize, d as usize + 1));
    assert(s@ =~= seq![digit_char(d as int)]);
    s
}

/// The decimal digits of `n`.
fn digits(n: u64) -> (s: String)
    ensures
        s@ == digits_of(n as nat),
    decreases n,
{
    if n < 10 {
        digit(n)
    } else {
        let mut s = digits(n / 10);
        let d = digit(n % 10);
        s.append(d.as_str());
        s
    }
}

/// The decimal text of `n`, as `{:?}` shows it.
pub fn decimal(n: i64) -> (s: String)
    ensures
        s@ == decimal_spec(n as int),
{
    if n < 0 {
        let magnitude: u64 = (-(n as i128)) as u64;
        proof { reveal_strlit("-"); }
        let mut s = String::new();
        s.append("-");
        let d = digits(magnitude);
        s.append(d.as_str());
        assert(s@ =~= seq!['-'] + digits_of((-(n as int)) as nat));
        s
    } else {
        digits(n as u64)
    }
}

} // verus!
