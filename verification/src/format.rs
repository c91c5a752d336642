//! Decimal numbers and modification times as text.

use vstd::prelude::*;

use crate::calendar::{civil, civil_from_days};
use crate::strings::push_char;

verus! {

/// The character of a decimal digit.
pub open spec fn digit_char(d: int) -> char {
    (d + 48) as char
}

/// The decimal digits of `n`, without leading zeros.
pub open spec fn decimal(n: nat) -> Seq<char>
    decreases n,
{
    if n < 10 {
        seq![digit_char(n as int)]
    } else {
        decimal(n / 10).push(digit_char((n % 10) as int))
    }
}

proof fn lemma_decimal_nonempty(n: nat)
    ensures
        decimal(n).len() >= 1,
        n >= 10 ==> decimal(n).len() >= 2,
    decreases n,
{
    if n >= 10 {
        lemma_decimal_nonempty(n / 10);
    }
}

/// Different numbers have different decimal digits.
pub proof fn lemma_decimal_injective(a: nat, b: nat)
    requires
        decimal(a) == decimal(b),
    ensures
        a == b,
    decreases a,
{
    lemma_decimal_nonempty(a);
    lemma_decimal_nonempty(b);
    if a < 10 && b < 10 {
        assert(decimal(a)[0] == digit_char(a as int));
        assert(decimal(b)[0] == digit_char(b as int));
    } else if a >= 10 && b >= 10 {
        assert(decimal(a).last() == digit_char((a % 10) as int));
        assert(decimal(b).last() == digit_char((b % 10) as int));
        assert(decimal(a).drop_last() == decimal(a / 10));
        assert(decimal(b).drop_last() == decimal(b / 10));
        lemma_decimal_injective(a / 10, b / 10);
    } else {
        assert(decimal(a).len() != decimal(b).len());
    }
}

/// The decimal digits of `n`, with zeros in front up to `width` characters.
pub open spec fn padded(n: nat, width: nat) -> Seq<char> {
    let digits = decimal(n);
    if digits.len() < width {
        Seq::new((width - digits.len()) as nat, |i: int| '0') + digits
    } else {
        digits
    }
}

fn digit(d: u64) -> (c: char)
    requires
        d < 10,
    ensures
        c == digit_char(d as int),
{
    match d {
        0 => '0',
        1 => '1',
        2 => '2',
        3 => '3',
        4 => '4',
        5 => '5',
        6 => '6',
        7 => '7',
        8 => '8',
        _ => '9',
    }
}

/// The number of decimal digits of `n`.
pub fn decimal_len(n: u64) -> (r: usize)
    ensures
        r == decimal(n as nat).len(),
    decreases n,
{
    if n < 10 {
        1
    } else {
        let r = decimal_len(n / 10);
        proof {
            lemma_decimal_len_small((n / 10) as nat);
        }
        r + 1
    }
}

/// Ten to the power `k`.
pub open spec fn pow10(k: nat) -> nat
    decreases k,
{
    if k == 0 {
        1
    } else {
        10 * pow10((k - 1) as nat)
    }
}

proof fn lemma_decimal_len(n: nat, k: nat)
    requires
        k >= 1,
        n < pow10(k),
    ensures
        decimal(n).len() <= k,
    decreases k,
{
    if n >= 10 {
        if k == 1 {
            assert(pow10(1) == 10) by {
                reveal_with_fuel(pow10, 2);
            }
        } else {
            let p = pow10((k - 1) as nat);
            assert(pow10(k) == 10 * p);
            assert(n / 10 < p) by (nonlinear_arith)
                requires
                    n < 10 * p,
            ;
            lemma_decimal_len(n / 10, (k - 1) as nat);
        }
    }
}

proof fn lemma_decimal_len_small(n: nat)
    requires
        n <= u64::MAX,
    ensures
        decimal(n).len() <= 20,
{
    assert(pow10(20) == 100000000000000000000) by {
        reveal_with_fuel(pow10, 21);
    }
    lemma_decimal_len(n, 20);
}

/// Appends the decimal digits of `n` to `s`.
pub fn push_decimal(s: &mut String, n: u64)
    ensures
        final(s)@ == old(s)@ + decimal(n as nat),
    decreases n,
{
    if n >= 10 {
        push_decimal(s, n / 10);
    }
    push_char(s, digit(n % 10));
    proof {
        if n >= 10 {
            assert(decimal(n as nat) =~= decimal((n / 10) as nat).push(digit_char((n % 10) as int)));
        }
    }
}

/// Appends the decimal digits of `n`, with zeros in front up to `width`
/// characters.
pub fn push_padded(s: &mut String, n: u64, width: usize)
    ensures
        final(s)@ == old(s)@ + padded(n as nat, width as nat),
{
    let len = decimal_len(n);
    let ghost start = s@;
    if len < width {
        let mut i: usize = 0;
        while i < width - len
            invariant
                len < width,
                i <= width - len,
                s@ == start + Seq::new(i as nat, |j: int| '0'),
            decreases width - len - i,
        {
            push_char(s, '0');
            i = i + 1;
            assert(s@ =~= start + Seq::new(i as nat, |j: int| '0'));
        }
    }
    let ghost mid = s@;
    push_decimal(s, n);
    assert(s@ =~= start + padded(n as nat, width as nat));
}

/// The text of a modification time given in seconds since the Unix epoch:
/// `MM/DD/YYYY hh:mm`, in UTC.
pub open spec fn modified_text(seconds: nat) -> Seq<char> {
    let days = seconds / 86400;
    let day_seconds = seconds % 86400;
    let (year, month, day) = civil(days as int);
    padded(month as nat, 2) + seq!['/'] + padded(day as nat, 2) + seq!['/'] + padded(
        year as nat,
        4,
    ) + seq![' '] + padded(day_seconds / 3600, 2) + seq![':'] + padded((day_seconds % 3600) / 60, 2)
}

/// Formats a modification time given in seconds since the Unix epoch.
pub fn format_modified(seconds: u64) -> (r: String)
    ensures
        r@ == modified_text(seconds as nat),
{
    let days = seconds / 86_400;
    let day_seconds = seconds % 86_400;
    assert(days <= 213503982334601) by (nonlinear_arith)
        requires
            days == seconds / 86400,
            seconds <= u64::MAX,
    ;
    let (year, month, day) = civil_from_days(days as i64);
    let hour = day_seconds / 3_600;
    let minute = day_seconds % 3_600 / 60;
    let mut text = String::new();
    push_padded(&mut text, month as u64, 2);
    push_char(&mut text, '/');
    push_padded(&mut text, day as u64, 2);
    push_char(&mut text, '/');
    push_padded(&mut text, year as u64, 4);
    push_char(&mut text, ' ');
    push_padded(&mut text, hour, 2);
    push_char(&mut text, ':');
    push_padded(&mut text, minute, 2);
    text
}

proof fn lemma_two_digits(n: nat)
    requires
        n < 100,
    ensures
        padded(n, 2).len() == 2,
{
    assert(pow10(2) == 100) by {
        reveal_with_fuel(pow10, 3);
    }
    lemma_decimal_len(n, 2);
    lemma_decimal_nonempty(n);
}

/// The time of day of a moment, `hh:mm`, as the text shows it.
spec fn clock_text(day_seconds: nat) -> Seq<char> {
    padded(day_seconds / 3600, 2) + seq![':'] + padded((day_seconds % 3600) / 60, 2)
}

proof fn lemma_text_parts(seconds: nat)
    ensures
        modified_text(seconds).len() >= 6,
        modified_text(seconds).skip(modified_text(seconds).len() - 5) == clock_text(seconds % 86400),
        modified_text(seconds).take(modified_text(seconds).len() - 5) == modified_text(seconds).take(
            modified_text(seconds).len() - 6,
        ).push(' '),
{
    let t = seconds % 86400;
    lemma_two_digits(t / 3600);
    lemma_two_digits((t % 3600) / 60);
    let text = modified_text(seconds);
    let c = clock_text(t);
    assert(c.len() == 5);
    let front = text.take(text.len() - 6);
    assert(text =~= front + seq![' '] + c);
    assert(text.skip(text.len() - 5) =~= c);
    assert(text.take(text.len() - 5) =~= front.push(' '));
}

/// The date of a moment depends on its day alone: two moments of the same
/// day show the same text but for the time at its end (`hh:mm`).
pub proof fn lemma_date_by_day(day: nat, t1: nat, t2: nat)
    requires
        t1 < 86400,
        t2 < 86400,
    ensures
        ({
            let a = modified_text(day * 86400 + t1);
            let b = modified_text(day * 86400 + t2);
            &&& a.len() == b.len()
            &&& a.take(a.len() - 5) == b.take(b.len() - 5)
        }),
{
    let s1 = day * 86400 + t1;
    let s2 = day * 86400 + t2;
    assert(s1 / 86400 == day && s1 % 86400 == t1) by (nonlinear_arith)
        requires
            s1 == day * 86400 + t1,
            t1 < 86400,
    ;
    assert(s2 / 86400 == day && s2 % 86400 == t2) by (nonlinear_arith)
        requires
            s2 == day * 86400 + t2,
            t2 < 86400,
    ;
    lemma_text_parts(s1);
    lemma_text_parts(s2);
    let a = modified_text(s1);
    let b = modified_text(s2);
    let (y, m, d) = civil(day as int);
    let date = padded(m as nat, 2) + seq!['/'] + padded(d as nat, 2) + seq!['/'] + padded(
        y as nat,
        4,
    ) + seq![' '];
    assert(a =~= date + clock_text(t1));
    assert(b =~= date + clock_text(t2));
    assert(a.take(a.len() - 5) =~= date);
    assert(b.take(b.len() - 5) =~= date);
}

/// The time of a moment depends on its time of day alone: moments whole
/// days apart show the same `hh:mm` at the end of their text.
pub proof fn lemma_time_by_day_seconds(seconds: nat, days: nat)
    ensures
        ({
            let a = modified_text(seconds);
            let b = modified_text(seconds + days * 86400);
            a.skip(a.len() - 5) == b.skip(b.len() - 5)
        }),
{
    let s2 = seconds + days * 86400;
    assert(s2 % 86400 == seconds % 86400) by (nonlinear_arith)
        requires
            s2 == seconds + days * 86400,
    ;
    lemma_text_parts(seconds);
    lemma_text_parts(s2);
}

} // verus!
