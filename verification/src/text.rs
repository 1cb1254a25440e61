//! Plain-text helpers: decimal numbers, and byte counts as the report prints them.

use vstd::prelude::*;
use vstd::string::*;

verus! {

/// The character of a decimal digit.
pub open spec fn digit_char(d: nat) -> char {
    if d == 0 { '0' }
    else if d == 1 { '1' }
    else if d == 2 { '2' }
    else if d == 3 { '3' }
    else if d == 4 { '4' }
    else if d == 5 { '5' }
    else if d == 6 { '6' }
    else if d == 7 { '7' }
    else if d == 8 { '8' }
    else { '9' }
}

/// The decimal representation of a natural number, as `{}` prints it.
pub open spec fn decimal(n: nat) -> Seq<char>
    decreases n,
{
    if n < 10 {
        seq![digit_char(n)]
    } else {
        decimal(n / 10).push(digit_char(n % 10))
    }
}

fn digit_text(d: u64) -> (s: &'static str)
    requires
        d < 10,
    ensures
        s@ == seq![digit_char(d as nat)],
{
    proof {
        reveal_strlit("0");
        reveal_strlit("1");
        reveal_strlit("2");
        reveal_strlit("3");
        reveal_strlit("4");
        reveal_strlit("5");
        reveal_strlit("6");
        reveal_strlit("7");
        reveal_strlit("8");
        reveal_strlit("9");
    }
    match d {
        0 => "0",
        1 => "1",
        2 => "2",
        3 => "3",
        4 => "4",
        5 => "5",
        6 => "6",
        7 => "7",
        8 => "8",
        _ => "9",
    }
}

/// Formats `n` in decimal.
pub fn decimal_text(n: u64) -> (s: String)
    ensures
        s@ == decimal(n as nat),
    decreases n,
{
    if n < 10 {
        String::from_str(digit_text(n))
    } else {
        let mut s = decimal_text(n / 10);
        s.append(digit_text(n % 10));
        s
    }
}

} // verus!

verus! {

/// `n / d` rounded to the nearest integer, ties to the even one.
pub open spec fn round_half_even(n: nat, d: nat) -> nat
    recommends
        d > 0,
{
    let q = n / d;
    let r = n % d;
    if 2 * r > d || (2 * r == d && q % 2 == 1) {
        q + 1
    } else {
        q
    }
}

/// The smallest power of two from `p` on, up to 2^11, that a value below
/// 2^53 times it fits: the spacing of `f64` values around `n`.
pub open spec fn spacing_from(n: nat, p: nat) -> nat
    decreases 4096 - p,
{
    if p == 0 || p > 1024 || n < 0x20_0000_0000_0000 * p {
        p
    } else {
        spacing_from(n, 2 * p)
    }
}

/// The spacing of `f64` values around a byte count: one below 2^53, and
/// doubling with each further binary digit.
pub open spec fn f64_spacing(n: nat) -> nat {
    spacing_from(n, 1)
}

/// The `f64` nearest to a byte count, ties to even: what `bytes as f64` is.
pub open spec fn as_f64(n: nat) -> nat {
    f64_spacing(n) * round_half_even(n, f64_spacing(n))
}

/// The divisor of each byte unit.
pub open spec fn unit_divisor(unit: nat) -> nat {
    if unit == 0 {
        1
    } else if unit == 1 {
        1024
    } else if unit == 2 {
        1_048_576
    } else if unit == 3 {
        1_073_741_824
    } else {
        1_099_511_627_776
    }
}

/// The byte unit for a value: the largest unit, up to TiB, that the value
/// reaches.
pub open spec fn byte_unit(value: nat) -> nat {
    if value >= unit_divisor(4) {
        4
    } else if value >= unit_divisor(3) {
        3
    } else if value >= unit_divisor(2) {
        2
    } else if value >= unit_divisor(1) {
        1
    } else {
        0
    }
}

pub open spec fn unit_name(unit: nat) -> Seq<char> {
    if unit == 1 {
        "KiB"@
    } else if unit == 2 {
        "MiB"@
    } else if unit == 3 {
        "GiB"@
    } else {
        "TiB"@
    }
}

/// A byte count for people: whole bytes below one KiB; otherwise the value
/// in the largest unit it reaches, with no decimals from ten units on and one
/// decimal below.
pub open spec fn bytes_text(bytes: nat) -> Seq<char> {
    let value = as_f64(bytes);
    let unit = byte_unit(value);
    let divisor = unit_divisor(unit);
    if unit == 0 {
        decimal(bytes) + " B"@
    } else if value >= 10 * divisor {
        decimal(round_half_even(value, divisor)) + " "@ + unit_name(unit)
    } else {
        let tenths = round_half_even(10 * value, divisor);
        decimal(tenths / 10) + "."@ + seq![digit_char(tenths % 10)] + " "@ + unit_name(unit)
    }
}

fn unit_text(unit: u64) -> (name: &'static str)
    requires
        1 <= unit <= 4,
    ensures
        name@ == unit_name(unit as nat),
{
    if unit == 1 {
        "KiB"
    } else if unit == 2 {
        "MiB"
    } else if unit == 3 {
        "GiB"
    } else {
        "TiB"
    }
}

fn round_half_even_u128(n: u128, d: u128) -> (rounded: u128)
    requires
        d > 0,
        n / d < u128::MAX,
    ensures
        rounded == round_half_even(n as nat, d as nat),
{
    let q = n / d;
    let r = n % d;
    if r > d - r || (r == d - r && q % 2 == 1) {
        q + 1
    } else {
        q
    }
}

/// Formats a byte count, as `{value:.0}` and `{value:.1}` print the `f64`
/// value in its unit.
pub fn format_bytes(bytes: u64) -> (text: String)
    ensures
        text@ == bytes_text(bytes as nat),
{
    // The f64 nearest to `bytes`.
    let mut spacing: u128 = 1;
    while spacing <= 1024 && (bytes as u128) >= 0x20_0000_0000_0000 * spacing
        invariant
            1 <= spacing <= 2048,
            f64_spacing(bytes as nat) == spacing_from(bytes as nat, spacing as nat),
        decreases 2048 - spacing,
    {
        spacing = spacing * 2;
    }
    assert(f64_spacing(bytes as nat) == spacing as nat);
    let rounded = round_half_even_u128(bytes as u128, spacing);
    proof {
        let n = bytes as int;
        let s = spacing as int;
        let q = n / s;
        vstd::arithmetic::div_mod::lemma_fundamental_div_mod(n, s);
        assert(rounded <= q + 1);
        assert(q * s <= n);
        assert(rounded * s <= q * s + s) by (nonlinear_arith)
            requires
                rounded <= q + 1,
                s >= 1,
        ;
    }
    let value: u128 = rounded * spacing;
    assert(value == as_f64(bytes as nat));
    assert(value <= 0x1_0000_0000_0000_0800);
    let mut unit: u64 = 0;
    let mut divisor: u128 = 1;
    if value >= 1_099_511_627_776 {
        unit = 4;
        divisor = 1_099_511_627_776;
    } else if value >= 1_073_741_824 {
        unit = 3;
        divisor = 1_073_741_824;
    } else if value >= 1_048_576 {
        unit = 2;
        divisor = 1_048_576;
    } else if value >= 1024 {
        unit = 1;
        divisor = 1024;
    }
    proof {
        reveal_strlit(" B");
        reveal_strlit(" ");
        reveal_strlit(".");
    }
    if unit == 0 {
        let mut text = decimal_text(bytes);
        text.append(" B");
        return text;
    }
    if value >= 10 * divisor {
        let whole = round_half_even_u128(value, divisor);
        proof {
            vstd::arithmetic::div_mod::lemma_div_is_ordered_by_denominator(
                value as int,
                1024,
                divisor as int,
            );
            vstd::arithmetic::div_mod::lemma_div_is_ordered(
                value as int,
                0x1_0000_0000_0000_0800,
                1024,
            );
        }
        let mut text = decimal_text(whole as u64);
        text.append(" ");
        text.append(unit_text(unit));
        text
    } else {
        let tenths = round_half_even_u128(10 * value, divisor);
        proof {
            vstd::arithmetic::div_mod::lemma_div_is_ordered(
                10 * value as int,
                100 * divisor as int,
                divisor as int,
            );
            vstd::arithmetic::div_mod::lemma_div_multiples_vanish(100, divisor as int);
        }
        let mut text = decimal_text((tenths / 10) as u64);
        text.append(".");
        text.append(digit_text((tenths % 10) as u64));
        text.append(" ");
        text.append(unit_text(unit));
        text
    }
}

} // verus!
