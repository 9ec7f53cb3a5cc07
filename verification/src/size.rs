//! Sizes for people to read.

use vstd::prelude::*;

use crate::number::{decimal, push_decimal};

verus! {

/// `n / d`, rounded to the nearest integer, and to the even one of two that
/// are as near.
pub open spec fn half_even(n: nat, d: nat) -> nat {
    let q = n / d;
    let r = n % d;
    if 2 * r > d || (2 * r == d && q % 2 == 1) {
        q + 1
    } else {
        q
    }
}

/// The distance between two neighbouring numbers of 53 binary digits around
/// `n`.
pub open spec fn grain(n: nat) -> nat
    decreases n,
{
    if n < 0x20_0000_0000_0000 {
        1
    } else {
        2 * grain(n / 2)
    }
}

/// `n` rounded to 53 binary digits, which is what a double holds.
pub open spec fn as_double(n: nat) -> nat {
    half_even(n, grain(n)) * grain(n)
}

/// How many bytes the unit for `n` bytes stands for: the biggest that is not
/// above `n`, from single bytes to powers of 1024, and up to the fourth.
pub open spec fn unit_bytes(n: nat) -> nat {
    if n < 0x400 {
        1
    } else if n < 0x10_0000 {
        0x400
    } else if n < 0x4000_0000 {
        0x10_0000
    } else if n < 0x100_0000_0000 {
        0x4000_0000
    } else {
        0x100_0000_0000
    }
}

/// The letter of a unit.
pub open spec fn unit_letter(unit: nat) -> char {
    if unit == 1 {
        'B'
    } else if unit == 0x400 {
        'K'
    } else if unit == 0x10_0000 {
        'M'
    } else if unit == 0x4000_0000 {
        'G'
    } else {
        'T'
    }
}

/// A size with one digit after the point and the letter of its unit. The
/// number of bytes is rounded to 53 binary digits first.
pub open spec fn human_text(bytes: u64) -> Seq<char> {
    let n = as_double(bytes as nat);
    let unit = unit_bytes(n);
    let tenths = half_even(n * 10, unit);
    decimal(tenths / 10) + "."@ + decimal(tenths % 10) + seq![unit_letter(unit)]
}

/// `n / d`, rounded half to even.
fn divide_half_even(n: u128, d: u128) -> (r: u128)
    requires
        0 < d <= 0x1_0000_0000_0000_0000,
    ensures
        r == half_even(n as nat, d as nat),
        r <= n / d + 1,
{
    let q: u128 = n / d;
    let r: u128 = n % d;
    proof {
        assert(q < u128::MAX || r == 0) by (nonlinear_arith)
            requires
                q == n / d,
                r == n % d,
                d > 0,
        ;
    }
    if 2 * r > d || (2 * r == d && q % 2 == 1) {
        q + 1
    } else {
        q
    }
}

/// The grain of a number of at most 64 binary digits is at most 2048.
proof fn lemma_grain(n: nat)
    requires
        n < 0x1_0000_0000_0000_0000,
    ensures
        1 <= grain(n) <= 0x800,
{
    reveal_with_fuel(grain, 13);
}

/// `n` rounded to 53 binary digits.
fn to_double(n: u64) -> (r: u128)
    ensures
        r == as_double(n as nat),
        r <= 0x1_0000_0000_0000_0800,
{
    let mut m: u64 = n;
    let mut scale: u64 = 1;
    proof {
        lemma_grain(n as nat);
    }
    while m >= 0x20_0000_0000_0000
        invariant
            1 <= scale <= 0x800,
            grain(n as nat) == scale * grain(m as nat),
            1 <= grain(n as nat) <= 0x800,
        decreases m,
    {
        let ghost below = grain((m / 2) as nat);
        assert(grain(m as nat) == 2 * below);
        assert(scale * (2 * below) == (2 * scale) * below) by (nonlinear_arith);
        proof {
            lemma_grain((m / 2) as nat);
        }
        assert(2 * scale <= 0x800) by (nonlinear_arith)
            requires
                (2 * scale) * below <= 0x800,
                below >= 1,
                scale >= 1,
        ;
        m = m / 2;
        scale = scale * 2;
    }
    assert(grain(m as nat) == 1);
    assert(scale * grain(m as nat) == scale) by (nonlinear_arith)
        requires
            grain(m as nat) == 1,
    ;
    let q: u128 = divide_half_even(n as u128, scale as u128);
    assert(q * scale <= n + scale) by (nonlinear_arith)
        requires
            q <= n / scale + 1,
            scale >= 1,
    ;
    q * scale as u128
}

/// A size with one digit after the point and the letter of its unit.
pub fn human(bytes: u64) -> (r: String)
    ensures
        r@ == human_text(bytes),
{
    let n: u128 = to_double(bytes);
    let (unit, letter): (u128, char) = if n < 0x400 {
        (1, 'B')
    } else if n < 0x10_0000 {
        (0x400, 'K')
    } else if n < 0x4000_0000 {
        (0x10_0000, 'M')
    } else if n < 0x100_0000_0000 {
        (0x4000_0000, 'G')
    } else {
        (0x100_0000_0000, 'T')
    };
    let tenths: u128 = divide_half_even(n * 10, unit);
    let mut out: String = String::new();
    push_decimal(&mut out, tenths / 10);
    out.append(".");
    push_decimal(&mut out, tenths % 10);
    out.push(letter);
    assert(out@ =~= human_text(bytes));
    out
}

/// A quotient stays the same where both numbers are multiplied by 1024, and so
/// does its rounding.
proof fn lemma_half_even_scales(n: nat, d: nat)
    requires
        d > 0,
    ensures
        half_even(n * 1024, d * 1024) == half_even(n, d),
{
    let q = n / d;
    let r = n % d;
    assert((n * 1024) / (d * 1024) == q && (n * 1024) % (d * 1024) == r * 1024)
        by (nonlinear_arith)
        requires
            q == n / d,
            r == n % d,
            d > 0,
    {
        assert(n == d * q + r && 0 <= r < d);
        assert(n * 1024 == (d * 1024) * q + r * 1024);
        assert(0 <= r * 1024 < d * 1024);
        vstd::arithmetic::div_mod::lemma_fundamental_div_mod_converse(
            (n * 1024) as int,
            (d * 1024) as int,
            q as int,
            (r * 1024) as int,
        );
    }
}

/// A size that is multiplied by 1024 keeps its number, and only the letter
/// changes, as long as there is a bigger unit.
pub proof fn law_next_unit(bytes: u64)
    requires
        0 < bytes < 0x100_0000_0000,
    ensures
        human_text((bytes * 1024) as u64).drop_last() == human_text(bytes).drop_last(),
        unit_bytes((bytes * 1024) as nat) == 1024 * unit_bytes(bytes as nat),
{
    let n = bytes as nat;
    let m = (bytes * 1024) as nat;
    assert(grain(n) == 1 && grain(m) == 1);
    assert(as_double(n) == n && as_double(m) == m);
    let unit = unit_bytes(n);
    lemma_half_even_scales(n * 10, unit);
    assert(m * 10 == (n * 10) * 1024);
    let tenths = half_even(n * 10, unit);
    let front = decimal(tenths / 10) + "."@ + decimal(tenths % 10);
    assert(human_text(bytes).drop_last() =~= front);
    assert(human_text((bytes * 1024) as u64).drop_last() =~= front);
}

/// A rounded quotient is as near to the exact one as an integer can be: it is
/// off by one half at most, and where it is off by one half, it is even.
pub proof fn law_rounding_is_nearest(n: nat, d: nat)
    requires
        d > 0,
    ensures
        2 * (half_even(n, d) * d) <= 2 * n + d,
        2 * n <= 2 * (half_even(n, d) * d) + d,
        2 * (half_even(n, d) * d) == 2 * n + d || 2 * n == 2 * (half_even(n, d) * d) + d
            ==> half_even(n, d) % 2 == 0,
{
    let q = n / d;
    let r = n % d;
    let h = half_even(n, d);
    assert(n == q * d + r && r < d) by (nonlinear_arith)
        requires
            q == n / d,
            r == n % d,
            d > 0,
    ;
    assert((q + 1) * d == q * d + d) by (nonlinear_arith);
    if h == q + 1 {
        assert(h * d == q * d + d);
    } else {
        assert(h * d == q * d);
    }
}

/// A number below two to the power of 53 is what a double holds, and a bigger
/// one is rounded to a multiple of its grain, which is the number's size
/// divided by some 53 binary digits.
pub proof fn law_double_keeps_its_digits(n: nat)
    ensures
        n < 0x20_0000_0000_0000 ==> as_double(n) == n,
        as_double(n) == half_even(n, grain(n)) * grain(n),
        grain(n) >= 1,
        n < 0x20_0000_0000_0000 * grain(n),
        n >= 0x20_0000_0000_0000 ==> n >= 0x10_0000_0000_0000 * grain(n) && grain(n) == 2 * grain(
            n / 2,
        ),
    decreases n,
{
    if n >= 0x20_0000_0000_0000 {
        law_double_keeps_its_digits(n / 2);
    } else {
        assert(grain(n) == 1);
        assert(half_even(n, 1) == n);
        assert(half_even(n, grain(n)) * grain(n) == n);
    }
}

/// A size is shown in the biggest unit that is not above it: bytes, and powers
/// of 1024 with their letters, up to the fourth.
pub proof fn law_units(n: nat)
    ensures
        n < 0x400 ==> unit_bytes(n) == 1,
        0x400 <= n < 0x100_0000_0000 ==> unit_bytes(n) <= n < 1024 * unit_bytes(n),
        n >= 0x100_0000_0000 ==> unit_bytes(n) == 0x100_0000_0000,
        unit_letter(1) == 'B',
        unit_letter(0x400) == 'K',
        unit_letter(0x400 * 0x400) == 'M',
        unit_letter(0x400 * 0x400 * 0x400) == 'G',
        unit_letter(0x400 * 0x400 * 0x400 * 0x400) == 'T',
        unit_bytes(n) == 1 || unit_bytes(n) == 0x400 || unit_bytes(n) == 0x10_0000 || unit_bytes(n)
            == 0x4000_0000 || unit_bytes(n) == 0x100_0000_0000,
{
}

/// A size is shown with the tenth of its unit that is nearest to it: a number,
/// a point, one digit, and the letter of the unit.
pub proof fn law_size_is_near(bytes: u64)
    requires
        bytes < 0x20_0000_0000_0000,
    ensures
        exists|tenths: nat|
            {
                let unit = unit_bytes(bytes as nat);
                &&& human_text(bytes) == #[trigger] decimal(tenths / 10) + "."@ + decimal(
                    tenths % 10,
                ) + seq![unit_letter(unit)]
                &&& 2 * (tenths * unit) <= 20 * bytes + unit
                &&& 20 * bytes <= 2 * (tenths * unit) + unit
            },
{
    let unit = unit_bytes(bytes as nat);
    let tenths = half_even(bytes as nat * 10, unit);
    law_double_keeps_its_digits(bytes as nat);
    law_rounding_is_nearest(bytes as nat * 10, unit);
    assert(human_text(bytes) == decimal(tenths / 10) + "."@ + decimal(tenths % 10)
        + seq![unit_letter(unit)]);
}

} // verus!
