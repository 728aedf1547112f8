//! Byte counts as text: a magnitude with three decimals and a unit.
//!
//! A count is shown in the largest unit that it fills at least once, the
//! units being powers of 1024. The magnitude is the count divided by the
//! unit, rounded to thousandths. Counts are taken at double precision
//! first, that is rounded to 53 significant bits, so that the text is the
//! one that fixed-point printing of a double with three decimals gives.
//! Both roundings go to the nearest value and, between two equally near
//! ones, to the even one.

use vstd::prelude::*;
use vstd::string::*;
use crate::text::{decimal, three_digits, push_decimal, push_three_digits};

verus! {

/// Bytes in a kilobyte.
pub const KB: u64 = 1024;

/// Bytes in a megabyte.
pub const MB: u64 = 1024 * 1024;

/// Bytes in a gigabyte.
pub const GB: u64 = 1024 * 1024 * 1024;

/// Bytes in a terabyte.
pub const TB: u64 = 1024 * 1024 * 1024 * 1024;

/// The first count that double precision may have to round: two to the
/// power 53.
pub const EXACT_LIMIT: u64 = 0x20_0000_0000_0000;

/// The units in which a size is shown.
#[derive(Clone, Copy, Debug, PartialEq, Eq, Structural)]
pub enum Unit {
    B,
    KB,
    MB,
    GB,
    TB,
}

impl Unit {
    /// The number of bytes in one of this unit.
    pub open spec fn bytes_of(self) -> nat {
        match self {
            Unit::B => 1,
            Unit::KB => KB as nat,
            Unit::MB => MB as nat,
            Unit::GB => GB as nat,
            Unit::TB => TB as nat,
        }
    }

    /// The label printed after a magnitude in this unit.
    pub open spec fn label_of(self) -> Seq<char> {
        match self {
            Unit::B => seq!['B'],
            Unit::KB => seq!['k', 'B'],
            Unit::MB => seq!['M', 'B'],
            Unit::GB => seq!['G', 'B'],
            Unit::TB => seq!['T', 'B'],
        }
    }

    /// The number of bytes in one of this unit.
    pub fn bytes(self) -> (bytes: u64)
        ensures
            bytes as nat == self.bytes_of(),
    {
        match self {
            Unit::B => 1,
            Unit::KB => KB,
            Unit::MB => MB,
            Unit::GB => GB,
            Unit::TB => TB,
        }
    }

    /// The label printed after a magnitude in this unit.
    pub fn label(self) -> (label: &'static str)
        ensures
            label@ == self.label_of(),
    {
        proof {
            reveal_strlit("B");
            reveal_strlit("kB");
            reveal_strlit("MB");
            reveal_strlit("GB");
            reveal_strlit("TB");
        }
        let label = match self {
            Unit::B => "B",
            Unit::KB => "kB",
            Unit::MB => "MB",
            Unit::GB => "GB",
            Unit::TB => "TB",
        };
        assert(label@ =~= self.label_of());
        label
    }
}

/// The unit in which `size` is shown: the largest one that `size` fills at
/// least once, and bytes for what is less than a kilobyte.
pub open spec fn unit_of(size: u64) -> Unit {
    if size >= TB {
        Unit::TB
    } else if size >= GB {
        Unit::GB
    } else if size >= MB {
        Unit::MB
    } else if size >= KB {
        Unit::KB
    } else {
        Unit::B
    }
}

/// The whole number nearest to `num / den`; of two equally near ones, the
/// even one.
pub open spec fn round_half_even(num: nat, den: nat) -> nat
    recommends
        den > 0,
{
    let below = num / den;
    let rest = num % den;
    if 2 * rest < den || (2 * rest == den && below % 2 == 0) {
        below
    } else {
        below + 1
    }
}

/// The distance between neighbouring counts at double precision near `n`:
/// one up to two to the power 53, and twice as much with each further bit.
pub open spec fn grain(n: nat) -> nat
    decreases n,
{
    if n < EXACT_LIMIT {
        1
    } else {
        2 * grain(n / 2)
    }
}

/// `n` at double precision: the multiple of its grain nearest to it.
pub open spec fn as_double(n: nat) -> nat {
    round_half_even(n, grain(n)) * grain(n)
}

/// The magnitude of `size` in its unit, in thousandths.
pub open spec fn thousandths(size: u64) -> nat {
    round_half_even(as_double(size as nat) * 1000, unit_of(size).bytes_of())
}

/// The text of `size`: the whole part of the magnitude, a point, three
/// decimals, a blank and the unit's label.
pub open spec fn size_text(size: u64) -> Seq<char> {
    let t = thousandths(size);
    decimal(t / 1000) + seq!['.'] + three_digits(t % 1000) + seq![' '] + unit_of(size).label_of()
}

/// Rounding to the nearest whole number misses the quotient by half a unit
/// at most, and where it misses by exactly a half, the result is even.
pub proof fn lemma_round_half_even_is_nearest(num: nat, den: nat)
    requires
        den > 0,
    ensures
        ({
            let near = round_half_even(num, den);
            &&& 2 * (near * den - num) <= den
            &&& 2 * (num - near * den) <= den
            &&& (2 * (near * den - num) == den || 2 * (num - near * den) == den) ==> near % 2 == 0
        }),
{
    let below = num / den;
    let rest = num % den;
    vstd::arithmetic::div_mod::lemma_fundamental_div_mod(num as int, den as int);
    assert(num == den * below + rest);
    assert(0 <= rest < den);
    assert(den * below == below * den) by (nonlinear_arith);
    assert((below + 1) * den == below * den + den) by (nonlinear_arith);
}

/// The grain is at least one.
pub proof fn lemma_grain_positive(n: nat)
    ensures
        grain(n) >= 1,
    decreases n,
{
    if n >= EXACT_LIMIT {
        lemma_grain_positive(n / 2);
    }
}

/// Counts up to two to the power 53 are exact at double precision.
pub proof fn lemma_as_double_exact(n: nat)
    requires
        n <= EXACT_LIMIT,
    ensures
        as_double(n) == n,
{
    if n == EXACT_LIMIT {
        assert(grain(n) == 2 * grain(n / 2));
        assert(grain(n / 2) == 1);
    } else {
        assert(grain(n) == 1);
    }
}

/// Double precision misses a count by half a grain at most.
pub proof fn lemma_as_double_is_near(n: nat)
    ensures
        2 * (as_double(n) - n) <= grain(n),
        2 * (n - as_double(n)) <= grain(n),
{
    lemma_grain_positive(n);
    lemma_round_half_even_is_nearest(n, grain(n));
}

/// A size fills its unit at least once, unless the unit is the byte, and
/// does not fill the next larger unit.
pub proof fn lemma_unit_fits(size: u64)
    ensures
        size > 0 ==> unit_of(size).bytes_of() <= size,
        unit_of(size) == Unit::B ==> size < KB,
        unit_of(size) != Unit::TB ==> size < 1024 * unit_of(size).bytes_of(),
{
}

/// From two to the power 53 on, the grain is at most the count divided by
/// two to the power 52.
pub proof fn lemma_grain_bound(n: nat)
    requires
        n >= EXACT_LIMIT,
    ensures
        grain(n) * 0x10_0000_0000_0000 <= n,
    decreases n,
{
    assert(grain(n) == 2 * grain(n / 2));
    if n / 2 >= EXACT_LIMIT {
        lemma_grain_bound(n / 2);
    } else {
        assert(grain(n / 2) == 1);
    }
}

/// The magnitude is the count itself in bytes, and at least one in every
/// other unit; below the terabyte it is at most 1024.
pub proof fn lemma_magnitude_range(size: u64)
    ensures
        unit_of(size) == Unit::B ==> thousandths(size) == 1000 * size,
        unit_of(size) != Unit::B ==> thousandths(size) >= 1000,
        unit_of(size) != Unit::TB ==> thousandths(size) <= 1024 * 1000,
{
    let n = size as nat;
    if size < EXACT_LIMIT {
        lemma_as_double_exact(n);
    } else {
        lemma_grain_bound(n);
        lemma_as_double_is_near(n);
    }
    match unit_of(size) {
        Unit::B => {},
        Unit::KB => {},
        Unit::MB => {},
        Unit::GB => {},
        Unit::TB => {},
    }
}

/// The unit in which `size` is shown.
pub fn unit_for(size: u64) -> (unit: Unit)
    ensures
        unit == unit_of(size),
{
    if size >= TB {
        Unit::TB
    } else if size >= GB {
        Unit::GB
    } else if size >= MB {
        Unit::MB
    } else if size >= KB {
        Unit::KB
    } else {
        Unit::B
    }
}

/// Rounds `num / den` to the nearest whole number, ties to the even one.
fn rounded_quotient(num: u128, den: u128) -> (near: u128)
    requires
        den > 0,
        num / den < u128::MAX,
    ensures
        near as nat == round_half_even(num as nat, den as nat),
{
    let below = num / den;
    let rest = num % den;
    if rest < den - rest || (rest == den - rest && below % 2 == 0) {
        below
    } else {
        below + 1
    }
}

/// The grain of `n`.
fn grain_for(n: u64) -> (step: u64)
    ensures
        step as nat == grain(n as nat),
        1 <= step < 4096,
{
    let mut step: u64 = 1;
    let mut rest: u64 = n;
    while rest >= EXACT_LIMIT
        invariant
            1 <= step < 4096,
            rest * step <= n,
            grain(n as nat) == step * grain(rest as nat),
        decreases rest,
    {
        proof {
            let s = step as int;
            let r = rest as int;
            assert(s < 2048) by (nonlinear_arith)
                requires
                    r >= 0x20_0000_0000_0000,
                    r * s <= 0xffff_ffff_ffff_ffff,
                    s >= 1,
            ;
            assert((r / 2) * (s * 2) <= r * s) by (nonlinear_arith)
                requires
                    r >= 0,
                    s >= 1,
            ;
            let g = grain((rest / 2) as nat) as int;
            assert(s * (2 * g) == (s * 2) * g) by (nonlinear_arith);
        }
        rest = rest / 2;
        step = step * 2;
    }
    assert(grain(rest as nat) == 1);
    assert(step * 1 == step);
    step
}

/// `n` at double precision.
fn double_of(n: u64) -> (d: u128)
    ensures
        d as nat == as_double(n as nat),
        n < EXACT_LIMIT ==> d == n,
        d <= n + 4096,
{
    let step = grain_for(n);
    let near = rounded_quotient(n as u128, step as u128);
    proof {
        lemma_round_half_even_is_nearest(n as nat, step as nat);
        if n < EXACT_LIMIT {
            lemma_as_double_exact(n as nat);
        }
        let a = near as int;
        let s = step as int;
        assert(a * s <= n + s) by (nonlinear_arith)
            requires
                2 * (a * s - n) <= s,
                s >= 1,
        ;
    }
    near * (step as u128)
}

/// The magnitude of `size` in its unit, in thousandths.
fn thousandths_for(size: u64) -> (t: u64)
    ensures
        t as nat == thousandths(size),
{
    let unit = unit_for(size);
    let den = unit.bytes() as u128;
    let num = double_of(size) * 1000;
    assert(num / den <= 0x1_0000_0000_0000) by {
        match unit {
            Unit::B => {},
            Unit::KB => {},
            Unit::MB => {},
            Unit::GB => {},
            Unit::TB => {},
        }
    }
    let near = rounded_quotient(num, den);
    near as u64
}

/// Renders a byte count with three decimals in its unit, as in `1.500 kB`.
pub fn format_size(size: u64) -> (text: String)
    ensures
        text@ == size_text(size),
{
    let t = thousandths_for(size);
    let mut text = String::new();
    push_decimal(&mut text, t / 1000);
    proof {
        reveal_strlit(".");
        reveal_strlit(" ");
    }
    text.append(".");
    push_three_digits(&mut text, t % 1000);
    text.append(" ");
    text.append(unit_for(size).label());
    assert(text@ =~= size_text(size));
    text
}

} // verus!
