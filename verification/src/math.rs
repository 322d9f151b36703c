//! Numbers, vectors and colours.
//!
//! A number is held as the bits of an IEEE 754 double.

use vstd::arithmetic::power2;
use vstd::prelude::*;

use crate::text::text_eq;

verus! {

/// A double-precision number, given by its bits.
#[derive(Clone, Copy, Debug)]
pub struct Number {
    pub bits: u64,
}

/// The bits of a number without its sign.
pub open spec fn magnitude(n: Number) -> int {
    n.bits as int % 0x8000_0000_0000_0000
}

/// Whether the bits stand for no number.
pub open spec fn is_nan(n: Number) -> bool {
    magnitude(n) > 0x7ff0_0000_0000_0000
}

/// Whether the bits stand for a number that is not infinite.
pub open spec fn is_finite(n: Number) -> bool {
    magnitude(n) < 0x7ff0_0000_0000_0000
}

/// Equality of numbers: the two zeros are equal, and what is no number equals nothing.
pub open spec fn same_number(a: Number, b: Number) -> bool {
    !is_nan(a) && !is_nan(b) && (a.bits == b.bits || magnitude(a) == 0 && magnitude(b) == 0)
}

/// The whole number above zero that the bits stand for. A number from 2⁵² on is whole; below that
/// the digits behind the point must all be zero.
pub open spec fn whole_value(n: Number) -> Option<nat> {
    let exponent = n.bits as int / 0x10_0000_0000_0000;
    let digits = (0x10_0000_0000_0000 + n.bits as int % 0x10_0000_0000_0000) as nat;
    if n.bits >= 0x7ff0_0000_0000_0000 || exponent < 1023 {
        None
    } else if exponent >= 1075 {
        Some(digits * power2::pow2((exponent - 1075) as nat))
    } else if digits % power2::pow2((1075 - exponent) as nat) == 0 {
        Some(digits / power2::pow2((1075 - exponent) as nat))
    } else {
        None
    }
}

fn power_of_two(e: u64) -> (r: u64)
    requires
        e <= 63,
    ensures
        r == power2::pow2(e as nat),
{
    let mut r: u64 = 1;
    let mut i: u64 = 0;
    proof {
        power2::lemma2_to64();
    }
    while i < e
        invariant
            i <= e <= 63,
            r == power2::pow2(i as nat),
        decreases e - i,
    {
        proof {
            power2::lemma_pow2_adds(1, i as nat);
            power2::lemma2_to64();
            if i + 1 < 64 {
                power2::lemma_pow2_strictly_increases((i + 1) as nat, 64);
            }
        }
        r = r * 2;
        i += 1;
    }
    r
}

/// The position of the highest binary digit of a whole number above zero.
pub open spec fn top_digit(value: nat) -> nat
    decreases value,
{
    if value < 2 {
        0
    } else {
        1 + top_digit(value / 2)
    }
}

/// How often a unit goes into a value, rounded to the nearest whole number; where two are equally
/// near, to the even one.
pub open spec fn rounded(value: nat, unit: nat) -> nat {
    let whole = value / unit;
    let rest = value % unit;
    if 2 * rest > unit || 2 * rest == unit && whole % 2 == 1 {
        whole + 1
    } else {
        whole
    }
}

/// The leading 53 binary digits of a whole number above zero, rounded.
pub open spec fn leading_digits(value: nat) -> nat {
    let top = top_digit(value);
    if top <= 52 {
        value * power2::pow2((52 - top) as nat)
    } else {
        rounded(value, power2::pow2((top - 52) as nat))
    }
}

/// The bits of the number nearest to a whole number: its leading digits behind its exponent. The
/// first of the digits counts as one in the exponent.
pub open spec fn nearest_magnitude(value: nat) -> nat {
    if value == 0 {
        0
    } else {
        (top_digit(value) + 1022) * 0x10_0000_0000_0000 + leading_digits(value)
    }
}

/// The number nearest to an integer; where two are equally near, the one whose last digit is even.
pub open spec fn nearest(value: i64) -> Number {
    if value < 0 {
        Number { bits: (0x8000_0000_0000_0000 + nearest_magnitude(-value as nat)) as u64 }
    } else {
        Number { bits: nearest_magnitude(value as nat) as u64 }
    }
}

proof fn lemma_top_digit(value: nat)
    requires
        value > 0,
    ensures
        power2::pow2(top_digit(value)) <= value < power2::pow2(top_digit(value) + 1),
    decreases value,
{
    power2::lemma2_to64();
    if value >= 2 {
        lemma_top_digit(value / 2);
        power2::lemma_pow2_unfold(top_digit(value));
        power2::lemma_pow2_unfold(top_digit(value) + 1);
    }
}

proof fn lemma_powers()
    ensures
        power2::pow2(0) == 1,
        power2::pow2(1) == 2,
        power2::pow2(52) == 0x10_0000_0000_0000,
        power2::pow2(53) == 0x20_0000_0000_0000,
        power2::pow2(64) == 0x1_0000_0000_0000_0000,
{
    power2::lemma2_to64();
    power2::lemma_pow2_adds(32, 20);
    power2::lemma_pow2_unfold(53);
    assert(power2::pow2(52) == 0x10_0000_0000_0000) by (nonlinear_arith)
        requires
            power2::pow2(52) == power2::pow2(32) * power2::pow2(20),
            power2::pow2(32) == 0x1_0000_0000,
            power2::pow2(20) == 0x10_0000,
    ;
}

proof fn lemma_leading_digits(value: nat)
    requires
        0 < value < 0x1_0000_0000_0000_0000,
    ensures
        top_digit(value) <= 63,
        0x10_0000_0000_0000 <= leading_digits(value) <= 0x20_0000_0000_0000,
        top_digit(value) <= 52 ==> leading_digits(value) < 0x20_0000_0000_0000,
{
    let top = top_digit(value);
    lemma_powers();
    lemma_top_digit(value);
    if top > 63 {
        if top > 64 {
            power2::lemma_pow2_strictly_increases(64, top);
        }
    }
    if top <= 52 {
        let scale = power2::pow2((52 - top) as nat);
        power2::lemma_pow2_adds(top, (52 - top) as nat);
        power2::lemma_pow2_adds(top + 1, (52 - top) as nat);
        power2::lemma_pow2_pos((52 - top) as nat);
        assert(power2::pow2(top) * scale <= value * scale < power2::pow2(top + 1) * scale)
            by (nonlinear_arith)
            requires
                power2::pow2(top) <= value < power2::pow2(top + 1),
                scale > 0,
        ;
    } else {
        let unit = power2::pow2((top - 52) as nat);
        power2::lemma_pow2_adds(52, (top - 52) as nat);
        power2::lemma_pow2_adds(53, (top - 52) as nat);
        power2::lemma_pow2_pos((top - 52) as nat);
        assert(0x10_0000_0000_0000 <= value / unit < 0x20_0000_0000_0000) by (nonlinear_arith)
            requires
                0x10_0000_0000_0000 * unit <= value < 0x20_0000_0000_0000 * unit,
                unit > 0,
        ;
    }
}

impl Number {
    /// Whether two numbers are equal.
    pub fn equals(self, other: Number) -> (r: bool)
        ensures
            r == same_number(self, other),
    {
        let a: u64 = self.bits % 0x8000_0000_0000_0000;
        let b: u64 = other.bits % 0x8000_0000_0000_0000;
        a <= 0x7ff0_0000_0000_0000 && b <= 0x7ff0_0000_0000_0000 && (self.bits == other.bits || a
            == 0 && b == 0)
    }

    /// Whether the number is neither infinite nor no number at all.
    pub fn finite(self) -> (r: bool)
        ensures
            r == is_finite(self),
    {
        self.bits % 0x8000_0000_0000_0000 < 0x7ff0_0000_0000_0000
    }

    /// The number nearest to an integer.
    pub fn nearest_to(value: i64) -> (r: Number)
        ensures
            r == nearest(value),
    {
        if value == 0 {
            return Number { bits: 0 };
        }
        let size: u64 = if value > 0 {
            value as u64
        } else {
            (-(value + 1)) as u64 + 1
        };
        proof {
            lemma_leading_digits(size as nat);
        }
        let mut top: u64 = 0;
        let mut left: u64 = size;
        while left >= 2
            invariant
                size > 0,
                left > 0,
                top + top_digit(left as nat) == top_digit(size as nat),
                top_digit(size as nat) <= 63,
            decreases left,
        {
            left = left / 2;
            top += 1;
        }
        let digits: u64 = if top <= 52 {
            let scale = power_of_two(52 - top);
            assert(size * scale == leading_digits(size as nat));
            size * scale
        } else {
            let unit = power_of_two(top - 52);
            proof {
                power2::lemma_pow2_pos((top - 52) as nat);
                assert(rounded(size as nat, unit as nat) == leading_digits(size as nat));
                assert(size / unit <= 0x20_0000_0000_0000);
            }
            let whole: u64 = size / unit;
            let rest: u64 = size % unit;
            if rest > unit - rest || rest == unit - rest && whole % 2 == 1 {
                whole + 1
            } else {
                whole
            }
        };
        let bits: u64 = (top + 1022) * 0x10_0000_0000_0000 + digits;
        if value < 0 {
            Number { bits: 0x8000_0000_0000_0000 + bits }
        } else {
            Number { bits }
        }
    }

    /// The whole number above zero that this is, or the largest that fits where it is larger.
    pub fn as_index(self) -> (r: Option<u64>)
        ensures
            match whole_value(self) {
                Some(value) => r == Some(
                    if value <= u64::MAX {
                        value as u64
                    } else {
                        u64::MAX
                    },
                ),
                None => r is None,
            },
    {
        let exponent: u64 = self.bits / 0x10_0000_0000_0000;
        let digits: u64 = 0x10_0000_0000_0000 + self.bits % 0x10_0000_0000_0000;
        if self.bits >= 0x7ff0_0000_0000_0000 || exponent < 1023 {
            None
        } else if exponent >= 1075 {
            let shift: u64 = exponent - 1075;
            if shift > 11 {
                proof {
                    power2::lemma2_to64();
                    let p = power2::pow2(shift as nat);
                    if shift > 12 {
                        power2::lemma_pow2_strictly_increases(12, shift as nat);
                    }
                    assert(p >= 4096);
                    assert(digits * p > u64::MAX) by (nonlinear_arith)
                        requires
                            digits >= 0x10_0000_0000_0000u64,
                            p >= 4096,
                    ;
                }
                Some(u64::MAX)
            } else {
                let p = power_of_two(shift);
                proof {
                    power2::lemma2_to64();
                    if shift < 11 {
                        power2::lemma_pow2_strictly_increases(shift as nat, 11);
                    }
                    assert(p <= 2048);
                    assert(digits * p <= u64::MAX) by (nonlinear_arith)
                        requires
                            digits < 0x20_0000_0000_0000u64,
                            p <= 2048,
                    ;
                }
                Some(digits * p)
            }
        } else {
            let p = power_of_two(1075 - exponent);
            proof {
                power2::lemma_pow2_pos((1075 - exponent) as nat);
            }
            if digits % p == 0 {
                assert(digits / p <= digits) by (nonlinear_arith)
                    requires
                        p > 0,
                ;
                Some(digits / p)
            } else {
                None
            }
        }
    }
}

/// How far apart two whole numbers are.
pub open spec fn distance(a: nat, b: nat) -> nat {
    if a <= b {
        (b - a) as nat
    } else {
        (a - b) as nat
    }
}

proof fn lemma_rounded(value: nat, unit: nat, other: nat)
    requires
        unit > 0,
    ensures
        distance(rounded(value, unit) * unit, value) <= distance(other * unit, value),
{
    let whole = value / unit;
    let rest = value % unit;
    assert(value == whole * unit + rest && 0 <= rest < unit) by (nonlinear_arith)
        requires
            unit > 0,
            whole == value / unit,
            rest == value % unit,
    ;
    assert((whole + 1) * unit == whole * unit + unit) by (nonlinear_arith);
    if other <= whole {
        assert(other * unit <= whole * unit) by (nonlinear_arith)
            requires
                other <= whole,
        ;
    } else {
        assert(other * unit >= (whole + 1) * unit) by (nonlinear_arith)
            requires
                other >= whole + 1,
        ;
    }
}

/// The value of the number nearest to a whole one, in units of its last digit.
proof fn lemma_nearest_value(value: i64)
    requires
        value > 0,
    ensures
        ({
            let top = top_digit(value as nat);
            whole_value(nearest(value)) == Some(
                if top <= 52 {
                    value as nat
                } else {
                    rounded(value as nat, power2::pow2((top - 52) as nat)) * power2::pow2(
                        (top - 52) as nat,
                    )
                },
            )
        }),
{
    let size = value as nat;
    let top = top_digit(size);
    let leading = leading_digits(size);
    let n = nearest(value);
    lemma_powers();
    lemma_leading_digits(size);
    let exponent = n.bits as int / 0x10_0000_0000_0000;
    let digits = (0x10_0000_0000_0000 + n.bits as int % 0x10_0000_0000_0000) as nat;
    assert(n.bits == (top + 1022) * 0x10_0000_0000_0000 + leading);
    if top <= 52 {
        let scale = power2::pow2((52 - top) as nat);
        power2::lemma_pow2_pos((52 - top) as nat);
        assert(exponent == top + 1023 && digits == leading);
        assert((size * scale) % scale == 0 && (size * scale) / scale == size) by (nonlinear_arith)
            requires
                scale > 0,
        ;
        if top == 52 {
            assert(scale == 1 && (exponent - 1075) as nat == 0);
            assert(size * 1 * 1 == size);
        } else {
            assert((1075 - exponent) as nat == (52 - top) as nat);
        }
    } else {
        let unit = power2::pow2((top - 52) as nat);
        if leading < 0x20_0000_0000_0000 {
            assert(exponent == top + 1023 && digits == leading);
        } else {
            assert(exponent == top + 1024 && digits == 0x10_0000_0000_0000);
            power2::lemma_pow2_unfold((top - 51) as nat);
            assert(0x10_0000_0000_0000 * power2::pow2((top - 51) as nat) == 0x20_0000_0000_0000
                * unit) by (nonlinear_arith)
                requires
                    power2::pow2((top - 51) as nat) == 2 * unit,
            ;
        }
    }
}

/// The value of a number that is not below 2 to the given power is a whole count of the units that
/// such numbers are told apart by.
proof fn lemma_value_in_units(n: Number, top: nat) -> (count: nat)
    requires
        top > 52,
        whole_value(n) is Some,
        whole_value(n)->0 >= power2::pow2(top),
    ensures
        whole_value(n)->0 == count * power2::pow2((top - 52) as nat),
{
    let exponent = n.bits as int / 0x10_0000_0000_0000;
    let digits = (0x10_0000_0000_0000 + n.bits as int % 0x10_0000_0000_0000) as nat;
    let value = whole_value(n)->0;
    let unit = power2::pow2((top - 52) as nat);
    lemma_powers();
    if exponent < 1075 {
        let scale = power2::pow2((1075 - exponent) as nat);
        power2::lemma_pow2_pos((1075 - exponent) as nat);
        assert(digits / scale <= digits) by (nonlinear_arith)
            requires
                scale > 0,
        ;
        if top > 53 {
            power2::lemma_pow2_strictly_increases(53, top);
        }
        assert(false);
        0
    } else {
        let shift = (exponent - 1075) as nat;
        let scale = power2::pow2(shift);
        power2::lemma_pow2_pos(shift);
        power2::lemma_pow2_adds(53, shift);
        assert(digits * scale < 0x20_0000_0000_0000 * scale) by (nonlinear_arith)
            requires
                digits < 0x20_0000_0000_0000,
                scale > 0,
        ;
        if shift < top - 52 {
            if 53 + shift < top {
                power2::lemma_pow2_strictly_increases(53 + shift, top);
            }
            assert(false);
        }
        let more = power2::pow2((shift - (top - 52)) as nat);
        power2::lemma_pow2_adds((top - 52) as nat, (shift - (top - 52)) as nat);
        assert(digits * (unit * more) == (digits * more) * unit) by (nonlinear_arith);
        digits * more
    }
}

/// No whole number that a number can be lies nearer to an integer above zero than the one it is
/// turned into.
pub proof fn law_nearest_is_nearest(value: i64, other: Number)
    requires
        value > 0,
        whole_value(other) is Some,
    ensures
        whole_value(nearest(value)) matches Some(found) && distance(found, value as nat)
            <= distance(whole_value(other)->0, value as nat),
{
    let size = value as nat;
    let top = top_digit(size);
    lemma_nearest_value(value);
    if top > 52 {
        let unit = power2::pow2((top - 52) as nat);
        power2::lemma_pow2_pos((top - 52) as nat);
        if whole_value(other)->0 >= power2::pow2(top) {
            let count = lemma_value_in_units(other, top);
            lemma_rounded(size, unit, count);
        } else {
            lemma_powers();
            lemma_top_digit(size);
            power2::lemma_pow2_adds(52, (top - 52) as nat);
            lemma_rounded(size, unit, 0x10_0000_0000_0000);
        }
    }
}

/// An integer above zero of up to 53 binary digits is turned into a number that is that integer.
pub proof fn law_small_integers_are_exact(value: i64)
    requires
        0 < value <= 0x20_0000_0000_0000,
    ensures
        whole_value(nearest(value)) == Some(value as nat),
{
    let top = top_digit(value as nat);
    lemma_nearest_value(value);
    lemma_powers();
    lemma_top_digit(value as nat);
    if top > 52 {
        if top > 53 {
            power2::lemma_pow2_strictly_increases(53, top);
        }
        assert((top - 52) as nat == 1);
        let unit = power2::pow2((top - 52) as nat);
        assert(unit == 2 && value as nat == 0x20_0000_0000_0000nat);
        assert(rounded(0x20_0000_0000_0000, 2) == 0x10_0000_0000_0000);
        assert(rounded(value as nat, unit) * unit == 0x10_0000_0000_0000nat * 2);
    }
}

/// The number nearest to a negative integer is that nearest to the positive one with the sign set.
pub proof fn law_sign_is_kept(value: i64)
    requires
        value > 0,
    ensures
        nearest((-value) as i64).bits == 0x8000_0000_0000_0000 + nearest(value).bits,
{
    lemma_leading_digits(value as nat);
}

/// A vector.
#[derive(Clone, Copy, Debug)]
pub struct Vector3 {
    pub x: Number,
    pub y: Number,
    pub z: Number,
}

/// Equality of vectors, coordinate by coordinate.
pub open spec fn same_vector(a: Vector3, b: Vector3) -> bool {
    same_number(a.x, b.x) && same_number(a.y, b.y) && same_number(a.z, b.z)
}

/// The vector of length zero.
pub open spec fn zero_vector() -> Vector3 {
    Vector3 { x: Number { bits: 0 }, y: Number { bits: 0 }, z: Number { bits: 0 } }
}

impl Vector3 {
    /// The vector with the given coordinates.
    pub fn new(x: Number, y: Number, z: Number) -> (r: Vector3)
        ensures
            r == (Vector3 { x, y, z }),
    {
        Vector3 { x, y, z }
    }

    /// The vector of length zero.
    pub fn zero() -> (r: Vector3)
        ensures
            r == zero_vector(),
    {
        let zero = Number { bits: 0 };
        Vector3::new(zero, zero, zero)
    }

    /// Whether two vectors are equal.
    pub fn equals(self, other: Vector3) -> (r: bool)
        ensures
            r == same_vector(self, other),
    {
        self.x.equals(other.x) && self.y.equals(other.y) && self.z.equals(other.z)
    }

    /// The coordinate with the given name.
    pub fn coordinate(self, key: &str) -> (r: Option<Number>)
        ensures
            r == (if key@ == "X"@ {
                Some(self.x)
            } else if key@ == "Y"@ {
                Some(self.y)
            } else if key@ == "Z"@ {
                Some(self.z)
            } else {
                None::<Number>
            }),
    {
        if text_eq(key, "X") {
            Some(self.x)
        } else if text_eq(key, "Y") {
            Some(self.y)
        } else if text_eq(key, "Z") {
            Some(self.z)
        } else {
            None
        }
    }
}

impl Default for Vector3 {
    fn default() -> (r: Vector3)
        ensures
            r == zero_vector(),
    {
        Vector3::zero()
    }
}

/// A colour.
#[derive(Clone, Copy, Debug)]
pub struct Color3 {
    pub r: Number,
    pub g: Number,
    pub b: Number,
}

/// Equality of colours, channel by channel.
pub open spec fn same_color(a: Color3, b: Color3) -> bool {
    same_number(a.r, b.r) && same_number(a.g, b.g) && same_number(a.b, b.b)
}

/// The grey of new parts: 0.6392156863 in each channel.
pub open spec fn gray_color() -> Color3 {
    let level = Number { bits: 0x3fe4_7474_7477_f550 };
    Color3 { r: level, g: level, b: level }
}

impl Color3 {
    /// The colour with the given channels.
    pub fn new(r: Number, g: Number, b: Number) -> (color: Color3)
        ensures
            color == (Color3 { r, g, b }),
    {
        Color3 { r, g, b }
    }

    /// The grey of new parts.
    pub fn gray() -> (r: Color3)
        ensures
            r == gray_color(),
    {
        let level = Number { bits: 0x3fe4_7474_7477_f550 };
        Color3::new(level, level, level)
    }

    /// Whether two colours are equal.
    pub fn equals(self, other: Color3) -> (r: bool)
        ensures
            r == same_color(self, other),
    {
        self.r.equals(other.r) && self.g.equals(other.g) && self.b.equals(other.b)
    }

    /// The channel with the given name.
    pub fn channel(self, key: &str) -> (r: Option<Number>)
        ensures
            r == (if key@ == "R"@ {
                Some(self.r)
            } else if key@ == "G"@ {
                Some(self.g)
            } else if key@ == "B"@ {
                Some(self.b)
            } else {
                None::<Number>
            }),
    {
        if text_eq(key, "R") {
            Some(self.r)
        } else if text_eq(key, "G") {
            Some(self.g)
        } else if text_eq(key, "B") {
            Some(self.b)
        } else {
            None
        }
    }
}

impl Default for Color3 {
    fn default() -> (r: Color3)
        ensures
            r == gray_color(),
    {
        Color3::gray()
    }
}

impl PartialEq for Number {
    fn eq(&self, other: &Number) -> (r: bool) {
        self.equals(*other)
    }
}

impl vstd::std_specs::cmp::PartialEqSpecImpl for Number {
    open spec fn obeys_eq_spec() -> bool {
        true
    }

    open spec fn eq_spec(&self, other: &Number) -> bool {
        same_number(*self, *other)
    }
}

impl PartialEq for Vector3 {
    fn eq(&self, other: &Vector3) -> (r: bool) {
        self.equals(*other)
    }
}

impl vstd::std_specs::cmp::PartialEqSpecImpl for Vector3 {
    open spec fn obeys_eq_spec() -> bool {
        true
    }

    open spec fn eq_spec(&self, other: &Vector3) -> bool {
        same_vector(*self, *other)
    }
}

impl PartialEq for Color3 {
    fn eq(&self, other: &Color3) -> (r: bool) {
        self.equals(*other)
    }
}

impl vstd::std_specs::cmp::PartialEqSpecImpl for Color3 {
    open spec fn obeys_eq_spec() -> bool {
        true
    }

    open spec fn eq_spec(&self, other: &Color3) -> bool {
        same_color(*self, *other)
    }
}

// ---------------------------------------------------------------------------------------------
// Laws of equality
// ---------------------------------------------------------------------------------------------

/// A number is finite, or infinite, or none at all, by the bits of its exponent and its digits. What is
/// no number equals nothing, not even itself; everything else equals itself, and the two zeros equal
/// each other.
pub proof fn law_numbers_compare(a: Number, b: Number)
    ensures
        is_finite(a) <==> (a.bits as int / 0x10_0000_0000_0000) % 0x800 != 0x7ff,
        is_nan(a) <==> (a.bits as int / 0x10_0000_0000_0000) % 0x800 == 0x7ff && a.bits as int
            % 0x10_0000_0000_0000 != 0,
        same_number(a, a) <==> !is_nan(a),
        same_number(a, b) == same_number(b, a),
        same_number(Number { bits: 0 }, Number { bits: 0x8000_0000_0000_0000 }),
        same_number(a, b) && a.bits != b.bits ==> a.bits as int % 0x8000_0000_0000_0000 == 0 && b.bits as int
            % 0x8000_0000_0000_0000 == 0,
{
    let x = a.bits as int;
    let high = x / 0x10_0000_0000_0000;
    assert(x == high * 0x10_0000_0000_0000 + x % 0x10_0000_0000_0000);
    assert(high < 0x1000);
    assert(x % 0x8000_0000_0000_0000 == (high % 0x800) * 0x10_0000_0000_0000 + x
        % 0x10_0000_0000_0000) by {
        if high < 0x800 {
            assert(high % 0x800 == high);
        } else {
            assert(high % 0x800 == high - 0x800);
        }
    }
}

/// Vectors and colors are equal where they are equal in each of their numbers.
pub proof fn law_vectors_compare(a: Vector3, b: Vector3, c: Color3, d: Color3)
    ensures
        same_vector(a, b) <==> same_number(a.x, b.x) && same_number(a.y, b.y) && same_number(a.z, b.z),
        same_color(c, d) <==> same_number(c.r, d.r) && same_number(c.g, d.g) && same_number(c.b, d.b),
{
}

} // verus!
