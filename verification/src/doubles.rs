//! Numbers in other precisions: whole numbers as double precision numbers, and these
//! in single precision.

use vstd::prelude::*;
use vstd::arithmetic::power2::{lemma_pow2_adds, lemma_pow2_pos, lemma_pow2_unfold, pow2};
use crate::numbers::{
    float_exponent, float_fraction, float_is, float_negative, float_significand, float_size_is,
    lemma_pow2_below, lemma_pow2_values, power_of_two, FloatBits,
};
use crate::rows::Number;

verus! {

/// The place of the leading bit of a whole number.
pub open spec fn leading(size: int) -> nat
    decreases size,
{
    if size <= 1 {
        0
    } else {
        1 + leading(size / 2)
    }
}

/// A whole number in units, rounded to the nearest; a tie goes to the even one.
pub open spec fn nearest(size: int, unit: int) -> int {
    let below = size / unit;
    let rest = size % unit;
    if 2 * rest > unit || (2 * rest == unit && below % 2 == 1) {
        below + 1
    } else {
        below
    }
}

/// The bits of the double precision number nearest to a whole number. One with at
/// most 53 binary digits is kept exactly.
pub open spec fn size_bits(size: int) -> int {
    let place = leading(size) as int;
    if size <= 0 {
        0
    } else if place <= 52 {
        (place + 1022) * 0x10_0000_0000_0000 + size * pow2((52 - place) as nat)
    } else {
        (place + 1022) * 0x10_0000_0000_0000 + nearest(size, pow2((place - 52) as nat) as int)
    }
}

/// A JSON number as a double precision number.
pub open spec fn double_of(number: Number) -> FloatBits {
    match number {
        Number::Int(i) => if i < 0 {
            (0x8000_0000_0000_0000 + size_bits(-(i as int))) as u64
        } else {
            size_bits(i as int) as u64
        },
        Number::UInt(u) => size_bits(u as int) as u64,
        Number::Float(bits) => bits,
    }
}

pub proof fn lemma_leading(size: int)
    requires
        size >= 1,
    ensures
        pow2(leading(size)) <= size < pow2(leading(size) + 1),
    decreases size,
{
    lemma_pow2_values();
    lemma_pow2_unfold(1);
    if size > 1 {
        lemma_leading(size / 2);
        lemma_pow2_unfold(leading(size));
        lemma_pow2_unfold(leading(size) + 1);
    }
}

/// The significand of a whole number: 53 binary digits, or a power of two with 54
/// where rounding carried over.
pub open spec fn significand(size: int) -> int {
    let place = leading(size) as int;
    if place <= 52 {
        size * pow2((52 - place) as nat)
    } else {
        nearest(size, pow2((place - 52) as nat) as int)
    }
}

pub proof fn lemma_significand(size: int)
    requires
        1 <= size < 0x1_0000_0000_0000_0000,
    ensures
        leading(size) <= 63,
        0x10_0000_0000_0000 <= significand(size) <= 0x20_0000_0000_0000,
        leading(size) <= 52 ==> significand(size) < 0x20_0000_0000_0000,
        size_bits(size) == (leading(size) + 1022) * 0x10_0000_0000_0000 + significand(size),
{
    lemma_leading(size);
    lemma_pow2_values();
    let place = leading(size);
    if place > 63 {
        lemma_pow2_below(64, place);
        lemma_pow2_unfold(63);
        lemma_pow2_unfold(64);
    }
    if place <= 52 {
        let p = pow2((52 - place) as nat) as int;
        lemma_pow2_pos((52 - place) as nat);
        lemma_pow2_adds(place, (52 - place) as nat);
        lemma_pow2_adds(place + 1, (52 - place) as nat);
        let low = pow2(place) as int;
        let high = pow2(place + 1) as int;
        assert(low * p <= size * p < high * p) by (nonlinear_arith)
            requires
                low <= size < high,
                p >= 1,
        ;
    } else {
        let unit = pow2((place - 52) as nat) as int;
        lemma_pow2_pos((place - 52) as nat);
        lemma_pow2_adds(52, (place - 52) as nat);
        lemma_pow2_adds(53, (place - 52) as nat);
        assert(0x10_0000_0000_0000 <= size / unit < 0x20_0000_0000_0000) by (nonlinear_arith)
            requires
                0x10_0000_0000_0000 * unit <= size < 0x20_0000_0000_0000 * unit,
                unit >= 1,
        ;
    }
}

/// The bits of the double precision number nearest to a whole number.
fn nearest_double(size: u64) -> (r: FloatBits)
    ensures
        r == size_bits(size as int),
        r < 0x8000_0000_0000_0000,
{
    if size == 0 {
        return 0;
    }
    proof {
        lemma_significand(size as int);
    }
    let mut place: u32 = 0;
    let mut rest: u64 = size;
    while rest > 1
        invariant
            rest >= 1,
            leading(size as int) == place + leading(rest as int),
            leading(size as int) <= 63,
        decreases rest,
    {
        rest = rest / 2;
        place = place + 1;
    }
    let high: u64 = (place as u64 + 1022) * 0x10_0000_0000_0000;
    if place <= 52 {
        let power = power_of_two(52 - place);
        high + size * power
    } else {
        let unit = power_of_two(place - 52);
        proof {
            lemma_pow2_pos((place - 52) as nat);
            lemma_pow2_below((place - 52) as nat, 11);
            lemma_pow2_values();
        }
        let below: u64 = size / unit;
        let left: u64 = size % unit;
        let size_up = 2 * left > unit || (2 * left == unit && below % 2 == 1);
        if size_up {
            high + (below + 1)
        } else {
            high + below
        }
    }
}

/// A JSON number as a double precision number: a whole number becomes the nearest
/// one.
pub fn to_double(number: Number) -> (r: FloatBits)
    ensures
        r == double_of(number),
{
    match number {
        Number::Int(i) => if i < 0 {
            let size: u64 = (-(i as i128)) as u64;
            0x8000_0000_0000_0000 + nearest_double(size)
        } else {
            nearest_double(i as u64)
        },
        Number::UInt(u) => nearest_double(u),
        Number::Float(bits) => bits,
    }
}

/// A double precision number rounded to single precision, a tie to the even one.
/// What is too large becomes infinite; what is not finite stays as it is.
pub open spec fn single_of(bits: FloatBits) -> FloatBits {
    let sign: int = if float_negative(bits) {
        0x8000_0000_0000_0000
    } else {
        0
    };
    let exponent = float_exponent(bits);
    if exponent == 0x7ff {
        bits
    } else if exponent >= 897 {
        let rounded = nearest(bits - sign, 0x2000_0000) * 0x2000_0000;
        if rounded >= 0x47f0_0000_0000_0000 {
            (sign + 0x7ff0_0000_0000_0000) as u64
        } else {
            (sign + rounded) as u64
        }
    } else {
        let shift = 926 - if exponent == 0 {
            1
        } else {
            exponent
        };
        let steps = nearest(float_significand(bits), pow2(shift as nat) as int);
        if steps == 0 {
            sign as u64
        } else {
            (sign + size_bits(steps) - 149 * 0x10_0000_0000_0000) as u64
        }
    }
}

/// A size in units, rounded to the nearest.
fn rounded(size: u64, unit: u64) -> (r: u64)
    requires
        1 <= unit <= 0x4000_0000_0000_0000,
        size < 0x8000_0000_0000_0000,
    ensures
        r == nearest(size as int, unit as int),
        unit >= 2 ==> r <= size / 2 + 1,
{
    let below: u64 = size / unit;
    let rest: u64 = size % unit;
    proof {
        if unit >= 2 {
            assert(below <= size / 2) by (nonlinear_arith)
                requires
                    below == size / unit,
                    unit >= 2,
            ;
        }
        assert(below <= size) by (nonlinear_arith)
            requires
                below == size / unit,
                unit >= 1,
        ;
    }
    if 2 * rest > unit || (2 * rest == unit && below % 2 == 1) {
        below + 1
    } else {
        below
    }
}

/// A double precision number rounded to single precision.
pub fn to_single(bits: FloatBits) -> (r: FloatBits)
    ensures
        r == single_of(bits),
{
    let sign: u64 = if bits >= 0x8000_0000_0000_0000 {
        0x8000_0000_0000_0000
    } else {
        0
    };
    let size: u64 = bits - sign;
    let exponent: u64 = (bits / 0x10_0000_0000_0000) % 0x800;
    if exponent == 0x7ff {
        return bits;
    }
    if exponent >= 897 {
        let units = rounded(size, 0x2000_0000);
        proof {
            assert(units * 0x2000_0000 <= size + 0x2000_0000);
        }
        let near: u64 = units * 0x2000_0000;
        return if near >= 0x47f0_0000_0000_0000 {
            sign + 0x7ff0_0000_0000_0000
        } else {
            sign + near
        };
    }
    let fraction: u64 = bits % 0x10_0000_0000_0000;
    let significand: u64 = if exponent == 0 {
        fraction
    } else {
        0x10_0000_0000_0000 + fraction
    };
    let shift: u64 = 926 - if exponent == 0 {
        1
    } else {
        exponent
    };
    if shift >= 54 {
        proof {
            lemma_pow2_below(54, shift as nat);
            lemma_pow2_unfold(54);
            lemma_pow2_values();
            let unit = pow2(shift as nat) as int;
            assert(significand as int / unit == 0 && significand as int % unit == significand)
                by (nonlinear_arith)
                requires
                    0 <= significand < unit,
            ;
        }
        return sign;
    }
    let unit = power_of_two(shift as u32);
    proof {
        lemma_pow2_below(shift as nat, 53);
        lemma_pow2_below(1, shift as nat);
        lemma_pow2_unfold(1);
        lemma_pow2_values();
    }
    let steps = rounded(significand, unit);
    if steps == 0 {
        return sign;
    }
    proof {
        lemma_significand(steps as int);
    }
    sign + (nearest_double(steps) - 149 * 0x10_0000_0000_0000)
}

/// The value of a whole number that was made a double precision number: the number
/// itself where it has at most 53 binary digits, else the nearest multiple of its
/// unit.
pub open spec fn double_size(size: int) -> int {
    let place = leading(size) as int;
    if place <= 52 {
        size
    } else {
        let unit = pow2((place - 52) as nat) as int;
        nearest(size, unit) * unit
    }
}

pub proof fn lemma_size_bits(size: int)
    requires
        1 <= size < 0x1_0000_0000_0000_0000,
    ensures
        0 <= size_bits(size) < 0x8000_0000_0000_0000,
        float_size_is(size_bits(size) as u64, double_size(size)),
{
    lemma_significand(size);
    lemma_pow2_values();
    let place = leading(size) as int;
    let s = significand(size);
    let bits = size_bits(size) as u64;
    if s < 0x20_0000_0000_0000 {
        assert(float_fraction(bits) == s - 0x10_0000_0000_0000);
        assert(float_exponent(bits) == place + 1023);
        if place <= 52 {
            if place == 52 {
                assert(size * 1 == size);
            }
        }
    } else {
        assert(float_fraction(bits) == 0);
        assert(float_exponent(bits) == place + 1024);
        let unit = pow2((place - 52) as nat) as int;
        lemma_pow2_unfold((place - 51) as nat);
        assert(0x10_0000_0000_0000 * (2 * unit) == 0x20_0000_0000_0000 * unit);
    }
}

/// A whole number becomes the double precision number nearest to it: the two differ
/// by at most half a unit of the last place.
pub proof fn a_whole_number_becomes_the_nearest_double(n: i64)
    ensures
        ({
            let size = if n < 0 {
                -(n as int)
            } else {
                n as int
            };
            let value = double_size(size);
            let unit = pow2((if leading(size) <= 52 {
                0
            } else {
                leading(size) - 52
            }) as nat) as int;
            &&& float_is(double_of(Number::Int(n)), if n < 0 {
                -value
            } else {
                value
            })
            &&& -unit <= 2 * (value - size) <= unit
        }),
{
    let size = if n < 0 {
        -(n as int)
    } else {
        n as int
    };
    if size == 0 {
        assert(0 * pow2(1074) == 0) by (nonlinear_arith);
        lemma_pow2_values();
    } else {
        lemma_size_bits(size);
        let bits = size_bits(size) as u64;
        let signed = (0x8000_0000_0000_0000 + size_bits(size)) as u64;
        assert(float_fraction(signed) == float_fraction(bits));
        assert(float_exponent(signed) == float_exponent(bits));
        lemma_nearest(size);
    }
}

proof fn lemma_nearest(size: int)
    requires
        size >= 1,
    ensures
        leading(size) > 52 ==> ({
            let unit = pow2((leading(size) - 52) as nat) as int;
            -unit <= 2 * (double_size(size) - size) <= unit
        }),
{
    if leading(size) > 52 {
        let unit = pow2((leading(size) - 52) as nat) as int;
        lemma_pow2_pos((leading(size) - 52) as nat);
        let below = size / unit;
        let rest = size % unit;
        vstd::arithmetic::div_mod::lemma_fundamental_div_mod(size, unit);
        assert(unit * below == below * unit) by (nonlinear_arith);
        assert((below + 1) * unit == below * unit + unit) by (nonlinear_arith);
    }
    lemma_pow2_values();
}

/// A whole number with at most 53 binary digits is kept exactly.
pub proof fn a_small_whole_number_is_kept(n: i64)
    requires
        -0x20_0000_0000_0000 <= n <= 0x20_0000_0000_0000,
    ensures
        float_is(double_of(Number::Int(n)), n as int),
{
    a_whole_number_becomes_the_nearest_double(n);
    let size = if n < 0 {
        -(n as int)
    } else {
        n as int
    };
    if size >= 1 {
        lemma_leading(size);
        lemma_pow2_values();
        if leading(size) > 53 {
            lemma_pow2_below(54, leading(size));
            lemma_pow2_unfold(54);
        }
        if leading(size) == 53 {
            lemma_pow2_unfold(1);
            let unit = pow2((leading(size) - 52) as nat) as int;
            assert(unit == 2);
            assert(nearest(size, 2) == 0x10_0000_0000_0000);
        }
    }
}

} // verus!
