//! Numbers as a change log carries them: when one is whole, and when it is
//! finite.

use vstd::prelude::*;
use vstd::arithmetic::power2::{lemma_pow2_pos, lemma_pow2_unfold, pow2};
use crate::rows::Number;

verus! {

/// A double precision number, by its bits.
pub type FloatBits = u64;

/// The sign bit of a double precision number.
pub open spec fn float_negative(bits: u64) -> bool {
    bits >= 0x8000_0000_0000_0000
}

/// The exponent field of a double precision number.
pub open spec fn float_exponent(bits: u64) -> int {
    (bits as int / 0x10_0000_0000_0000) % 0x800
}

/// The fraction field of a double precision number.
pub open spec fn float_fraction(bits: u64) -> int {
    bits as int % 0x10_0000_0000_0000
}

/// The significand: with the hidden bit where the number is not subnormal.
pub open spec fn float_significand(bits: u64) -> int {
    if float_exponent(bits) == 0 {
        float_fraction(bits)
    } else {
        0x10_0000_0000_0000 + float_fraction(bits)
    }
}

/// The power of two that the significand is multiplied by.
pub open spec fn float_scale(bits: u64) -> int {
    if float_exponent(bits) == 0 {
        -1074
    } else {
        float_exponent(bits) - 1075
    }
}

/// Whether the number is neither infinite nor a NaN.
pub open spec fn float_finite(bits: u64) -> bool {
    float_exponent(bits) != 0x7ff
}

/// A double precision number without its sign and without what is behind the point.
pub open spec fn float_whole_size(bits: u64) -> int {
    if float_scale(bits) >= 0 {
        float_significand(bits) * pow2(float_scale(bits) as nat)
    } else {
        float_significand(bits) / pow2((-float_scale(bits)) as nat) as int
    }
}

/// A double precision number without what is behind the point.
pub open spec fn float_truncated(bits: u64) -> int {
    if float_negative(bits) {
        -float_whole_size(bits)
    } else {
        float_whole_size(bits)
    }
}

/// Whether a double precision number has exactly the value of a whole number
/// without sign.
pub open spec fn float_size_is(bits: u64, size: int) -> bool {
    &&& float_finite(bits)
    &&& if float_scale(bits) >= 0 {
        size == float_significand(bits) * pow2(float_scale(bits) as nat)
    } else {
        float_significand(bits) == size * pow2((-float_scale(bits)) as nat)
    }
}

/// Whether a double precision number has exactly the value of a whole number.
pub open spec fn float_is(bits: u64, n: int) -> bool {
    if float_negative(bits) {
        float_size_is(bits, -n)
    } else {
        float_size_is(bits, n)
    }
}

/// A power of two.
pub(crate) fn power_of_two(k: u32) -> (r: u64)
    requires
        k < 64,
    ensures
        r == pow2(k as nat),
{
    let mut r: u64 = 1;
    let mut i: u32 = 0;
    proof {
        lemma_pow2_values();
    }
    while i < k
        invariant
            i <= k < 64,
            r == pow2(i as nat),
        decreases k - i,
    {
        proof {
            lemma_pow2_unfold((i + 1) as nat);
            lemma_pow2_below(i as nat, 62);
            lemma_pow2_values();
        }
        r = 2 * r;
        i = i + 1;
    }
    r
}

pub(crate) proof fn lemma_pow2_values()
    ensures
        pow2(0) == 1,
        pow2(10) == 0x400,
        pow2(11) == 0x800,
        pow2(52) == 0x10_0000_0000_0000,
        pow2(53) == 0x20_0000_0000_0000,
        pow2(62) == 0x4000_0000_0000_0000,
{
    vstd::arithmetic::power2::lemma2_to64();
    vstd::arithmetic::power2::lemma2_to64_rest();
}

pub(crate) proof fn lemma_pow2_below(a: nat, b: nat)
    requires
        a <= b,
    ensures
        pow2(a) <= pow2(b),
    decreases b - a,
{
    if a < b {
        lemma_pow2_below(a, (b - 1) as nat);
        lemma_pow2_unfold(b);
        lemma_pow2_pos((b - 1) as nat);
    }
}

/// The whole number that a double precision number equals, without its sign, if
/// it is whole and at most 2 to the power of 63.
fn whole_size(bits: u64) -> (r: Option<u64>)
    ensures
        match r {
            Some(size) => float_size_is(bits, size as int) && size <= 0x8000_0000_0000_0000,
            None => forall|size: int|
                0 <= size <= 0x8000_0000_0000_0000 ==> !float_size_is(bits, size),
        },
{
    let exponent: u64 = (bits / 0x10_0000_0000_0000) % 0x800;
    let fraction: u64 = bits % 0x10_0000_0000_0000;
    if exponent == 0x7ff {
        return None;
    }
    if exponent == 0 {
        if fraction == 0 {
            assert(0 * pow2(1074) == 0) by (nonlinear_arith);
            return Some(0);
        }
        proof {
            lemma_pow2_below(53, 1074);
            lemma_pow2_values();
            assert forall|size: int| 0 <= size <= 0x8000_0000_0000_0000 implies !float_size_is(
                bits,
                size,
            ) by {
                if size == 0 {
                    assert(0 * pow2(1074) == 0) by (nonlinear_arith);
                } else {
                    let p = pow2(1074) as int;
                    assert(size * p >= p) by (nonlinear_arith)
                        requires
                            size >= 1,
                            p >= 0,
                    ;
                }
            }
        }
        return None;
    }
    let significand: u64 = 0x10_0000_0000_0000 + fraction;
    if exponent >= 1075 {
        let shift: u64 = exponent - 1075;
        if shift > 11 {
            proof {
                lemma_pow2_below(12, shift as nat);
                lemma_pow2_values();
                lemma_pow2_unfold(12);
                let p = pow2(shift as nat) as int;
                assert(significand * p > 0x8000_0000_0000_0000) by (nonlinear_arith)
                    requires
                        significand >= 0x10_0000_0000_0000,
                        p >= 0x1000,
                ;
            }
            return None;
        }
        let power: u64 = power_of_two(shift as u32);
        proof {
            lemma_pow2_below(shift as nat, 11);
            lemma_pow2_values();
            assert(significand * power < 0x1_0000_0000_0000_0000) by (nonlinear_arith)
                requires
                    significand < 0x20_0000_0000_0000,
                    0 <= power <= 0x800,
            ;
        }
        let size: u64 = significand * power;
        if size <= 0x8000_0000_0000_0000 {
            return Some(size);
        }
        return None;
    }
    let shift: u64 = 1075 - exponent;
    if shift >= 53 {
        proof {
            lemma_pow2_below(53, shift as nat);
            lemma_pow2_values();
            assert forall|size: int| 0 <= size <= 0x8000_0000_0000_0000 implies !float_size_is(
                bits,
                size,
            ) by {
                let p = pow2(shift as nat) as int;
                if size == 0 {
                    assert(0 * p == 0) by (nonlinear_arith);
                } else {
                    assert(size * p >= p) by (nonlinear_arith)
                        requires
                            size >= 1,
                            p >= 0,
                    ;
                }
            }
        }
        return None;
    }
    let power: u64 = power_of_two(shift as u32);
    proof {
        lemma_pow2_pos(shift as nat);
    }
    let size: u64 = significand / power;
    let rest: u64 = significand % power;
    proof {
        vstd::arithmetic::div_mod::lemma_fundamental_div_mod(significand as int, power as int);
        assert(power * size == size * power) by (nonlinear_arith);
        assert(size <= significand) by (nonlinear_arith)
            requires
                power >= 1,
                power * size + rest == significand,
                rest >= 0,
        ;
    }
    if rest == 0 {
        return Some(size);
    }
    proof {
        assert forall|n: int| 0 <= n <= 0x8000_0000_0000_0000 implies !float_size_is(bits, n) by {
            if significand == n * power {
                vstd::arithmetic::div_mod::lemma_mod_multiples_basic(n, power as int);
            }
        }
    }
    None
}

/// A double precision number without what is behind the point, if that fits.
pub fn whole_part(bits: FloatBits) -> (r: Option<i32>)
    ensures
        match r {
            Some(n) => float_finite(bits) && n == float_truncated(bits),
            None => !(float_finite(bits) && i32::MIN <= float_truncated(bits) <= i32::MAX),
        },
{
    let exponent: u64 = (bits / 0x10_0000_0000_0000) % 0x800;
    let fraction: u64 = bits % 0x10_0000_0000_0000;
    if exponent == 0x7ff {
        return None;
    }
    if exponent >= 1075 {
        proof {
            let p = pow2((exponent - 1075) as nat) as int;
            let significand = float_significand(bits);
            lemma_pow2_pos((exponent - 1075) as nat);
            assert(significand * p >= 0x10_0000_0000_0000) by (nonlinear_arith)
                requires
                    significand >= 0x10_0000_0000_0000,
                    p >= 1,
            ;
        }
        return None;
    }
    let significand: u64 = if exponent == 0 {
        fraction
    } else {
        0x10_0000_0000_0000 + fraction
    };
    let shift: u64 = if exponent == 0 {
        1074
    } else {
        1075 - exponent
    };
    if shift >= 53 {
        proof {
            lemma_pow2_below(53, shift as nat);
            lemma_pow2_values();
            vstd::arithmetic::div_mod::lemma_basic_div(
                significand as int,
                pow2(shift as nat) as int,
            );
        }
        return Some(0);
    }
    let power: u64 = power_of_two(shift as u32);
    proof {
        lemma_pow2_pos(shift as nat);
    }
    let size: u64 = significand / power;
    if bits >= 0x8000_0000_0000_0000 {
        if size <= 0x8000_0000 {
            return Some((-(size as i64)) as i32);
        }
    } else if size <= 0x7fff_ffff {
        return Some(size as i32);
    }
    None
}

/// A whole number that a JSON number stands for, if it is whole and fits a
/// signed word.
pub open spec fn whole(number: Number) -> Option<i64> {
    match number {
        Number::Int(i) => Some(i),
        Number::UInt(u) => if u <= i64::MAX {
            Some(u as i64)
        } else {
            None
        },
        Number::Float(bits) => if exists|n: i64| float_is(bits, n as int) {
            Some(choose|n: i64| float_is(bits, n as int))
        } else {
            None
        },
    }
}

/// A double precision number equals at most one whole number.
pub proof fn a_float_equals_one_whole_number(bits: u64, a: int, b: int)
    requires
        float_is(bits, a),
        float_is(bits, b),
    ensures
        a == b,
{
    let x = if float_negative(bits) {
        -a
    } else {
        a
    };
    let y = if float_negative(bits) {
        -b
    } else {
        b
    };
    if float_scale(bits) < 0 {
        let p = pow2((-float_scale(bits)) as nat) as int;
        lemma_pow2_pos((-float_scale(bits)) as nat);
        assert(x == y) by (nonlinear_arith)
            requires
                x * p == y * p,
                p >= 1,
        ;
    }
}

/// A JSON whole number, or a float with no fractional part, as a signed word.
pub fn whole_number(number: Number) -> (r: Option<i64>)
    ensures
        r == whole(number),
{
    match number {
        Number::Int(i) => Some(i),
        Number::UInt(u) => if u <= 0x7fff_ffff_ffff_ffff {
            Some(u as i64)
        } else {
            None
        },
        Number::Float(bits) => {
            let negative = bits >= 0x8000_0000_0000_0000;
            let size = whole_size(bits);
            let found: Option<i64> = match size {
                Some(size) => if negative {
                    if size == 0x8000_0000_0000_0000 {
                        Some(i64::MIN)
                    } else {
                        Some(-(size as i64))
                    }
                } else if size < 0x8000_0000_0000_0000 {
                    Some(size as i64)
                } else {
                    None
                },
                None => None,
            };
            proof {
                match found {
                    Some(n) => {
                        assert(float_is(bits, n as int));
                        let m = choose|m: i64| float_is(bits, m as int);
                        a_float_equals_one_whole_number(bits, n as int, m as int);
                    },
                    None => {
                        assert forall|n: i64| !float_is(bits, n as int) by {
                            if float_is(bits, n as int) {
                                lemma_size_not_negative(
                                    bits,
                                    if float_negative(bits) {
                                        -(n as int)
                                    } else {
                                        n as int
                                    },
                                );
                                match size {
                                    Some(s) => {
                                        a_float_equals_one_whole_number(
                                            bits,
                                            n as int,
                                            if float_negative(bits) {
                                                -(s as int)
                                            } else {
                                                s as int
                                            },
                                        );
                                    },
                                    None => {},
                                }
                            }
                        }
                    },
                }
            }
            found
        },
    }
}

proof fn lemma_size_not_negative(bits: u64, size: int)
    requires
        float_size_is(bits, size),
    ensures
        size >= 0,
{
    let s = float_significand(bits);
    if float_scale(bits) >= 0 {
        let p = pow2(float_scale(bits) as nat) as int;
        lemma_pow2_pos(float_scale(bits) as nat);
        assert(s * p >= 0) by (nonlinear_arith)
            requires
                s >= 0,
                p >= 0,
        ;
    } else {
        let p = pow2((-float_scale(bits)) as nat) as int;
        lemma_pow2_pos((-float_scale(bits)) as nat);
        assert(size >= 0) by (nonlinear_arith)
            requires
                s == size * p,
                s >= 0,
                p >= 1,
        ;
    }
}

/// Whether a double precision number is neither infinite nor a NaN.
pub fn is_finite(bits: FloatBits) -> (r: bool)
    ensures
        r == float_finite(bits),
{
    (bits / 0x10_0000_0000_0000) % 0x800 != 0x7ff
}

} // verus!
