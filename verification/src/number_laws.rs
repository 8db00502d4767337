//! How numbers are rounded, laid out and spelled, and which day a number stands for.

use vstd::prelude::*;
use vstd::arithmetic::power2::{lemma_pow2_adds, lemma_pow2_pos, lemma_pow2_unfold, pow2};
use crate::doubles::{
    double_of, double_size, leading, lemma_leading, lemma_significand, lemma_size_bits, nearest,
    single_of,
};
use crate::numbers::{
    a_float_equals_one_whole_number, float_exponent, float_finite, float_is, float_negative,
    float_scale, float_significand, float_size_is, float_truncated, lemma_pow2_below,
    lemma_pow2_values, whole, FloatBits,
};
use crate::rows::Number;
use crate::table::{cast_cell, CellView};
use crate::text::{all_digits, digits_value, is_digit, spelled};

verus! {

/// Rounding goes to the nearest multiple of the unit, and to the even one of two that
/// are as near.
pub proof fn rounding_goes_to_the_nearest(size: int, unit: int)
    requires
        size >= 0,
        unit >= 1,
    ensures
        -unit <= 2 * (nearest(size, unit) * unit - size) <= unit,
        2 * (nearest(size, unit) * unit - size) == unit || 2 * (nearest(size, unit) * unit - size)
            == -unit ==> nearest(size, unit) % 2 == 0,
        nearest(size, unit) >= 0,
{
    let below = size / unit;
    let rest = size % unit;
    vstd::arithmetic::div_mod::lemma_fundamental_div_mod(size, unit);
    assert(unit * below == below * unit) by (nonlinear_arith);
    assert((below + 1) * unit == below * unit + unit) by (nonlinear_arith);
    assert(below >= 0) by (nonlinear_arith)
        requires
            size >= 0,
            unit >= 1,
            below == size / unit,
    ;
}

/// The bits of a number without its sign.
pub open spec fn without_sign(bits: FloatBits) -> int {
    if float_negative(bits) {
        bits - 0x8000_0000_0000_0000
    } else {
        bits as int
    }
}

/// Single precision keeps the sign, and what is not finite. A number of its ordinary
/// range loses the last 29 binary digits of its significand to the nearest, a tie to
/// the even one; from half a step above the largest single on, it becomes infinite.
pub proof fn single_precision_is_the_nearest(bits: FloatBits)
    ensures
        float_exponent(bits) == 0x7ff ==> single_of(bits) == bits,
        897 <= float_exponent(bits) < 0x7ff ==> {
            let size = without_sign(bits);
            let near = without_sign(single_of(bits));
            &&& float_negative(single_of(bits)) == float_negative(bits)
            &&& near == 0x7ff0_0000_0000_0000 <==> size >= 0x47ef_ffff_f000_0000
            &&& near != 0x7ff0_0000_0000_0000 ==> {
                &&& near % 0x2000_0000 == 0
                &&& -0x1000_0000 <= near - size <= 0x1000_0000
                &&& near - size == 0x1000_0000 || near - size == -0x1000_0000 ==> (near
                    / 0x2000_0000) % 2 == 0
            }
        },
{
    if 897 <= float_exponent(bits) < 0x7ff {
        rounding_goes_to_the_nearest(without_sign(bits), 0x2000_0000);
    }
}

/// Below the ordinary range, a single is a multiple of the smallest one, 2 to the power
/// of -149: the nearest multiple, a tie to the even one, with the sign kept.
pub proof fn a_small_single_is_the_nearest_multiple(bits: FloatBits) -> (steps: int)
    requires
        float_exponent(bits) < 897,
    ensures
        float_negative(single_of(bits)) == float_negative(bits),
        ({
            let unit = pow2((-149 - float_scale(bits)) as nat) as int;
            let size = float_significand(bits);
            let near = without_sign(single_of(bits));
            &&& -unit <= 2 * (steps * unit - size) <= unit
            &&& 2 * (steps * unit - size) == unit || 2 * (steps * unit - size) == -unit ==> steps % 2
                == 0
            &&& steps == 0 ==> near == 0
            &&& steps != 0 ==> float_size_is((near + 149 * 0x10_0000_0000_0000) as u64, steps)
        }),
{
    let shift = (-149 - float_scale(bits)) as nat;
    let unit = pow2(shift) as int;
    let size = float_significand(bits);
    let steps = nearest(size, unit);
    lemma_pow2_pos(shift);
    lemma_pow2_values();
    assert(shift >= 30);
    lemma_pow2_below(1, shift);
    lemma_pow2_unfold(1);
    assert(size < 0x20_0000_0000_0000);
    rounding_goes_to_the_nearest(size, unit);
    assert(steps <= size / 2 + 1) by (nonlinear_arith)
        requires
            2 * (steps * unit - size) <= unit,
            unit >= 2,
            size >= 0,
            steps >= 0,
    ;
    if steps != 0 {
        lemma_leading(steps);
        if leading(steps) > 52 {
            lemma_pow2_below(53, leading(steps));
        }
        assert(double_size(steps) == steps);
        lemma_size_bits(steps);
        lemma_significand(steps);
    }
    steps
}

/// A cell stands for the same day whether its count is a whole number or the same number
/// with a point, and a truth value counts as one or zero. An empty cell stands for none.
pub proof fn a_day_is_counted_alike(bits: FloatBits, n: i64, flag: bool)
    ensures
        float_is(bits, n as int) ==> cast_cell(CellView::Float(bits)) == cast_cell(CellView::Int(n)),
        i32::MIN <= n <= i32::MAX ==> cast_cell(CellView::Int(n)) == CellView::Date(n as i32),
        !(i32::MIN <= n <= i32::MAX) ==> cast_cell(CellView::Int(n)) == CellView::Null,
        cast_cell(CellView::Bool(flag)) == cast_cell(
            CellView::Int(
                if flag {
                    1
                } else {
                    0
                },
            ),
        ),
        cast_cell(CellView::Null) == CellView::Null,
{
    if float_is(bits, n as int) {
        lemma_truncated(bits, n as int);
    }
}

proof fn lemma_truncated(bits: FloatBits, n: int)
    requires
        float_is(bits, n),
    ensures
        float_finite(bits),
        float_truncated(bits) == n,
{
    let size = if float_negative(bits) {
        -n
    } else {
        n
    };
    if float_scale(bits) < 0 {
        let p = pow2((-float_scale(bits)) as nat) as int;
        lemma_pow2_pos((-float_scale(bits)) as nat);
        let s = float_significand(bits);
        assert(s / p == size) by (nonlinear_arith)
            requires
                s == size * p,
                p >= 1,
        ;
    }
}

/// A whole number from 2 to the power of `k` up to twice that is laid out as the exponent
/// 1023 + `k` and its digits behind the first.
pub proof fn a_whole_number_is_laid_out_by_its_leading_digit(n: i64, k: nat)
    requires
        k <= 52,
        pow2(k) <= n < pow2(k + 1),
    ensures
        double_of(Number::Int(n)) == (1023 + k) * 0x10_0000_0000_0000 + (n - pow2(k)) * pow2(
            (52 - k) as nat,
        ),
        double_of(Number::Int((-n) as i64)) == double_of(Number::Int(n)) + 0x8000_0000_0000_0000,
        double_of(Number::UInt(n as u64)) == double_of(Number::Int(n)),
{
    let size = n as int;
    lemma_pow2_pos(k);
    lemma_pow2_values();
    lemma_leading(size);
    if leading(size) < k {
        lemma_pow2_below(leading(size) + 1, k);
    }
    if leading(size) > k {
        lemma_pow2_below(k + 1, leading(size));
    }
    assert(leading(size) == k);
    lemma_significand(size);
    lemma_pow2_adds(k, (52 - k) as nat);
    let unit = pow2((52 - k) as nat) as int;
    let base = pow2(k) as int;
    assert((size - base) * unit == size * unit - base * unit) by (nonlinear_arith);
}

/// A number is whole exactly where it equals a whole number that fits a signed word, and
/// is then that number, however it is written.
pub proof fn a_whole_number_is_itself(number: Number, n: i64)
    ensures
        whole(number) == Some(n) <==> match number {
            Number::Int(i) => i == n,
            Number::UInt(u) => u == n,
            Number::Float(bits) => float_is(bits, n as int),
        },
{
    if let Number::Float(bits) = number {
        if exists|k: i64| float_is(bits, k as int) {
            let k = choose|k: i64| float_is(bits, k as int);
            if float_is(bits, n as int) {
                a_float_equals_one_whole_number(bits, k as int, n as int);
            }
        }
    }
}

/// Digits spell their number with or without a plus in front, and its opposite with a
/// minus. Nothing else spells a number.
pub proof fn a_sign_stands_in_front_of_the_digits(digits: Seq<char>, text: Seq<char>, n: int)
    requires
        all_digits(digits),
        digits.len() > 0,
    ensures
        spelled(digits) == Some(digits_value(digits)),
        spelled(seq!['+'] + digits) == Some(digits_value(digits)),
        spelled(seq!['-'] + digits) == Some(-digits_value(digits)),
        spelled(text) == Some(n) ==> text.len() > 0 && (is_digit(text[0]) || (text.len() > 1 && (
        text[0] == '+' || text[0] == '-'))) && forall|i: int| 1 <= i < text.len() ==> is_digit(#[trigger] text[i]),
{
    assert(is_digit(digits[0]));
    assert((seq!['+'] + digits).skip(1) =~= digits);
    assert((seq!['-'] + digits).skip(1) =~= digits);
    if spelled(text) == Some(n) {
        let signed = text.len() > 0 && (text[0] == '+' || text[0] == '-');
        assert forall|i: int| 1 <= i < text.len() implies is_digit(#[trigger] text[i]) by {
            if signed {
                assert(text.skip(1)[i - 1] == text[i]);
            }
        }
        if !signed {
            assert(is_digit(text[0]));
        }
    }
}

} // verus!
