//! Positional digits: how many digits a bound needs in a base, the digits of a value, and the
//! value that a sequence of digits stands for.

use vstd::arithmetic::div_mod::{
    lemma_div_denominator, lemma_div_is_ordered, lemma_div_nonincreasing, lemma_div_pos_is_pos,
    lemma_fundamental_div_mod, lemma_mod_bound, lemma_mod_breakdown, lemma_mod_decreases,
    lemma_small_mod,
};
use vstd::arithmetic::mul::lemma_mul_is_commutative;
use vstd::arithmetic::power::{
    lemma_pow0, lemma_pow1, lemma_pow_adds, lemma_pow_positive, lemma_pow_strictly_increases, pow,
};
use vstd::prelude::*;

verus! {

/// `base` to the power `exponent`, as a natural number.
pub open spec fn power(base: nat, exponent: nat) -> nat {
    pow(base as int, exponent) as nat
}

/// The digit of `value` at `position` when it is written in `base`, position 0 being the least
/// significant one.
pub open spec fn digit_at(value: nat, base: nat, position: nat) -> nat {
    (value / power(base, position)) % base
}

/// The `length` least significant digits of `value` in `base`, least significant first.
pub open spec fn digits_of(value: nat, base: nat, length: nat) -> Seq<nat> {
    Seq::new(length, |i: int| digit_at(value, base, i as nat))
}

/// The value that `digits` stand for in `base`: the sum of `digits[i] * base^i`.
pub open spec fn recompose(digits: Seq<nat>, base: nat) -> nat
    decreases digits.len(),
{
    if digits.len() == 0 {
        0
    } else {
        recompose(digits.drop_last(), base) + digits.last() * power(base, (digits.len() - 1) as nat)
    }
}

/// The digits held in machine words, as natural numbers.
pub open spec fn as_nats(digits: Seq<u64>) -> Seq<nat> {
    Seq::new(digits.len(), |i: int| digits[i] as nat)
}

/// The number of digits that every value up to `max_value` fits in when written in `base`;
/// never less than one.
pub open spec fn digit_length(max_value: nat, base: nat) -> nat
    decreases max_value,
    via digit_length_terminates
{
    if base < 2 || max_value < base {
        1
    } else {
        1 + digit_length(max_value / base, base)
    }
}

#[via_fn]
proof fn digit_length_terminates(max_value: nat, base: nat) {
    if base >= 2 && max_value >= base {
        assert(max_value / base < max_value) by (nonlinear_arith)
            requires
                base >= 2,
                max_value >= base,
        ;
    }
}

/// `value` can be written in the number of digits that `digit_length` allots to it: it lies
/// below `base^digit_length(value, base)`.
pub open spec fn representable(value: nat, base: nat) -> bool {
    value < power(base, digit_length(value, base))
}

/// A positive base has positive powers, and each power is the one before it times the base.
pub proof fn lemma_power_step(base: nat, exponent: nat)
    requires
        base > 0,
    ensures
        power(base, exponent) > 0,
        power(base, exponent) == pow(base as int, exponent),
        power(base, exponent + 1) == power(base, exponent) * base,
        power(base, 0) == 1,
{
    lemma_pow_positive(base as int, exponent);
    lemma_pow_positive(base as int, exponent + 1);
    lemma_pow_adds(base as int, exponent, 1);
    lemma_pow1(base as int);
    lemma_pow0(base as int);
}

/// In a base of two or more, a higher power is a larger number.
pub proof fn lemma_power_increases(base: nat, lower: nat, higher: nat)
    requires
        base >= 2,
        lower < higher,
    ensures
        power(base, lower) < power(base, higher),
{
    lemma_pow_positive(base as int, lower);
    lemma_pow_positive(base as int, higher);
    lemma_pow_strictly_increases(base, lower, higher);
}

/// `digit_length` is the least sufficient length: `max_value` lies below `base^length`, and,
/// unless the length is one, not below `base^(length - 1)`. Zero takes one digit.
pub proof fn lemma_digit_length_is_minimal(max_value: nat, base: nat)
    requires
        base >= 2,
    ensures
        digit_length(max_value, base) >= 1,
        max_value < power(base, digit_length(max_value, base)),
        digit_length(max_value, base) > 1 ==> power(
            base,
            (digit_length(max_value, base) - 1) as nat,
        ) <= max_value,
        digit_length(0, base) == 1,
    decreases max_value,
{
    if max_value < base {
        lemma_pow1(base as int);
    } else {
        let rest = max_value / base;
        let shorter = digit_length(rest, base);
        assert(rest < max_value && rest >= 1) by (nonlinear_arith)
            requires
                rest == max_value / base,
                base >= 2,
                max_value >= base,
        ;
        lemma_digit_length_is_minimal(rest, base);
        lemma_power_step(base, shorter);
        lemma_fundamental_div_mod(max_value as int, base as int);
        lemma_mod_bound(max_value as int, base as int);
        let upper = power(base, shorter);
        assert(base * (rest + 1) <= upper * base) by (nonlinear_arith)
            requires
                rest + 1 <= upper,
        ;
        assert(base * (rest + 1) == base * rest + base) by (nonlinear_arith);
        if shorter > 1 {
            let lower = power(base, (shorter - 1) as nat);
            lemma_power_step(base, (shorter - 1) as nat);
            assert(lower * base <= base * rest) by (nonlinear_arith)
                requires
                    lower <= rest,
            ;
        } else {
            lemma_pow1(base as int);
        }
    }
}

/// In a base of two or more every value can be written in its digits; in base one, zero
/// only; in base zero, nothing.
pub proof fn lemma_representable(value: nat, base: nat)
    ensures
        base >= 2 ==> representable(value, base),
        base == 1 ==> (representable(value, base) <==> value == 0),
        base == 0 ==> !representable(value, base),
{
    if base >= 2 {
        lemma_digit_length_is_minimal(value, base);
    } else {
        lemma_pow1(base as int);
    }
}

/// No other length has the two bounds of `digit_length`: a length that is sufficient for
/// `max_value` and not longer than needed is `digit_length(max_value, base)`.
pub proof fn lemma_digit_length_is_unique(max_value: nat, base: nat, length: nat)
    requires
        base >= 2,
        length >= 1,
        max_value < power(base, length),
        length > 1 ==> power(base, (length - 1) as nat) <= max_value,
    ensures
        length == digit_length(max_value, base),
{
    let l = digit_length(max_value, base);
    lemma_digit_length_is_minimal(max_value, base);
    if length < l {
        if length < l - 1 {
            lemma_power_increases(base, length, (l - 1) as nat);
        }
    } else if l < length {
        if l < length - 1 {
            lemma_power_increases(base, l, (length - 1) as nat);
        }
    }
}

/// A larger bound never needs fewer digits.
pub proof fn lemma_digit_length_is_monotonic(smaller: nat, larger: nat, base: nat)
    requires
        smaller <= larger,
    ensures
        digit_length(smaller, base) <= digit_length(larger, base),
    decreases larger,
{
    if base >= 2 && smaller >= base {
        lemma_div_is_ordered(smaller as int, larger as int, base as int);
        assert(larger / base < larger) by (nonlinear_arith)
            requires
                base >= 2,
                larger >= base,
        ;
        lemma_digit_length_is_monotonic(smaller / base, larger / base, base);
    }
}

/// Every digit lies below the base, and none is above the value that it is a digit of.
pub proof fn lemma_digit_below_base(value: nat, base: nat, position: nat)
    requires
        base > 0,
    ensures
        digit_at(value, base, position) < base,
        digit_at(value, base, position) <= value,
{
    let place = power(base, position);
    lemma_power_step(base, position);
    lemma_mod_bound((value / place) as int, base as int);
    lemma_mod_decreases(value / place, base);
    lemma_div_nonincreasing(value as int, place as int);
}

/// The digits of `value` stand for `value` without what lies at `base^length` and above: the
/// higher positions are dropped and nothing else is lost.
pub proof fn lemma_recompose_digits(value: nat, base: nat, length: nat)
    requires
        base > 0,
    ensures
        recompose(digits_of(value, base, length), base) == value % power(base, length),
    decreases length,
{
    let digits = digits_of(value, base, length);
    if length == 0 {
        lemma_pow0(base as int);
    } else {
        let shorter = (length - 1) as nat;
        let place = power(base, shorter);
        assert(digits.drop_last() =~= digits_of(value, base, shorter));
        lemma_recompose_digits(value, base, shorter);
        lemma_power_step(base, shorter);
        lemma_mod_breakdown(value as int, place as int, base as int);
        lemma_mul_is_commutative(place as int, ((value / place) % base) as int);
        assert(digits.last() == (value / place) % base);
    }
}

/// Writing a value in `length` digits and reading the digits back gives the value, whenever
/// the value lies below `base^length`.
pub proof fn lemma_decompose_round_trip(value: nat, base: nat, length: nat)
    requires
        value < power(base, length),
    ensures
        recompose(digits_of(value, base, length), base) == value,
{
    if base > 0 {
        lemma_recompose_digits(value, base, length);
        lemma_small_mod(value, power(base, length));
    } else if length > 0 {
        lemma_pow_adds(0, 1, (length - 1) as nat);
        lemma_pow1(0);
    } else {
        lemma_pow0(0);
    }
}

/// Whether `value` can be written in the digits that `digit_length` allots to it.
pub fn is_representable(value: u64, base: u64) -> (fits: bool)
    ensures
        fits == representable(value as nat, base as nat),
{
    proof {
        lemma_representable(value as nat, base as nat);
    }
    base >= 2 || (base == 1 && value == 0)
}

/// Writes `value` in `base` with exactly `blocks` digits, least significant first. Positions at
/// `base^blocks` and above are dropped.
pub fn decompose_to_base(value: u64, base: u64, blocks: usize) -> (digits: Vec<u64>)
    requires
        base > 0,
    ensures
        digits.len() == blocks,
        as_nats(digits@) == digits_of(value as nat, base as nat, blocks as nat),
        forall|i: int|
            0 <= i < blocks ==> (#[trigger] digits[i]) as nat == digit_at(
                value as nat,
                base as nat,
                i as nat,
            ),
{
    let mut digits: Vec<u64> = Vec::new();
    let mut rest: u64 = value;
    let mut position: usize = 0;
    proof {
        lemma_pow0(base as int);
    }
    while position < blocks
        invariant
            base > 0,
            position <= blocks,
            digits.len() == position,
            power(base as nat, position as nat) > 0,
            rest as nat == (value as nat) / power(base as nat, position as nat),
            forall|i: int|
                0 <= i < position ==> digits[i] as nat == digit_at(
                    value as nat,
                    base as nat,
                    i as nat,
                ),
        decreases blocks - position,
    {
        proof {
            let place = power(base as nat, position as nat);
            lemma_power_step(base as nat, position as nat);
            lemma_div_denominator(value as int, place as int, base as int);
        }
        digits.push(rest % base);
        rest = rest / base;
        position = position + 1;
    }
    assert(as_nats(digits@) =~= digits_of(value as nat, base as nat, blocks as nat));
    digits
}

/// The least number of digits, at least one, in which every value up to `value` can be
/// written in `base`. In a base below two, where no number of digits is enough for a value
/// other than zero, the length is one.
pub fn length_in_base(value: u64, base: u64) -> (length: usize)
    ensures
        length == digit_length(value as nat, base as nat),
        1 <= length <= 64,
        base >= 2 ==> value < power(base as nat, length as nat),
        base >= 2 && length > 1 ==> power(base as nat, (length - 1) as nat) <= value,
{
    if base < 2 {
        return 1;
    }
    let mut rest: u64 = value;
    let mut length: usize = 1;
    proof {
        lemma_pow0(2);
        assert(power(2, 0) == 1);
        assert(power(2, 0) * rest == rest);
    }
    while rest >= base
        invariant
            base >= 2,
            1 <= length <= 64,
            power(2, (length - 1) as nat) * rest <= value,
            digit_length(value as nat, base as nat) == (length - 1) + digit_length(
                rest as nat,
                base as nat,
            ),
        decreases rest,
    {
        proof {
            let shifted = power(2, (length - 1) as nat);
            let quotient = rest / base;
            lemma_power_step(2, (length - 1) as nat);
            lemma_div_pos_is_pos(rest as int, base as int);
            lemma_fundamental_div_mod(rest as int, base as int);
            lemma_mod_bound(rest as int, base as int);
            assert(2 * quotient <= rest && quotient >= 1 && quotient < rest) by (nonlinear_arith)
                requires
                    rest == base * quotient + rest % base,
                    0 <= rest % base < base,
                    base >= 2,
                    rest >= base,
                    quotient >= 0,
            ;
            assert(shifted * 2 * quotient <= value) by (nonlinear_arith)
                requires
                    shifted * rest <= value,
                    2 * quotient <= rest,
                    shifted > 0,
            ;
            if length == 64 {
                lemma_pow_strictly_increases(2, 0, 64);
                vstd::arithmetic::power2::lemma2_to64();
                vstd::arithmetic::power2::lemma_pow2(64);
                assert(power(2, 64) * quotient >= power(2, 64)) by (nonlinear_arith)
                    requires
                        quotient >= 1,
                        power(2, 64) > 0,
                ;
            }
        }
        rest = rest / base;
        length = length + 1;
    }
    proof {
        lemma_digit_length_is_minimal(value as nat, base as nat);
    }
    length
}

} // verus!
