//! The base in which scores are written: a power of two about the square root of the number
//! of values that a feature can take, so that a digit and an index both fit a small domain.

use crate::digits::{
    digit_length, lemma_digit_length_is_minimal, lemma_digit_length_is_unique, lemma_power_step,
    power,
};
use crate::error::PlanError;
use tfhe::core_crypto::prelude::UnsignedInteger;
use vstd::arithmetic::power::lemma_pow_adds;
use vstd::prelude::*;

verus! {

/// The binary logarithm of `n`, rounded down: one less than the number of binary digits of
/// `n`.
pub open spec fn floor_log2(n: nat) -> nat {
    (digit_length(n, 2) - 1) as nat
}

/// The base for tables of `dimension` rows: two to the power of half the binary logarithm of
/// `dimension`, both rounded down: `2^floor(log2(dimension) / 2)`.
pub open spec fn min_decomp_base(dimension: nat) -> nat {
    power(2, floor_log2(dimension) / 2)
}

/// A positive number lies between the power of two that its logarithm names and the next.
pub proof fn lemma_floor_log2_bounds(n: nat)
    requires
        n >= 1,
    ensures
        power(2, floor_log2(n)) <= n < power(2, floor_log2(n) + 1),
{
    lemma_digit_length_is_minimal(n, 2);
    lemma_power_step(2, 0);
}

/// The only exponent whose power of two and the next enclose `n` is `floor_log2(n)`.
pub proof fn lemma_floor_log2_is_unique(n: nat, exponent: nat)
    requires
        power(2, exponent) <= n < power(2, exponent + 1),
    ensures
        exponent == floor_log2(n),
{
    lemma_digit_length_is_unique(n, 2, exponent + 1);
}

/// The base is the greatest power of two whose square is not above the dimension: its square
/// is at most the dimension, and the square of its double is above it.
pub proof fn lemma_min_decomp_base_squared(dimension: nat)
    requires
        dimension >= 1,
    ensures
        min_decomp_base(dimension) >= 1,
        min_decomp_base(dimension) * min_decomp_base(dimension) <= dimension,
        dimension < 4 * (min_decomp_base(dimension) * min_decomp_base(dimension)),
{
    let bits = floor_log2(dimension);
    let half = bits / 2;
    let base = min_decomp_base(dimension);
    lemma_floor_log2_bounds(dimension);
    lemma_power_step(2, half);
    lemma_pow_adds(2, half, half);
    lemma_power_step(2, half + half);
    lemma_power_step(2, half + half + 1);
    assert(base * base == power(2, half + half));
    if bits == half + half {
        assert(power(2, bits + 1) == base * base * 2);
    } else {
        assert(bits == half + half + 1);
        assert(power(2, bits) == base * base * 2);
        assert(power(2, bits + 1) == base * base * 2 * 2);
    }
}

/// `UnsignedInteger::ilog2` of `tfhe` on a `usize`, which hands on to std's `usize::ilog2`:
/// the binary logarithm of `n`, rounded down, so that `n` lies between `2^bits` and the next
/// power of two. It panics on zero, which is left out here.
#[verifier::external_body]
fn ilog2(n: usize) -> (bits: u32)
    requires
        n > 0,
    ensures
        power(2, bits as nat) <= n < power(2, bits as nat + 1),
{
    UnsignedInteger::ilog2(n)
}

/// The base for a dataset, from the number of rows of its first table.
///
/// Fails with `NoTables` where there is no table, and with `EmptyTable` where the first table
/// has no row.
pub fn get_min_decomp_base(tables: &[Vec<Vec<u64>>]) -> (outcome: Result<u64, PlanError>)
    ensures
        match outcome {
            Ok(base) => tables.len() > 0 && tables[0].len() > 0 && base == min_decomp_base(
                tables[0].len() as nat,
            ),
            Err(error) => if tables.len() == 0 {
                error == PlanError::NoTables
            } else {
                error == PlanError::EmptyTable && tables[0].len() == 0
            },
        },
{
    if tables.len() == 0 {
        return Err(PlanError::NoTables);
    }
    let dimension: usize = tables[0].len();
    if dimension == 0 {
        return Err(PlanError::EmptyTable);
    }
    let bits: u32 = ilog2(dimension);
    proof {
        lemma_floor_log2_is_unique(dimension as nat, bits as nat);
        if bits >= 64 {
            vstd::arithmetic::power2::lemma2_to64();
            crate::digits::lemma_power_increases(2, 64, bits as nat + 1);
            if bits > 64 {
                crate::digits::lemma_power_increases(2, 64, bits as nat);
            }
        }
    }
    let half: u64 = (bits / 2) as u64;
    proof {
        vstd::arithmetic::power2::lemma2_to64();
        if half < 31 {
            vstd::arithmetic::power2::lemma_pow2_strictly_increases(half as nat, 31);
        }
        assert(vstd::arithmetic::power2::pow2(31) == 0x80000000);
        vstd::bits::lemma_u64_shl_is_mul(1, half);
    }
    Ok(1u64 << half)
}

} // verus!
