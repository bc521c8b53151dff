//! What the containers of the evaluation backend are filled with: messages scaled into the
//! high bits of a word, words rounded back to messages, and lookup tables laid out as the
//! coefficients that a table lookup under encryption reads.

use crate::digits::{lemma_power_step, power};
use crate::error::PlanError;
use crate::lookup::RowLookupTable;
use crate::tables::row_max;
use vstd::arithmetic::div_mod::{lemma_div_by_multiple, lemma_fundamental_div_mod, lemma_mod_bound};
use vstd::bits::{lemma_u64_shl_is_mul, lemma_u64_shr_is_div};
use vstd::prelude::*;

verus! {

/// The parameter sets that lookups can be evaluated with.
#[derive(Debug, Clone, Copy, PartialEq, Eq, Structural)]
pub enum ParameterChoice {
    /// Two bits of message and two bits of carry.
    Message2Carry2,
    /// Three bits of message and three bits of carry.
    Message3Carry3,
}

/// The parameter set for a base: base 4 goes with two bits of message and carry, base 8 with
/// three. For no other base is there a set.
pub fn get_params_multi_bit_gpu(total_bits: u64) -> (choice: Option<ParameterChoice>)
    ensures
        choice == if total_bits == 4 {
            Some(ParameterChoice::Message2Carry2)
        } else if total_bits == 8 {
            Some(ParameterChoice::Message3Carry3)
        } else {
            None
        },
{
    if total_bits == 4 {
        Some(ParameterChoice::Message2Carry2)
    } else if total_bits == 8 {
        Some(ParameterChoice::Message3Carry3)
    } else {
        None
    }
}

/// The factor that scales a message into the high bits of a word, below one bit of padding:
/// `2^63 / modulus`.
pub open spec fn scaling_factor(modulus: nat) -> nat {
    0x8000_0000_0000_0000nat / modulus
}

/// The word that stands for a message: the message, reduced by the modulus, times the
/// scaling factor.
pub open spec fn encoded(value: nat, modulus: nat, delta: nat) -> nat {
    (value % modulus) * delta
}

/// The message that a word stands for: the word divided by the scaling factor, rounded by
/// the bit below the factor, which counts as a whole where it is set.
pub open spec fn decoded(word: u64, delta: u64) -> u64 {
    (word.wrapping_add((word & (delta >> 1)) << 1) / delta) as u64
}

/// The scaling factor for messages below `modulus`.
pub fn delta_for(modulus: u64) -> (delta: u64)
    requires
        modulus > 0,
    ensures
        delta == scaling_factor(modulus as nat),
{
    assert(1u64 << 63 == 0x8000_0000_0000_0000u64) by (bit_vector);
    (1u64 << 63) / modulus
}

/// The words that stand for `values`, one for each.
pub fn encode_list(values: &[u64], modulus: u64, delta: u64) -> (words: Vec<u64>)
    requires
        modulus > 0,
        (modulus - 1) * delta <= u64::MAX,
    ensures
        words.len() == values.len(),
        forall|i: int|
            0 <= i < values.len() ==> (#[trigger] words[i]) == encoded(
                values[i] as nat,
                modulus as nat,
                delta as nat,
            ),
{
    let mut words: Vec<u64> = Vec::new();
    let mut i: usize = 0;
    while i < values.len()
        invariant
            modulus > 0,
            (modulus - 1) * delta <= u64::MAX,
            i <= values.len(),
            words.len() == i,
            forall|k: int|
                0 <= k < i ==> (#[trigger] words[k]) == encoded(
                    values[k] as nat,
                    modulus as nat,
                    delta as nat,
                ),
        decreases values.len() - i,
    {
        let message: u64 = values[i] % modulus;
        assert(message * delta <= (modulus - 1) * delta) by (nonlinear_arith)
            requires
                message <= modulus - 1,
                delta >= 0,
        ;
        words.push(message * delta);
        i = i + 1;
    }
    words
}

/// The messages that `words` stand for, one for each.
pub fn decode_list(words: &[u64], delta: u64) -> (values: Vec<u64>)
    requires
        delta > 0,
    ensures
        values.len() == words.len(),
        forall|i: int| 0 <= i < words.len() ==> (#[trigger] values[i]) == decoded(words[i], delta),
{
    let rounding_bit: u64 = delta >> 1;
    let mut values: Vec<u64> = Vec::new();
    let mut i: usize = 0;
    while i < words.len()
        invariant
            delta > 0,
            rounding_bit == delta >> 1,
            i <= words.len(),
            values.len() == i,
            forall|k: int| 0 <= k < i ==> (#[trigger] values[k]) == decoded(words[k], delta),
        decreases words.len() - i,
    {
        let word: u64 = words[i];
        let rounding: u64 = (word & rounding_bit) << 1;
        values.push(word.wrapping_add(rounding) / delta);
        i = i + 1;
    }
    values
}

proof fn lemma_rounding_in_shifts(word: u64, bits: u64, noise: u64)
    by (bit_vector)
    requires
        bits < 64,
        word & (((1u64 << bits) - 1) as u64) == 0,
        noise < ((1u64 << bits) >> 1),
    ensures
        ({
            let raised = word.wrapping_add(noise);
            raised.wrapping_add((raised & ((1u64 << bits) >> 1)) << 1) >> bits == word >> bits
        }),
        ({
            let lowered = word.wrapping_sub(noise);
            lowered.wrapping_add((lowered & ((1u64 << bits) >> 1)) << 1) >> bits == word >> bits
        }),
{
}

proof fn lemma_shifted_has_no_low_bits(message: u64, bits: u64)
    by (bit_vector)
    requires
        bits < 64,
    ensures
        (message << bits) & (((1u64 << bits) - 1) as u64) == 0,
        (1u64 << bits) >> 1 == (1u64 << bits) / 2,
{
}

/// Decoding takes noise away: where the scaling factor is a power of two, a word that stands
/// for a message still decodes to the message after less than half the factor was added to
/// it or taken from it.
pub proof fn lemma_decoding_rounds_noise_away(message: u64, bits: u64, noise: u64)
    requires
        bits < 64,
        message * power(2, bits as nat) <= u64::MAX,
        2 * noise < power(2, bits as nat),
    ensures
        ({
            let delta = power(2, bits as nat) as u64;
            let word = (message * delta) as u64;
            &&& decoded(word, delta) == message
            &&& decoded(word.wrapping_add(noise), delta) == message
            &&& decoded(word.wrapping_sub(noise), delta) == message
        }),
{
    let scale = power(2, bits as nat);
    lemma_power_step(2, bits as nat);
    vstd::bits::lemma_u64_pow2_no_overflow(bits as nat);
    lemma_u64_shl_is_mul(1, bits);
    lemma_u64_shl_is_mul(message, bits);
    let delta = scale as u64;
    let word = (message * delta) as u64;
    assert(delta == vstd::arithmetic::power2::pow2(bits as nat));
    assert(delta == 1u64 << bits);
    assert(word == message << bits);
    assert(word.wrapping_add(0) == word && word.wrapping_sub(0) == word) by (bit_vector);
    lemma_div_by_multiple(message as int, delta as int);
    assert(word as int / delta as int == message);
    if bits == 0 {
        assert(noise == 0);
        assert(forall|w: u64| w.wrapping_add((w & (1u64 >> 1)) << 1) == w) by (bit_vector);
        assert(decoded(word, delta) == message);
    } else {
        lemma_power_step(2, (bits - 1) as nat);
        lemma_shifted_has_no_low_bits(message, bits);
        assert(noise < ((1u64 << bits) >> 1));
        let raised = word.wrapping_add(noise);
        let lowered = word.wrapping_sub(noise);
        let rounded_up = raised.wrapping_add((raised & (delta >> 1)) << 1);
        let rounded_down = lowered.wrapping_add((lowered & (delta >> 1)) << 1);
        let rounded = word.wrapping_add((word & (delta >> 1)) << 1);
        lemma_rounding_in_shifts(word, bits, noise);
        lemma_rounding_in_shifts(word, bits, 0);
        lemma_u64_shr_is_div(word, bits);
        lemma_u64_shr_is_div(rounded_up, bits);
        lemma_u64_shr_is_div(rounded_down, bits);
        lemma_u64_shr_is_div(rounded, bits);
        assert(word >> bits == message);
        assert(rounded_up >> bits == message);
        assert(rounded_down >> bits == message);
        assert(rounded >> bits == message);
        assert(rounded_up as int / delta as int == message);
        assert(rounded_down as int / delta as int == message);
        assert(rounded as int / delta as int == message);
    }
}

/// The number of coefficients that stand for one message.
pub open spec fn box_size(polynomial_size: nat, modulus_sup: nat) -> nat {
    polynomial_size / modulus_sup
}

/// The coefficients before they are turned: for each of the `modulus_sup` messages a box of
/// coefficients, all of which are what the lookup table has for the message, scaled; zero
/// behind the last box.
pub open spec fn boxed(
    lut: Seq<u64>,
    polynomial_size: nat,
    modulus_sup: nat,
    delta: nat,
    position: int,
) -> u64 {
    let size = box_size(polynomial_size, modulus_sup);
    if 0 <= position < modulus_sup * size {
        (lut[position / (size as int)] * delta) as u64
    } else {
        0
    }
}

/// The coefficient at `index` of the accumulator: the boxes turned left by half a box, with
/// the half box that comes round to the end negated.
pub open spec fn accumulator_coefficient(
    lut: Seq<u64>,
    polynomial_size: nat,
    modulus_sup: nat,
    delta: nat,
    index: int,
) -> u64 {
    let half = box_size(polynomial_size, modulus_sup) / 2;
    let position = (index + half) % (polynomial_size as int);
    let coefficient = boxed(lut, polynomial_size, modulus_sup, delta, position);
    if position < half {
        0u64.wrapping_sub(coefficient)
    } else {
        coefficient
    }
}

/// The coefficients of the accumulator of a lookup table.
pub open spec fn accumulator_body(
    lut: Seq<u64>,
    polynomial_size: nat,
    modulus_sup: nat,
    delta: nat,
) -> Seq<u64> {
    Seq::new(
        polynomial_size,
        |index: int| accumulator_coefficient(lut, polynomial_size, modulus_sup, delta, index),
    )
}

/// What keeps a lookup table from being laid out for `modulus_sup` messages, if anything:
/// it has no value for one of the messages (`IndexOutOfDomain`); or one of its values for
/// them, scaled, is no `u64` (`Overflow`).
pub open spec fn accumulator_defect(lut: Seq<u64>, modulus_sup: nat) -> Option<PlanError> {
    if lut.len() < modulus_sup {
        Some(PlanError::IndexOutOfDomain)
    } else if exists|i: int|
        0 <= i < modulus_sup && (#[trigger] lut[i]) * scaling_factor(modulus_sup) > u64::MAX {
        Some(PlanError::Overflow)
    } else {
        None
    }
}

/// Lays a lookup table out as the coefficients of an accumulator, and gives with them the
/// greatest value that the table has for a message.
///
/// Fails with what keeps the table from being laid out: see `accumulator_defect`.
pub fn fill_accumulator(
    polynomial_size: usize,
    message_modulus: usize,
    carry_modulus: usize,
    lut: &[u64],
) -> (outcome: Result<(Vec<u64>, u64), PlanError>)
    requires
        0 < message_modulus * carry_modulus <= usize::MAX,
    ensures
        match outcome {
            Ok((body, max_value)) => {
                &&& accumulator_defect(lut@, (message_modulus * carry_modulus) as nat) is None
                &&& body@ == accumulator_body(
                    lut@,
                    polynomial_size as nat,
                    (message_modulus * carry_modulus) as nat,
                    scaling_factor((message_modulus * carry_modulus) as nat),
                )
                &&& max_value == row_max(lut@.take(message_modulus * carry_modulus))
            },
            Err(error) => accumulator_defect(lut@, (message_modulus * carry_modulus) as nat)
                == Some(error),
        },
{
    let modulus_sup: usize = message_modulus * carry_modulus;
    if lut.len() < modulus_sup {
        return Err(PlanError::IndexOutOfDomain);
    }
    let box_size: usize = polynomial_size / modulus_sup;
    let delta: u64 = delta_for(modulus_sup as u64);
    let half_box_size: usize = box_size / 2;
    proof {
        lemma_fundamental_div_mod(polynomial_size as int, modulus_sup as int);
        lemma_mod_bound(polynomial_size as int, modulus_sup as int);
    }
    let filled_size: usize = modulus_sup * box_size;

    let mut max_value: u64 = 0;
    let mut i: usize = 0;
    assert(lut@.take(0) =~= Seq::<u64>::empty());
    while i < modulus_sup
        invariant
            modulus_sup == message_modulus * carry_modulus,
            modulus_sup <= lut.len(),
            delta == scaling_factor(modulus_sup as nat),
            i <= modulus_sup,
            max_value == row_max(lut@.take(i as int)),
            forall|k: int| 0 <= k < i ==> (#[trigger] lut[k]) * delta <= u64::MAX,
        decreases modulus_sup - i,
    {
        proof {
            let next = lut@.take(i + 1);
            assert(next.drop_last() =~= lut@.take(i as int));
            assert(next.last() == lut[i as int]);
        }
        if lut[i].checked_mul(delta).is_none() {
            assert(lut[i as int] * scaling_factor(modulus_sup as nat) > u64::MAX);
            return Err(PlanError::Overflow);
        }
        if lut[i] > max_value {
            max_value = lut[i];
        }
        i = i + 1;
    }

    let ghost wanted = accumulator_body(
        lut@,
        polynomial_size as nat,
        modulus_sup as nat,
        delta as nat,
    );
    let mut body: Vec<u64> = Vec::new();
    let mut index: usize = 0;
    while index < polynomial_size
        invariant
            0 < modulus_sup <= lut.len(),
            box_size == polynomial_size / modulus_sup,
            half_box_size == box_size / 2,
            filled_size == modulus_sup * box_size,
            filled_size <= polynomial_size,
            delta == scaling_factor(modulus_sup as nat),
            forall|i: int| 0 <= i < modulus_sup ==> (#[trigger] lut[i]) * delta <= u64::MAX,
            wanted == accumulator_body(
                lut@,
                polynomial_size as nat,
                modulus_sup as nat,
                delta as nat,
            ),
            index <= polynomial_size,
            body.len() == index,
            forall|j: int| 0 <= j < index ==> (#[trigger] body[j]) == wanted[j],
        decreases polynomial_size - index,
    {
        let position: usize = if index >= polynomial_size - half_box_size {
            index - (polynomial_size - half_box_size)
        } else {
            index + half_box_size
        };
        proof {
            vstd::arithmetic::div_mod::lemma_fundamental_div_mod_converse(
                index + half_box_size,
                polynomial_size as int,
                if index >= polynomial_size - half_box_size {
                    1int
                } else {
                    0int
                },
                position as int,
            );
        }
        let coefficient: u64 = if position < filled_size {
            let message: usize = position / box_size;
            proof {
                lemma_fundamental_div_mod(position as int, box_size as int);
                lemma_mod_bound(position as int, box_size as int);
                let rest = position as int % box_size as int;
                assert(message < modulus_sup) by (nonlinear_arith)
                    requires
                        position == box_size * message + rest,
                        0 <= rest,
                        position < modulus_sup * box_size,
                        box_size > 0,
                        message >= 0,
                ;
            }
            lut[message] * delta
        } else {
            0
        };
        let turned: u64 = if position < half_box_size {
            0u64.wrapping_sub(coefficient)
        } else {
            coefficient
        };
        body.push(turned);
        index = index + 1;
    }
    assert(body@ =~= wanted);
    Ok((body, max_value))
}

/// The accumulator of every lookup table of a list, in the order of the list.
///
/// Fails on the first table that cannot be laid out, with what keeps it from that.
pub fn make_accumulator_list(
    fs: &[RowLookupTable],
    polynomial_size: usize,
    message_modulus: usize,
    carry_modulus: usize,
) -> (outcome: Result<Vec<Vec<u64>>, PlanError>)
    requires
        0 < message_modulus * carry_modulus <= usize::MAX,
    ensures
        match outcome {
            Ok(accumulators) => {
                &&& accumulators.len() == fs.len()
                &&& forall|t: int|
                    0 <= t < fs.len() ==> accumulator_defect(
                        (#[trigger] fs[t])@,
                        (message_modulus * carry_modulus) as nat,
                    ) is None
                &&& forall|t: int|
                    0 <= t < fs.len() ==> (#[trigger] accumulators[t])@ == accumulator_body(
                        fs[t]@,
                        polynomial_size as nat,
                        (message_modulus * carry_modulus) as nat,
                        scaling_factor((message_modulus * carry_modulus) as nat),
                    )
            },
            Err(error) => exists|t: int|
                {
                    &&& 0 <= t < fs.len()
                    &&& accumulator_defect(
                        (#[trigger] fs[t])@,
                        (message_modulus * carry_modulus) as nat,
                    ) == Some(error)
                    &&& forall|s: int|
                        0 <= s < t ==> accumulator_defect(
                            (#[trigger] fs[s])@,
                            (message_modulus * carry_modulus) as nat,
                        ) is None
                },
        },
{
    let mut accumulators: Vec<Vec<u64>> = Vec::new();
    let mut t: usize = 0;
    while t < fs.len()
        invariant
            0 < message_modulus * carry_modulus <= usize::MAX,
            t <= fs.len(),
            accumulators.len() == t,
            forall|k: int|
                0 <= k < t ==> accumulator_defect(
                    (#[trigger] fs[k])@,
                    (message_modulus * carry_modulus) as nat,
                ) is None,
            forall|k: int|
                0 <= k < t ==> (#[trigger] accumulators[k])@ == accumulator_body(
                    fs[k]@,
                    polynomial_size as nat,
                    (message_modulus * carry_modulus) as nat,
                    scaling_factor((message_modulus * carry_modulus) as nat),
                ),
        decreases fs.len() - t,
    {
        match fill_accumulator(polynomial_size, message_modulus, carry_modulus, fs[t].entries()) {
            Ok((body, _)) => {
                accumulators.push(body);
            },
            Err(error) => {
                return Err(error);
            },
        }
        t = t + 1;
    }
    Ok(accumulators)
}

} // verus!
