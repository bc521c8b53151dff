use helr_planner::encoding::{
    decode_list, delta_for, encode_list, fill_accumulator, get_params_multi_bit_gpu,
    make_accumulator_list, ParameterChoice,
};
use helr_planner::error::PlanError;
use helr_planner::lookup::luts_to_closures;

/// Boxes, then the first half box negated, then everything turned left by half a box.
fn boxes_negated_and_turned(
    polynomial_size: usize,
    modulus_sup: usize,
    delta: u64,
    lut: &[u64],
) -> Vec<u64> {
    let mut coefficients = vec![0u64; polynomial_size];
    let box_size = polynomial_size / modulus_sup;
    for i in 0..modulus_sup {
        let index = i * box_size;
        coefficients[index..index + box_size].fill(lut[i] * delta);
    }
    let half_box_size = box_size / 2;
    for coefficient in coefficients[0..half_box_size].iter_mut() {
        *coefficient = coefficient.wrapping_neg();
    }
    coefficients.rotate_left(half_box_size);
    coefficients
}

#[test]
fn parameters_for_the_bases() {
    assert_eq!(get_params_multi_bit_gpu(4), Some(ParameterChoice::Message2Carry2));
    assert_eq!(get_params_multi_bit_gpu(8), Some(ParameterChoice::Message3Carry3));
    for base in [0u64, 1, 2, 3, 5, 7, 9, 16, 64, u64::MAX] {
        assert_eq!(get_params_multi_bit_gpu(base), None);
    }
}

#[test]
fn the_scaling_factor_leaves_a_bit_of_padding() {
    assert_eq!(delta_for(16), 1 << 59);
    assert_eq!(delta_for(64), 1 << 57);
    assert_eq!(delta_for(1), 1 << 63);
    assert_eq!(delta_for(3), (1u64 << 63) / 3);
    assert_eq!(delta_for(u64::MAX), 0);
}

#[test]
fn messages_are_reduced_and_scaled() {
    let delta = delta_for(16);
    assert_eq!(
        encode_list(&[0, 1, 5, 15, 16, 21], 16, delta),
        vec![0, delta, 5 * delta, 15 * delta, 0, 5 * delta]
    );
    assert_eq!(encode_list(&[], 16, delta), Vec::<u64>::new());
    assert_eq!(encode_list(&[7, 8, 9], 4, 10), vec![30, 0, 10]);
}

#[test]
fn words_are_rounded_to_messages() {
    let delta = delta_for(16);
    let half = delta / 2;
    assert_eq!(
        decode_list(
            &[
                0,
                5 * delta,
                5 * delta + half - 1,
                5 * delta + half,
                5 * delta - half,
                5 * delta - half - 1,
                half - 1,
            ],
            delta
        ),
        vec![0, 5, 5, 6, 5, 4, 0]
    );
}

#[test]
fn rounding_wraps_at_the_top_of_the_word() {
    let delta = delta_for(16);
    assert_eq!(decode_list(&[u64::MAX, u64::MAX - delta / 2 + 1], delta), vec![0, 0]);
    assert_eq!(decode_list(&[u64::MAX - delta / 2], delta), vec![31]);
    assert_eq!(decode_list(&[31 * delta], delta), vec![31]);
}

#[test]
fn decoding_without_scaling_gives_the_word() {
    assert_eq!(decode_list(&[0, 1, 77, u64::MAX], 1), vec![0, 1, 77, u64::MAX]);
}

#[test]
fn decoding_takes_noise_away() {
    for modulus in [2u64, 4, 16, 64, 1 << 20] {
        let delta = delta_for(modulus);
        for message in [0, 1, modulus / 2, modulus - 1] {
            let word = encode_list(&[message], modulus, delta)[0];
            for noise in [0, 1, delta / 4, delta / 2 - 1] {
                assert_eq!(decode_list(&[word.wrapping_add(noise)], delta), vec![message]);
                assert_eq!(decode_list(&[word.wrapping_sub(noise)], delta), vec![message]);
            }
        }
    }
}

#[test]
fn an_accumulator_in_small() {
    let delta = delta_for(4);
    let (body, max_value) = fill_accumulator(8, 2, 2, &[1, 2, 3, 0]).unwrap();
    assert_eq!(
        body,
        vec![
            delta,
            2 * delta,
            2 * delta,
            3 * delta,
            3 * delta,
            0,
            0,
            delta.wrapping_neg(),
        ]
    );
    assert_eq!(max_value, 3);
}

#[test]
fn an_accumulator_is_boxes_negated_and_turned() {
    for (message_modulus, carry_modulus) in [(4usize, 4usize), (8, 8), (2, 2), (1, 1), (3, 5)] {
        let modulus_sup = message_modulus * carry_modulus;
        let delta = delta_for(modulus_sup as u64);
        let lut: Vec<u64> = (0..64).map(|i| (i * 7 + 3) % (2 * modulus_sup as u64)).collect();
        for polynomial_size in [0usize, 1, 7, 64, 100, 256, 2048] {
            let (body, max_value) =
                fill_accumulator(polynomial_size, message_modulus, carry_modulus, &lut).unwrap();
            assert_eq!(body.len(), polynomial_size);
            if polynomial_size >= modulus_sup {
                assert_eq!(
                    body,
                    boxes_negated_and_turned(polynomial_size, modulus_sup, delta, &lut)
                );
            } else {
                assert!(body.iter().all(|coefficient| *coefficient == 0));
            }
            assert_eq!(max_value, *lut[..modulus_sup].iter().max().unwrap());
        }
    }
}

#[test]
fn values_beyond_the_messages_are_not_read() {
    let (body, max_value) = fill_accumulator(4, 2, 1, &[1, 0, u64::MAX, 9]).unwrap();
    let delta = delta_for(2);
    assert_eq!(body, vec![delta, 0, 0, delta.wrapping_neg()]);
    assert_eq!(max_value, 1);
}

#[test]
fn one_accumulator_for_each_lookup_table() {
    let luts = vec![vec![1, 1, 1, 0], vec![0, 1, 0, 0], vec![1, 0, 0, 0]];
    let functions = luts_to_closures(luts.clone());
    let accumulators = make_accumulator_list(&functions, 16, 2, 2).unwrap();
    assert_eq!(accumulators.len(), 3);
    for (accumulator, lut) in accumulators.iter().zip(luts.iter()) {
        assert_eq!(*accumulator, fill_accumulator(16, 2, 2, lut).unwrap().0);
        assert_eq!(*accumulator, boxes_negated_and_turned(16, 4, delta_for(4), lut));
    }
    assert_eq!(make_accumulator_list(&[], 16, 2, 2), Ok(Vec::<Vec<u64>>::new()));
}

#[test]
fn a_table_without_a_value_for_a_message_is_not_laid_out() {
    assert_eq!(fill_accumulator(8, 2, 2, &[1, 2, 3]), Err(PlanError::IndexOutOfDomain));
    assert_eq!(fill_accumulator(8, 2, 2, &[]), Err(PlanError::IndexOutOfDomain));
    let functions = luts_to_closures(vec![vec![0, 1, 2, 3], vec![0, 1]]);
    assert_eq!(make_accumulator_list(&functions, 8, 2, 2), Err(PlanError::IndexOutOfDomain));
}

#[test]
fn a_value_that_leaves_the_word_is_not_laid_out() {
    assert_eq!(fill_accumulator(8, 2, 2, &[1, 8, 3, 0]), Err(PlanError::Overflow));
    assert!(fill_accumulator(8, 2, 2, &[1, 7, 3, 0]).is_ok());
    assert_eq!(fill_accumulator(8, 2, 2, &[1, 8]), Err(PlanError::IndexOutOfDomain));
    let functions = luts_to_closures(vec![vec![0, u64::MAX, 2, 3], vec![0, 1]]);
    assert_eq!(make_accumulator_list(&functions, 8, 2, 2), Err(PlanError::Overflow));
}
