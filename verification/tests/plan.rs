use helr_planner::config::Config;
use helr_planner::error::PlanError;
use helr_planner::plan::{flatten_luts, plan_attempt, AttemptPlan};

fn stored_table() -> Vec<Vec<i64>> {
    vec![vec![5, 3, 1, 0], vec![2, 1, 0, 4], vec![6, 2, 3, 1], vec![0, 1, 2, 5]]
}

fn config(num_tables: usize, threshold: i64) -> Config {
    Config { data_set_name: "TEST", num_tables, threshold }
}

/// What the encrypted part does, in the clear: every lookup is made with its value of the
/// probe and written to its place; then the blocks are added place by place.
fn evaluate_in_the_clear(plan: &AttemptPlan) -> u64 {
    let tables = plan.decomp_lengths.len();
    let mut buffer = vec![0u64; tables * plan.sum_block_len];
    for k in 0..plan.luts.len() {
        let digit = plan.luts[k][plan.repeated_probes[k] as usize];
        buffer[plan.lut_output_indices[k] as usize] = digit;
    }
    let mut total = 0;
    let mut place = 1;
    for d in 0..plan.sum_block_len {
        for t in 0..tables {
            total += buffer[t * plan.sum_block_len + d] * place;
        }
        place *= plan.decomp_base;
    }
    total
}

fn recombine(digits: &[u64], base: u64) -> u64 {
    let mut value = 0;
    let mut place = 1;
    for digit in digits {
        value += digit * place;
        place *= base;
    }
    value
}

#[test]
fn end_to_end_example() {
    let raw = vec![stored_table(), stored_table()];
    let plan = plan_attempt(&config(2, 4), &raw, &[2, 1], &[0, 0]).unwrap();
    assert_eq!(plan.decomp_base, 2);
    assert_eq!(plan.threshold, 4);
    assert_eq!(plan.decomp_lengths, vec![3, 3]);
    assert_eq!(plan.sum_block_len, 4);
    assert_eq!(plan.lut_output_indices, vec![0, 1, 2, 4, 5, 6]);
    assert_eq!(plan.repeated_probes, vec![2, 2, 2, 1, 1, 1]);
    assert_eq!(
        plan.luts,
        vec![
            vec![1, 1, 1, 0],
            vec![0, 1, 0, 0],
            vec![1, 0, 0, 0],
            vec![1, 1, 1, 0],
            vec![0, 1, 0, 0],
            vec![1, 0, 0, 0],
        ]
    );
    let direct = raw[0][0][2] + raw[1][0][1];
    assert_eq!(direct, 4);
    assert_eq!(plan.expected, direct as u64);
    assert_eq!(plan.expected_decomp, vec![0, 0, 1, 0]);
    assert_eq!(evaluate_in_the_clear(&plan), direct as u64);
    assert_eq!(recombine(&plan.expected_decomp, plan.decomp_base), direct as u64);
    assert!(plan.expected_decision());
}

#[test]
fn one_table_contributes_its_entry() {
    let plan = plan_attempt(&config(1, 0), &[stored_table()], &[2], &[0]).unwrap();
    assert_eq!(plan.expected, 1);
    assert_eq!(evaluate_in_the_clear(&plan), 1);
}

#[test]
fn every_template_and_probe_gives_the_score() {
    let raw = vec![stored_table(), stored_table()];
    for first_row in 0..4usize {
        for second_row in 0..4usize {
            for first_column in 0..4usize {
                for second_column in 0..4usize {
                    let template = [first_row as u64, second_row as u64];
                    let probe = [first_column as u64, second_column as u64];
                    let plan = plan_attempt(&config(2, 7), &raw, &probe, &template).unwrap();
                    let direct =
                        raw[0][first_row][first_column] + raw[1][second_row][second_column];
                    assert_eq!(plan.expected as i64, direct);
                    assert_eq!(evaluate_in_the_clear(&plan) as i64, direct);
                    assert_eq!(recombine(&plan.expected_decomp, 2) as i64, direct);
                    assert_eq!(plan.expected_decision(), direct >= 7);
                }
            }
        }
    }
}

#[test]
fn offsets_move_the_threshold_and_not_the_decision() {
    let first = vec![
        vec![40i64, 12, -3, -20],
        vec![-5, 33, 8, -20],
        vec![-19, 0, 25, 1],
        vec![-20, -11, 2, 38],
    ];
    let second = vec![
        vec![9i64, 4, 2, 1],
        vec![3, 8, 5, 2],
        vec![1, 6, 9, 3],
        vec![1, 1, 4, 7],
    ];
    let raw = vec![first, second];
    for threshold in [-30i64, -19, -10, 0, 3, 14, 47, 49, 50] {
        for row in 0..4usize {
            for column in 0..4usize {
                let template = [row as u64, column as u64];
                let probe = [column as u64, row as u64];
                let plan = plan_attempt(&config(2, threshold), &raw, &probe, &template).unwrap();
                let raw_sum = raw[0][row][column] + raw[1][column][row];
                assert_eq!(plan.threshold, threshold - (-20 + 1));
                assert_eq!(plan.expected as i64, raw_sum - (-20 + 1));
                assert_eq!(plan.expected_decision(), raw_sum >= threshold);
                assert_eq!(plan.expected >= plan.scalar_threshold(), raw_sum >= threshold);
                assert_eq!(evaluate_in_the_clear(&plan), plan.expected);
            }
        }
    }
}

#[test]
fn a_negative_threshold_is_reached_by_every_sum() {
    let plan = plan_attempt(&config(1, -53), &[stored_table()], &[3], &[0]).unwrap();
    assert_eq!(plan.threshold, -53);
    assert_eq!(plan.scalar_threshold(), 0);
    assert_eq!(plan.expected, 0);
    assert!(plan.expected_decision());
    let plan = plan_attempt(&config(1, 6), &[stored_table()], &[3], &[0]).unwrap();
    assert_eq!(plan.scalar_threshold(), 6);
    assert!(!plan.expected_decision());
}

#[test]
fn a_larger_dimension_takes_a_larger_base() {
    let mut table = vec![vec![0i64; 16]; 16];
    for row in 0..16 {
        for column in 0..16 {
            table[row][column] = ((row * 31 + column * 17) % 200) as i64;
        }
    }
    table[0][15] = 0;
    let raw = vec![table.clone(), table.clone(), table];
    let plan = plan_attempt(&config(3, 100), &raw, &[5, 0, 15], &[3, 15, 9]).unwrap();
    assert_eq!(plan.decomp_base, 4);
    assert_eq!(plan.decomp_lengths, vec![4, 4, 4]);
    assert_eq!(plan.sum_block_len, 5);
    assert_eq!(plan.lut_output_indices, vec![0, 1, 2, 3, 5, 6, 7, 8, 10, 11, 12, 13]);
    assert_eq!(plan.repeated_probes, vec![5, 5, 5, 5, 0, 0, 0, 0, 15, 15, 15, 15]);
    assert_eq!(plan.luts.len(), 12);
    assert!(plan.luts.iter().all(|lut| lut.len() == 16));
    let direct = (raw[0][3][5] + raw[1][15][0] + raw[2][9][15]) as u64;
    assert_eq!(plan.expected, direct);
    assert_eq!(evaluate_in_the_clear(&plan), direct);
}

#[test]
fn a_decrypted_sum_is_held_against_the_expected_digits() {
    let raw = vec![stored_table(), stored_table()];
    let plan = plan_attempt(&config(2, 4), &raw, &[2, 1], &[0, 0]).unwrap();
    assert!(plan.agrees_with(&[0, 0, 1, 0]));
    assert!(!plan.agrees_with(&[0, 0, 1]));
    assert!(!plan.agrees_with(&[0, 0, 1, 0, 0]));
    assert!(!plan.agrees_with(&[1, 0, 1, 0]));
    assert!(!plan.agrees_with(&[]));
    assert_eq!(plan.output_blocks, 8);
}

#[test]
fn lookup_tables_are_listed_table_after_table() {
    let luts = vec![vec![vec![1u64, 2], vec![3, 4]], vec![], vec![vec![5u64, 6]]];
    assert_eq!(flatten_luts(luts), vec![vec![1, 2], vec![3, 4], vec![5, 6]]);
    assert_eq!(flatten_luts(vec![]), Vec::<Vec<u64>>::new());
}

#[test]
fn an_attempt_without_tables_is_refused() {
    assert_eq!(plan_attempt(&config(0, 1), &[], &[], &[]).err(), Some(PlanError::NoTables));
}

#[test]
fn a_defective_table_ends_the_attempt() {
    let negative = vec![vec![1i64, 2], vec![3, 4]];
    assert_eq!(
        plan_attempt(&config(2, 1), &[stored_table(), negative], &[0, 0], &[0, 0]).err(),
        Some(PlanError::NegativeEntry)
    );
    assert_eq!(
        plan_attempt(&config(2, 1), &[stored_table(), vec![]], &[0, 0], &[0, 0]).err(),
        Some(PlanError::EmptyTable)
    );
}

#[test]
fn an_index_outside_the_tables_ends_the_attempt() {
    let raw = vec![stored_table(), stored_table()];
    assert_eq!(
        plan_attempt(&config(2, 1), &raw, &[0, 0], &[0, 4]).err(),
        Some(PlanError::IndexOutOfDomain)
    );
    assert_eq!(
        plan_attempt(&config(2, 1), &raw, &[4, 0], &[0, 0]).err(),
        Some(PlanError::IndexOutOfDomain)
    );
    assert_eq!(
        plan_attempt(&config(2, 1), &raw, &[0, u64::MAX], &[3, 3]).err(),
        Some(PlanError::IndexOutOfDomain)
    );
}

#[test]
fn tables_of_few_rows_hold_zeros_only() {
    let small = vec![vec![3i64, 0], vec![1, 2]];
    assert_eq!(
        plan_attempt(&config(1, 1), &[small], &[0], &[0]).err(),
        Some(PlanError::DigitOverflow)
    );
    let flat = vec![vec![7i64, 7], vec![7, 7]];
    let plan = plan_attempt(&config(1, 7), &[flat], &[1], &[1]).unwrap();
    assert_eq!(plan.decomp_base, 1);
    assert_eq!(plan.threshold, 0);
    assert_eq!(plan.expected, 0);
    assert_eq!(plan.luts, vec![vec![0, 0]]);
    assert_eq!(plan.expected_decomp, vec![0]);
    assert!(plan.expected_decision());
}

#[test]
fn numbers_beyond_the_machine_end_the_attempt() {
    let high = vec![vec![i64::MAX]; 4];
    assert_eq!(
        plan_attempt(&config(2, 0), &[high.clone(), high.clone()], &[0, 0], &[0, 0]).err(),
        Some(PlanError::Overflow)
    );
    let wide = vec![vec![i64::MAX, i64::MIN], vec![0, 0], vec![0, 0], vec![0, 0]];
    assert_eq!(
        plan_attempt(&config(2, 0), &[wide.clone(), wide.clone()], &[0, 0], &[0, 0]).err(),
        Some(PlanError::Overflow)
    );
    let low = vec![vec![0i64, -5], vec![0, 0], vec![0, 0], vec![0, 0]];
    assert_eq!(
        plan_attempt(&config(1, i64::MAX), &[low.clone()], &[0], &[0]).err(),
        Some(PlanError::Overflow)
    );
    assert_eq!(
        plan_attempt(&config(1, i64::MAX - 5), &[low], &[0], &[0]).map(|plan| plan.threshold),
        Ok(i64::MAX)
    );
}

#[test]
fn the_first_reason_decides() {
    let negative = vec![vec![1i64, 2], vec![3, 4]];
    assert_eq!(
        plan_attempt(&config(2, i64::MAX), &[stored_table(), negative], &[9, 9], &[9, 9]).err(),
        Some(PlanError::NegativeEntry)
    );
    assert_eq!(
        plan_attempt(&config(1, 0), &[stored_table()], &[9], &[9]).err(),
        Some(PlanError::IndexOutOfDomain)
    );
    let shifted = vec![vec![5i64, 3, 1, -1], vec![2, 1, 0, 4], vec![6, 2, 3, 1], vec![0, 1, 2, 5]];
    assert_eq!(
        plan_attempt(&config(1, i64::MAX), &[shifted], &[9], &[0]).err(),
        Some(PlanError::IndexOutOfDomain)
    );
}

#[test]
fn the_datasets() {
    let bmdb = Config::bmdb1();
    assert_eq!((bmdb.data_set_name, bmdb.num_tables, bmdb.threshold), ("BMDB", 36, 14));
    let put = Config::put();
    assert_eq!((put.data_set_name, put.num_tables, put.threshold), ("PUT", 49, -53));
    let frgc = Config::frgc();
    assert_eq!((frgc.data_set_name, frgc.num_tables, frgc.threshold), ("FRGC", 94, -1));
}
