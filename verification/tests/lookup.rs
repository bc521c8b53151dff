use helr_planner::digits::{decompose_to_base, length_in_base};
use helr_planner::error::PlanError;
use helr_planner::lookup::{luts_to_closures, make_row_based_luts, RowLookupTable};
use helr_planner::slots::get_lut_output_indices;
use helr_planner::tables::max_entry;

fn example_table() -> Vec<Vec<u64>> {
    vec![vec![5, 3, 1, 0], vec![2, 1, 0, 4], vec![6, 2, 3, 1], vec![0, 1, 2, 5]]
}

fn read_back(digits: &[u64], base: u64) -> u64 {
    let mut value = 0;
    let mut place = 1;
    for digit in digits {
        value += digit * place;
        place *= base;
    }
    value
}

#[test]
fn lookup_tables_of_the_first_row() {
    let luts = make_row_based_luts(&[example_table()], &[0], 2).unwrap();
    assert_eq!(luts, vec![vec![vec![1, 1, 1, 0], vec![0, 1, 0, 0], vec![1, 0, 0, 0]]]);
}

#[test]
fn lookup_tables_of_other_rows() {
    let luts = make_row_based_luts(&[example_table(), example_table()], &[2, 3], 2).unwrap();
    assert_eq!(
        luts,
        vec![
            vec![vec![0, 0, 1, 1], vec![1, 1, 1, 0], vec![1, 0, 0, 0]],
            vec![vec![0, 1, 0, 1], vec![0, 0, 1, 0], vec![0, 0, 0, 1]],
        ]
    );
}

#[test]
fn lookup_tables_in_base_four() {
    let table = vec![vec![27u64, 9, 4, 0]];
    let luts = make_row_based_luts(&[table], &[0], 4).unwrap();
    assert_eq!(luts, vec![vec![vec![3, 1, 0, 0], vec![2, 2, 1, 0], vec![1, 0, 0, 0]]]);
}

#[test]
fn every_lookup_gives_a_digit_of_the_entry() {
    let tables = vec![
        example_table(),
        vec![vec![100, 7, 0], vec![99, 98, 1], vec![3, 250, 4]],
        vec![vec![1]],
    ];
    for base in [2u64, 3, 4, 8, 10] {
        for first in 0..4u64 {
            for second in 0..3u64 {
                let template = [first, second, 0];
                let luts = make_row_based_luts(&tables, &template, base).unwrap();
                assert_eq!(luts.len(), tables.len());
                for (t, table) in tables.iter().enumerate() {
                    let length = length_in_base(max_entry(table), base);
                    let row = &table[template[t] as usize];
                    assert_eq!(luts[t].len(), length);
                    for d in 0..length {
                        assert_eq!(luts[t][d].len(), row.len());
                        for p in 0..row.len() {
                            assert_eq!(luts[t][d][p], decompose_to_base(row[p], base, length)[d]);
                            assert!(luts[t][d][p] < base);
                        }
                    }
                    for p in 0..row.len() {
                        let digits: Vec<u64> = (0..length).map(|d| luts[t][d][p]).collect();
                        assert_eq!(read_back(&digits, base), row[p]);
                    }
                }
            }
        }
    }
}

#[test]
fn the_greatest_entry_of_the_whole_table_sizes_its_digits() {
    let table = vec![vec![1u64, 0], vec![200, 3]];
    let luts = make_row_based_luts(&[table.clone()], &[0], 2).unwrap();
    assert_eq!(luts[0].len(), 8);
    let luts = make_row_based_luts(&[table], &[1], 2).unwrap();
    assert_eq!(luts[0].len(), 8);
    let digits: Vec<u64> = (0..8).map(|d| luts[0][d][0]).collect();
    assert_eq!(read_back(&digits, 2), 200);
}

#[test]
fn an_empty_row_has_lookup_tables_without_entries() {
    let table = vec![vec![6u64, 1], vec![]];
    let luts = make_row_based_luts(&[table], &[1], 2).unwrap();
    assert_eq!(luts, vec![vec![Vec::<u64>::new(), vec![], vec![]]]);
}

#[test]
fn no_tables_have_no_lookup_tables() {
    assert_eq!(make_row_based_luts(&[], &[], 2), Ok(vec![]));
}

#[test]
fn a_template_value_without_row_is_refused() {
    assert_eq!(make_row_based_luts(&[example_table()], &[4], 2), Err(PlanError::IndexOutOfDomain));
    assert_eq!(
        make_row_based_luts(&[example_table(), example_table()], &[3, u64::MAX], 2),
        Err(PlanError::IndexOutOfDomain)
    );
}

#[test]
fn a_table_without_entries_gets_no_lookup_tables() {
    assert_eq!(make_row_based_luts(&[vec![]], &[0], 2), Err(PlanError::EmptyTable));
    assert_eq!(
        make_row_based_luts(&[vec![vec![], vec![1]]], &[1], 2),
        Err(PlanError::EmptyTable)
    );
}

#[test]
fn a_base_below_two_writes_zero_only() {
    assert_eq!(make_row_based_luts(&[example_table()], &[0], 1), Err(PlanError::DigitOverflow));
    assert_eq!(make_row_based_luts(&[example_table()], &[0], 0), Err(PlanError::DigitOverflow));
    let zeros = vec![vec![0u64, 0], vec![0, 0]];
    assert_eq!(make_row_based_luts(&[zeros.clone()], &[1], 1), Ok(vec![vec![vec![0, 0]]]));
    assert_eq!(make_row_based_luts(&[zeros], &[1], 0), Err(PlanError::DigitOverflow));
}

#[test]
fn the_first_table_that_is_kept_from_its_lookup_tables_decides() {
    assert_eq!(
        make_row_based_luts(&[example_table(), example_table(), vec![]], &[0, 9, 0], 2),
        Err(PlanError::IndexOutOfDomain)
    );
    assert_eq!(
        make_row_based_luts(&[example_table(), vec![], example_table()], &[0, 0, 9], 2),
        Err(PlanError::EmptyTable)
    );
    assert_eq!(
        make_row_based_luts(&[example_table(), vec![]], &[9, 0], 1),
        Err(PlanError::DigitOverflow)
    );
}

#[test]
fn lookup_tables_can_be_asked() {
    let functions = luts_to_closures(vec![vec![1, 1, 1, 0], vec![0, 1, 0, 0], vec![]]);
    assert_eq!(functions.len(), 3);
    assert_eq!(functions[0].domain_size(), 4);
    assert_eq!(functions[0].evaluate(0), Ok(1));
    assert_eq!(functions[0].evaluate(3), Ok(0));
    assert_eq!(functions[1].evaluate(1), Ok(1));
    assert_eq!(functions[1].evaluate(2), Ok(0));
    assert_eq!(functions[2].domain_size(), 0);
}

#[test]
fn an_index_outside_the_domain_is_refused() {
    let lut = RowLookupTable::new(vec![7, 8, 9]);
    assert_eq!(lut.evaluate(2), Ok(9));
    assert_eq!(lut.evaluate(3), Err(PlanError::IndexOutOfDomain));
    assert_eq!(lut.evaluate(u64::MAX), Err(PlanError::IndexOutOfDomain));
    assert_eq!(RowLookupTable::new(vec![]).evaluate(0), Err(PlanError::IndexOutOfDomain));
}

#[test]
fn places_of_two_tables() {
    let (indices, lengths, sum_length) =
        get_lut_output_indices(&[example_table(), example_table()], 2).unwrap();
    assert_eq!(lengths, vec![3, 3]);
    assert_eq!(sum_length, 4);
    assert_eq!(indices, vec![0, 1, 2, 4, 5, 6]);
}

#[test]
fn places_of_tables_of_different_sizes() {
    let tables = vec![vec![vec![1u64]], vec![vec![200u64, 3]], vec![vec![0u64], vec![17]]];
    let (indices, lengths, sum_length) = get_lut_output_indices(&tables, 4).unwrap();
    assert_eq!(lengths, vec![1, 4, 3]);
    assert_eq!(sum_length, 4);
    assert_eq!(indices, vec![0, 4, 5, 6, 7, 8, 9, 10]);
    let (indices, lengths, sum_length) = get_lut_output_indices(&tables, 10).unwrap();
    assert_eq!(lengths, vec![1, 3, 2]);
    assert_eq!(sum_length, 3);
    assert_eq!(indices, vec![0, 3, 4, 5, 6, 7]);
}

#[test]
fn the_sum_can_need_more_digits_than_any_table() {
    let tables = vec![vec![vec![3u64]]; 5];
    let (indices, lengths, sum_length) = get_lut_output_indices(&tables, 2).unwrap();
    assert_eq!(lengths, vec![2; 5]);
    assert_eq!(sum_length, 4);
    assert_eq!(indices, vec![0, 1, 4, 5, 8, 9, 12, 13, 16, 17]);
}

#[test]
fn places_do_not_collide_and_are_aligned() {
    let tables = vec![
        example_table(),
        vec![vec![1000u64, 1]],
        vec![vec![0u64]],
        vec![vec![77u64], vec![78]],
        example_table(),
    ];
    for base in [2u64, 3, 4, 7, 16] {
        let (indices, lengths, sum_length) = get_lut_output_indices(&tables, base).unwrap();
        assert_eq!(lengths.len(), tables.len());
        assert_eq!(indices.len(), lengths.iter().sum::<usize>());
        let mut k = 0;
        for (t, length) in lengths.iter().enumerate() {
            assert_eq!(*length, length_in_base(max_entry(&tables[t]), base));
            assert!(*length <= sum_length);
            for d in 0..*length {
                assert_eq!(indices[k], (t * sum_length + d) as u64);
                assert_eq!(indices[k] as usize % sum_length, d);
                assert_eq!(indices[k] as usize / sum_length, t);
                assert!((indices[k] as usize) < tables.len() * sum_length);
                k += 1;
            }
        }
        for i in 0..indices.len() {
            for j in 0..i {
                assert_ne!(indices[i], indices[j]);
            }
        }
        for i in 1..indices.len() {
            assert!(indices[i - 1] < indices[i]);
        }
    }
}

#[test]
fn no_tables_have_no_places() {
    assert_eq!(get_lut_output_indices(&[], 2), Ok((vec![], vec![], 1)));
}

#[test]
fn a_table_without_entries_gets_no_places() {
    assert_eq!(get_lut_output_indices(&[example_table(), vec![]], 2), Err(PlanError::EmptyTable));
    assert_eq!(get_lut_output_indices(&[vec![vec![]]], 2), Err(PlanError::EmptyTable));
}

#[test]
fn no_places_in_a_base_below_two() {
    assert_eq!(get_lut_output_indices(&[example_table()], 1), Err(PlanError::DigitOverflow));
    assert_eq!(get_lut_output_indices(&[example_table()], 0), Err(PlanError::DigitOverflow));
    assert_eq!(get_lut_output_indices(&[], 0), Err(PlanError::DigitOverflow));
    assert_eq!(get_lut_output_indices(&[], 1), Ok((vec![], vec![], 1)));
    let zeros = vec![vec![0u64]];
    assert_eq!(
        get_lut_output_indices(&[zeros.clone(), zeros], 1),
        Ok((vec![0, 1], vec![1, 1], 1))
    );
}

#[test]
fn a_sum_of_greatest_entries_beyond_u64_is_refused() {
    let high = vec![vec![u64::MAX]];
    assert_eq!(get_lut_output_indices(&[high.clone(), high.clone()], 2), Err(PlanError::Overflow));
    assert_eq!(
        get_lut_output_indices(&[high.clone(), vec![vec![0u64]]], 2),
        Ok(((0..65).collect(), vec![64, 1], 64))
    );
    assert_eq!(
        get_lut_output_indices(&[high.clone(), high, vec![]], 2),
        Err(PlanError::EmptyTable)
    );
}
