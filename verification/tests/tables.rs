use helr_planner::base::get_min_decomp_base;
use helr_planner::error::{ErrorKind, PlanError};
use helr_planner::normalize::offset_helr_tables;
use helr_planner::tables::max_entry;
use helr_planner::transpose::flip_vectors;

fn square(dimension: usize) -> Vec<Vec<u64>> {
    vec![vec![0u64; dimension]; dimension]
}

#[test]
fn offsets_are_taken_out_table_by_table() {
    let raw = vec![
        vec![vec![7i64, 5, 3], vec![4, 3, 9]],
        vec![vec![-2i64, -10], vec![0, -10], vec![25, -3]],
    ];
    let (offset, tables) = offset_helr_tables(&raw).unwrap();
    assert_eq!(offset, 3 + -10);
    assert_eq!(
        tables,
        vec![
            vec![vec![4u64, 2, 0], vec![1, 0, 6]],
            vec![vec![8u64, 0], vec![10, 0], vec![35, 7]],
        ]
    );
}

#[test]
fn the_offset_entry_becomes_zero() {
    let raw = vec![vec![vec![100i64, 50, -20], vec![-20, 0, 1]]];
    let (offset, tables) = offset_helr_tables(&raw).unwrap();
    assert_eq!(offset, -20);
    assert_eq!(tables[0][0][2], 0);
    assert_eq!(tables[0], vec![vec![120u64, 70, 0], vec![0, 20, 21]]);
}

#[test]
fn no_tables_have_no_offset() {
    let (offset, tables) = offset_helr_tables(&[]).unwrap();
    assert_eq!(offset, 0);
    assert!(tables.is_empty());
}

#[test]
fn rows_keep_their_lengths() {
    let raw = vec![vec![vec![1i64], vec![], vec![5, 6, 7]]];
    let (offset, tables) = offset_helr_tables(&raw).unwrap();
    assert_eq!(offset, 1);
    assert_eq!(tables, vec![vec![vec![0u64], vec![], vec![4, 5, 6]]]);
}

#[test]
fn the_whole_range_of_scores_can_be_shifted() {
    let raw = vec![vec![vec![i64::MAX, i64::MIN]]];
    let (offset, tables) = offset_helr_tables(&raw).unwrap();
    assert_eq!(offset, i64::MIN);
    assert_eq!(tables, vec![vec![vec![u64::MAX, 0]]]);
}

#[test]
fn an_entry_below_the_offset_is_refused() {
    let raw = vec![vec![vec![5i64, 3], vec![2, 4]]];
    assert_eq!(offset_helr_tables(&raw), Err(PlanError::NegativeEntry));
}

#[test]
fn a_table_without_offset_is_refused() {
    assert_eq!(offset_helr_tables(&[vec![]]), Err(PlanError::EmptyTable));
    assert_eq!(offset_helr_tables(&[vec![vec![], vec![1i64]]]), Err(PlanError::EmptyTable));
}

#[test]
fn the_first_defective_table_decides() {
    let negative = vec![vec![1i64, 2]];
    let empty: Vec<Vec<i64>> = vec![];
    let sound = vec![vec![3i64, 2]];
    assert_eq!(
        offset_helr_tables(&[sound.clone(), negative.clone(), empty.clone()]),
        Err(PlanError::NegativeEntry)
    );
    assert_eq!(
        offset_helr_tables(&[sound, empty, negative]),
        Err(PlanError::EmptyTable)
    );
}

#[test]
fn a_sum_of_offsets_beyond_i64_is_refused() {
    let high = vec![vec![i64::MAX]];
    assert_eq!(offset_helr_tables(&[high.clone(), high.clone()]), Err(PlanError::Overflow));
    let low = vec![vec![i64::MIN]];
    assert_eq!(offset_helr_tables(&[low.clone(), low.clone()]), Err(PlanError::Overflow));
    let (offset, _) = offset_helr_tables(&[high.clone(), low.clone(), high, low]).unwrap();
    assert_eq!(offset, -2);
}

#[test]
fn a_defect_comes_before_the_overflow() {
    let high = vec![vec![i64::MAX]];
    assert_eq!(
        offset_helr_tables(&[high.clone(), high, vec![]]),
        Err(PlanError::EmptyTable)
    );
}

#[test]
fn failures_have_their_families() {
    assert_eq!(PlanError::NegativeEntry.kind(), ErrorKind::DataIntegrity);
    assert_eq!(PlanError::DigitOverflow.kind(), ErrorKind::DataIntegrity);
    assert_eq!(PlanError::EmptyTable.kind(), ErrorKind::DataIntegrity);
    assert_eq!(PlanError::Overflow.kind(), ErrorKind::DataIntegrity);
    assert_eq!(PlanError::MalformedTable.kind(), ErrorKind::DataIntegrity);
    assert_eq!(PlanError::NoTables.kind(), ErrorKind::Configuration);
    assert_eq!(PlanError::IndexOutOfDomain.kind(), ErrorKind::Configuration);
}

#[test]
fn the_greatest_entry_is_found_anywhere() {
    assert_eq!(max_entry(&vec![vec![5, 3, 1, 0], vec![2, 1, 0, 4], vec![6, 2, 3, 1]]), 6);
    assert_eq!(max_entry(&vec![vec![5, 3], vec![], vec![2, 9]]), 9);
    assert_eq!(max_entry(&vec![vec![u64::MAX]]), u64::MAX);
    assert_eq!(max_entry(&vec![]), 0);
    assert_eq!(max_entry(&vec![vec![], vec![]]), 0);
}

#[test]
fn the_base_is_about_the_root_of_the_dimension() {
    assert_eq!(get_min_decomp_base(&[square(4)]), Ok(2));
    assert_eq!(get_min_decomp_base(&[square(16)]), Ok(4));
    assert_eq!(get_min_decomp_base(&[square(64)]), Ok(8));
    assert_eq!(get_min_decomp_base(&[square(256)]), Ok(16));
    assert_eq!(get_min_decomp_base(&[square(1024)]), Ok(32));
}

#[test]
fn the_base_for_dimensions_between_powers_of_four() {
    assert_eq!(get_min_decomp_base(&[square(1)]), Ok(1));
    assert_eq!(get_min_decomp_base(&[square(2)]), Ok(1));
    assert_eq!(get_min_decomp_base(&[square(3)]), Ok(1));
    assert_eq!(get_min_decomp_base(&[square(5)]), Ok(2));
    assert_eq!(get_min_decomp_base(&[square(8)]), Ok(2));
    assert_eq!(get_min_decomp_base(&[square(15)]), Ok(2));
    assert_eq!(get_min_decomp_base(&[square(17)]), Ok(4));
    assert_eq!(get_min_decomp_base(&[square(63)]), Ok(4));
    assert_eq!(get_min_decomp_base(&[square(65)]), Ok(8));
}

#[test]
fn the_square_of_the_base_is_the_greatest_below_the_dimension() {
    for dimension in 1usize..=300 {
        let base = get_min_decomp_base(&[square(dimension)]).unwrap() as usize;
        assert!(base.is_power_of_two());
        assert!(base * base <= dimension);
        assert!(dimension < 4 * base * base);
    }
}

#[test]
fn the_first_table_gives_the_dimension() {
    assert_eq!(get_min_decomp_base(&[square(16), square(4)]), Ok(4));
    assert_eq!(get_min_decomp_base(&[vec![vec![]; 16]]), Ok(4));
}

#[test]
fn no_base_without_tables() {
    assert_eq!(get_min_decomp_base(&[]), Err(PlanError::NoTables));
    assert_eq!(get_min_decomp_base(&[vec![], square(4)]), Err(PlanError::EmptyTable));
}

#[test]
fn a_matrix_is_transposed() {
    let rows = vec![vec![1, 2, 3], vec![4, 5, 6]];
    assert_eq!(flip_vectors(rows), vec![vec![1, 4], vec![2, 5], vec![3, 6]]);
    assert_eq!(flip_vectors(vec![vec!['a']]), vec![vec!['a']]);
}

#[test]
fn transposing_twice_gives_the_matrix() {
    let rows = vec![vec![1u8, 2, 3, 4], vec![5, 6, 7, 8], vec![9, 10, 11, 12]];
    assert_eq!(flip_vectors(flip_vectors(rows.clone())), rows);
}

#[test]
fn short_rows_leave_no_gap() {
    let rows = vec![vec![1, 2, 3], vec![4], vec![], vec![5, 6]];
    assert_eq!(flip_vectors(rows), vec![vec![1, 4, 5], vec![2, 6], vec![3]]);
}

#[test]
fn empty_rows_have_no_columns() {
    let rows: Vec<Vec<u64>> = vec![vec![], vec![]];
    assert_eq!(flip_vectors(rows), Vec::<Vec<u64>>::new());
    assert_eq!(flip_vectors(Vec::<Vec<u64>>::new()), Vec::<Vec<u64>>::new());
}

#[test]
fn values_that_cannot_be_copied_are_moved() {
    let rows = vec![vec![String::from("a"), String::from("b")], vec![String::from("c")]];
    assert_eq!(
        flip_vectors(rows),
        vec![vec![String::from("a"), String::from("c")], vec![String::from("b")]]
    );
}
