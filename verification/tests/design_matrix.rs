use trueskill::design::{layout, rotate_a_matrix, SignMatrix};
use trueskill::shape::ShapeError;

fn groups_of(sizes: &[usize]) -> Vec<Vec<(f64, f64)>> {
    sizes.iter().map(|&n| vec![(25.0, 5.0); n]).collect()
}

fn rows_of(m: &SignMatrix) -> Vec<Vec<i8>> {
    (0..m.nrows())
        .map(|r| (0..m.ncols()).map(|c| m.get(r, c).unwrap()).collect())
        .collect()
}

fn fault_of(sizes: &[usize], weights: usize) -> ShapeError {
    rotate_a_matrix(&groups_of(sizes), &vec![1.0; weights]).unwrap_err()
}

#[test]
fn one_against_one_is_a_single_difference() {
    let m = rotate_a_matrix(&groups_of(&[1, 1]), &vec![1.0, 1.0]).unwrap();
    assert_eq!(m.nrows(), 1);
    assert_eq!(m.ncols(), 2);
    assert_eq!(rows_of(&m), vec![vec![1, -1]]);
}

#[test]
fn two_teams_give_one_row_of_members_and_opponents() {
    let m = rotate_a_matrix(&groups_of(&[3, 2]), &vec![0.5; 5]).unwrap();
    assert_eq!(rows_of(&m), vec![vec![1, 1, 1, -1, -1]]);
}

#[test]
fn each_row_compares_one_group_with_the_next() {
    let m = rotate_a_matrix(&groups_of(&[2, 1, 3]), &vec![1.0; 6]).unwrap();
    assert_eq!(m.nrows(), 2);
    assert_eq!(m.ncols(), 6);
    assert_eq!(rows_of(&m), vec![vec![1, 1, -1, 0, 0, 0], vec![0, 0, 1, -1, -1, -1]]);
}

#[test]
fn four_singletons_give_a_band_of_differences() {
    let m = rotate_a_matrix(&groups_of(&[1, 1, 1, 1]), &vec![1.0; 4]).unwrap();
    assert_eq!(
        rows_of(&m),
        vec![vec![1, -1, 0, 0], vec![0, 1, -1, 0], vec![0, 0, 1, -1]]
    );
}

#[test]
fn the_weights_only_count() {
    let plain = rotate_a_matrix(&groups_of(&[2, 2]), &vec![1.0; 4]).unwrap();
    let other = rotate_a_matrix(&groups_of(&[2, 2]), &vec!["a", "b", "c", "d"]).unwrap();
    assert_eq!(rows_of(&plain), rows_of(&other));
}

#[test]
fn there_is_no_cell_outside_the_matrix() {
    let m = rotate_a_matrix(&groups_of(&[2, 1, 3]), &vec![1.0; 6]).unwrap();
    assert_eq!(m.get(0, 0), Some(1));
    assert_eq!(m.get(1, 5), Some(-1));
    assert_eq!(m.get(0, 5), Some(0));
    assert_eq!(m.get(2, 0), None);
    assert_eq!(m.get(0, 6), None);
    assert_eq!(m.get(6, 0), None);
}

#[test]
fn no_matrix_for_fewer_than_two_groups() {
    assert_eq!(fault_of(&[], 0), ShapeError::TooFewGroups);
    assert_eq!(fault_of(&[3], 3), ShapeError::TooFewGroups);
    assert_eq!(fault_of(&[0], 0), ShapeError::TooFewGroups);
    assert_eq!(fault_of(&[3], 1), ShapeError::TooFewGroups);
}

#[test]
fn no_matrix_with_an_empty_group() {
    assert_eq!(fault_of(&[1, 0], 1), ShapeError::EmptyGroup { index: 1 });
    assert_eq!(fault_of(&[0, 2, 0], 2), ShapeError::EmptyGroup { index: 0 });
    assert_eq!(fault_of(&[1, 2, 0], 9), ShapeError::EmptyGroup { index: 2 });
}

#[test]
fn no_matrix_for_a_wrong_number_of_weights() {
    assert_eq!(fault_of(&[1, 1], 1), ShapeError::WeightMismatch);
    assert_eq!(fault_of(&[1, 1], 3), ShapeError::WeightMismatch);
    assert_eq!(fault_of(&[2, 3, 1], 0), ShapeError::WeightMismatch);
}

#[test]
fn a_layout_without_weights_uses_the_unit() {
    let l = layout::<(f64, f64), f64>(&groups_of(&[2, 1]), None, 1.0).unwrap();
    assert_eq!(l.weights, vec![1.0, 1.0, 1.0]);
    assert_eq!(rows_of(&l.signs), vec![vec![1, 1, -1]]);
}

#[test]
fn a_layout_flattens_the_weights_given() {
    let given = vec![vec![0.5, 2.0], vec![0.25], vec![4.0, 8.0]];
    let l = layout(&groups_of(&[2, 1, 2]), Some(given), 1.0).unwrap();
    assert_eq!(l.weights, vec![0.5, 2.0, 0.25, 4.0, 8.0]);
    assert_eq!(rows_of(&l.signs), vec![vec![1, 1, -1, 0, 0], vec![0, 0, 1, -1, -1]]);
}

#[test]
fn a_layout_refuses_weights_of_another_shape() {
    let same_total = vec![vec![0.5], vec![0.25, 2.0]];
    let r = layout(&groups_of(&[2, 1]), Some(same_total), 1.0);
    assert_eq!(r.unwrap_err(), ShapeError::WeightMismatch);
    let fewer = vec![vec![0.5, 2.0]];
    let r = layout(&groups_of(&[2, 1]), Some(fewer), 1.0);
    assert_eq!(r.unwrap_err(), ShapeError::WeightMismatch);
}

#[test]
fn a_layout_needs_two_groups() {
    let r = layout::<(f64, f64), f64>(&groups_of(&[]), None, 1.0);
    assert_eq!(r.unwrap_err(), ShapeError::TooFewGroups);
    let r = layout::<(f64, f64), f64>(&groups_of(&[5]), None, 1.0);
    assert_eq!(r.unwrap_err(), ShapeError::TooFewGroups);
    let r = layout(&groups_of(&[5]), Some(vec![vec![1.0]]), 1.0);
    assert_eq!(r.unwrap_err(), ShapeError::TooFewGroups);
}

#[test]
fn a_layout_names_the_empty_group_before_the_weights() {
    let r = layout(&groups_of(&[1, 0, 2]), Some(vec![vec![1.0]]), 1.0);
    assert_eq!(r.unwrap_err(), ShapeError::EmptyGroup { index: 1 });
}
