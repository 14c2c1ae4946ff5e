use magic_cube::errors::FractalError;
use magic_cube::expand::{expand, LeafPlacement};
use magic_cube::matrix::RuleMatrix;

fn rows(m: &[&[u32]]) -> Vec<Vec<u32>> {
    m.iter().map(|r| r.to_vec()).collect()
}

fn placement(scale_num: u64, x: u64, y: u64, z: u64, denom: u64) -> LeafPlacement {
    LeafPlacement { scale_num, x_num: x, y_num: y, z_num: z, denom }
}

#[test]
fn base_case_returns_the_base_cube() {
    let m = rows(&[&[0, 1], &[1, 0]]);
    let got = expand(&m, 0, 5, 10, 20, 30).unwrap();
    assert_eq!(got, vec![placement(5, 10, 20, 30, 1)]);
}

#[test]
fn leaf_count_square_two_depth_one() {
    let m = rows(&[&[0, 1], &[1, 0]]);
    assert_eq!(expand(&m, 1, 2, 0, 0, 0).unwrap().len(), 4);
}

#[test]
fn leaf_count_square_two_depth_two() {
    let m = rows(&[&[0, 1], &[1, 0]]);
    assert_eq!(expand(&m, 2, 4, 0, 0, 0).unwrap().len(), 16);
}

#[test]
fn leaf_count_square_four_depth_zero() {
    let m = rows(&[&[2, 3, 0, 1], &[1, 2, 3, 0], &[0, 1, 2, 3], &[3, 0, 1, 2]]);
    assert_eq!(expand(&m, 0, 4, 0, 0, 0).unwrap().len(), 1);
}

#[test]
fn expansion_is_deterministic() {
    let m = rows(&[&[0, 2], &[1, 3], &[2, 0]]);
    let a = expand(&m, 2, 9, 1, 2, 3).unwrap();
    let b = expand(&m, 2, 9, 1, 2, 3).unwrap();
    assert_eq!(a, b);
}

#[test]
fn depth_one_values_in_preorder() {
    // two rows, scale 2: the new scale is 2/2, so cell (i, j) with entry e
    // sits at numerators (2i, 2j, 2e) over denominator 2.
    let m = rows(&[&[0, 1], &[2, 3]]);
    let got = expand(&m, 1, 2, 0, 0, 0).unwrap();
    let want = vec![
        placement(2, 0, 0, 0, 2),
        placement(2, 0, 2, 2, 2),
        placement(2, 2, 0, 4, 2),
        placement(2, 2, 2, 6, 2),
    ];
    assert_eq!(got, want);
}

#[test]
fn scale_halves_at_each_level() {
    let m = rows(&[&[0, 1], &[1, 0]]);
    let got = expand(&m, 2, 7, 0, 0, 0).unwrap();
    for p in &got {
        assert_eq!(p.scale_num, 7);
        assert_eq!(p.denom, 4);
    }
}

#[test]
fn base_position_is_carried_through() {
    let m = rows(&[&[1]]);
    // one cell: every level keeps the single placement; the base position
    // numerators are multiplied along with the denominator.
    let got = expand(&m, 2, 1, 3, 4, 5).unwrap();
    assert_eq!(got.len(), 1);
    // n == 1, so the denominator stays 1 and each level adds the entry.
    assert_eq!(got[0], placement(1, 3, 4, 7, 1));
}

#[test]
fn jagged_rows_change_the_branching() {
    let m = rows(&[&[0], &[1, 2]]);
    // three cells per level, two levels: nine leaves.
    assert_eq!(expand(&m, 2, 8, 0, 0, 0).unwrap().len(), 9);
}

#[test]
fn empty_row_contributes_nothing() {
    let m = rows(&[&[0], &[]]);
    assert_eq!(expand(&m, 3, 8, 0, 0, 0).unwrap().len(), 1);
}

#[test]
fn all_rows_empty_yield_no_leaves() {
    let m = rows(&[&[], &[]]);
    assert_eq!(expand(&m, 1, 8, 0, 0, 0).unwrap(), vec![]);
}

#[test]
fn guard_rejects_explosive_expansion() {
    // dimension 10, depth 8: 10^16 projected leaves.
    let row: Vec<u32> = (0..10).collect();
    let m: Vec<Vec<u32>> = (0..10).map(|_| row.clone()).collect();
    assert_eq!(expand(&m, 8, 4, 0, 0, 0), Err(FractalError::ExpansionTooLarge));
}

#[test]
fn guard_rejects_coordinate_overflow() {
    // a single cell never exceeds the leaf ceiling, but the third axis
    // offset u32::MAX * u64::MAX cannot be represented exactly.
    let m = rows(&[&[u32::MAX, 1]]);
    assert_eq!(expand(&m, 1, u64::MAX, 0, 0, 0), Err(FractalError::ExpansionTooLarge));
}

#[test]
fn depth_beyond_range_is_rejected() {
    let m = rows(&[&[0]]);
    assert_eq!(expand(&m, 9, 1, 0, 0, 0), Err(FractalError::InvalidDepth));
}

#[test]
fn empty_matrix_is_rejected_by_the_expander() {
    let m: Vec<Vec<u32>> = vec![];
    assert_eq!(expand(&m, 1, 1, 0, 0, 0), Err(FractalError::EmptyRuleMatrix));
}

#[test]
fn empty_matrix_is_rejected_at_construction() {
    assert_eq!(
        RuleMatrix::from_rows(vec![]).map(|m| m.dimension()),
        Err(FractalError::InvalidMatrix)
    );
}

#[test]
fn matrix_accessors_report_rows() {
    let m = RuleMatrix::from_rows(rows(&[&[1, 2], &[3]])).unwrap();
    assert_eq!(m.dimension(), 2);
    assert_eq!(m.row(0).unwrap(), &vec![1, 2]);
    assert_eq!(m.row(1).unwrap(), &vec![3]);
    assert_eq!(m.row(2), Err(FractalError::IndexOutOfRange));
}
