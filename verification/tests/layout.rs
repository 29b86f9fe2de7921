use whir_commit::layout::{
    base_height, extension_height, lay_out, pad_to_height, pow2_usize, transpose, VariableOrder,
};

#[test]
fn transpose_two_by_three() {
    let m = vec![1u64, 2, 3, 4, 5, 6];
    assert_eq!(transpose(&m, 3), vec![1, 4, 2, 5, 3, 6]);
}

#[test]
fn transpose_twice_is_identity() {
    let m: Vec<u64> = (0..24).collect();
    let t = transpose(&m, 4);
    assert_eq!(transpose(&t, 6), m);
}

#[test]
fn transpose_single_row_and_column() {
    let row = vec![7u64, 8, 9];
    assert_eq!(transpose(&row, 3), vec![7, 8, 9]);
    assert_eq!(transpose(&row, 1), vec![7, 8, 9]);
}

#[test]
fn pad_appends_fill_rows() {
    let mut m = vec![1u64, 2, 3, 4];
    pad_to_height(&mut m, 2, 4, 0);
    assert_eq!(m, vec![1, 2, 3, 4, 0, 0, 0, 0]);
}

#[test]
fn pad_to_same_height_changes_nothing() {
    let mut m = vec![1u64, 2, 3, 4];
    pad_to_height(&mut m, 2, 2, 9);
    assert_eq!(m, vec![1, 2, 3, 4]);
}

#[test]
fn powers_of_two() {
    assert_eq!(pow2_usize(0), 1);
    assert_eq!(pow2_usize(5), 32);
    assert_eq!(pow2_usize(20), 1 << 20);
}

#[test]
fn heights() {
    // 2^(n + rate - folding)
    assert_eq!(base_height(3, 1, 1), 8);
    assert_eq!(base_height(4, 4, 0), 1);
    assert_eq!(base_height(10, 4, 2), 256);
    // inv_rate * 2^(n - folding)
    assert_eq!(extension_height(3, 1, 2), 8);
    assert_eq!(extension_height(5, 2, 4), 32);
    assert_eq!(extension_height(2, 2, 1), 1);
}

#[test]
fn prefix_layout_makes_first_variables_columns() {
    // 3 variables, folding 1: columns are indexed by the first variable
    let evals: Vec<u64> = (0..8).collect();
    let m = lay_out(VariableOrder::Prefix, evals, 3, 1, 8, 0);
    assert_eq!(m, vec![0, 4, 1, 5, 2, 6, 3, 7, 0, 0, 0, 0, 0, 0, 0, 0]);
}

#[test]
fn suffix_layout_keeps_rows() {
    let evals: Vec<u64> = (0..8).collect();
    let m = lay_out(VariableOrder::Suffix, evals, 3, 1, 8, 0);
    assert_eq!(m, vec![0, 1, 2, 3, 4, 5, 6, 7, 0, 0, 0, 0, 0, 0, 0, 0]);
}

#[test]
fn prefix_layout_folding_two() {
    // 3 variables, folding 2: width 4, two rows of evaluations
    let evals: Vec<u64> = (10..18).collect();
    let m = lay_out(VariableOrder::Prefix, evals, 3, 2, 2, 0);
    assert_eq!(m, vec![10, 12, 14, 16, 11, 13, 15, 17]);
}

#[test]
fn layout_without_folding() {
    let evals: Vec<u64> = (1..5).collect();
    let p = lay_out(VariableOrder::Prefix, evals.clone(), 2, 0, 8, 0);
    let s = lay_out(VariableOrder::Suffix, evals, 2, 0, 8, 0);
    assert_eq!(p, vec![1, 2, 3, 4, 0, 0, 0, 0]);
    assert_eq!(s, p);
}

#[test]
fn layout_folding_everything() {
    // all variables folded: one row; prefix and suffix agree
    let evals: Vec<u64> = (1..5).collect();
    let p = lay_out(VariableOrder::Prefix, evals.clone(), 2, 2, 2, 0);
    let s = lay_out(VariableOrder::Suffix, evals, 2, 2, 2, 0);
    assert_eq!(p, vec![1, 2, 3, 4, 0, 0, 0, 0]);
    assert_eq!(s, p);
}

#[test]
fn extension_layout_moves_pairs() {
    let evals: Vec<[u64; 2]> = (0..4).map(|i| [i, 100 + i]).collect();
    let m = lay_out(VariableOrder::Prefix, evals, 2, 1, 4, [0, 0]);
    assert_eq!(
        m,
        vec![[0, 100], [2, 102], [1, 101], [3, 103], [0, 0], [0, 0], [0, 0], [0, 0]]
    );
}
