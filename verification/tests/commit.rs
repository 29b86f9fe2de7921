use p3_challenger::{CanObserve, CanSample, DuplexChallenger};
use p3_commit::{ExtensionMmcs, Mmcs};
use p3_dft::{NaiveDft, TwoAdicSubgroupDft};
use p3_field::{BasedVectorSpace, Field, PrimeCharacteristicRing, PrimeField64, TwoAdicField};
use p3_goldilocks::{
    Goldilocks, GOLDILOCKS_POSEIDON2_RC_8_EXTERNAL_FINAL, GOLDILOCKS_POSEIDON2_RC_8_EXTERNAL_INITIAL,
    GOLDILOCKS_POSEIDON2_RC_8_INTERNAL,
};
use p3_matrix::dense::{RowMajorMatrix, RowMajorMatrixView};
use p3_matrix::Matrix;
use p3_multilinear_util::poly::Poly;
use p3_poseidon2::ExternalLayerConstants;
use whir_commit::commit::{
    commit_base, commit_base_fused, commit_extension, commit_extension_fused, try_commit_base,
    try_commit_base_fused, try_commit_extension, try_commit_extension_fused, base_fused_request,
    extension_fused_request, extension_padded_request, FusedRequest,
};
use whir_commit::layout::VariableOrder;
use whir_commit::plonky3::{
    Challenge, Challenger, Dft, MerkleCompress, MerkleHash, Perm, Val, ValMmcs,
};
use whir_commit::transcript::Transcript;

fn perm() -> Perm {
    Perm::new(
        ExternalLayerConstants::new(
            GOLDILOCKS_POSEIDON2_RC_8_EXTERNAL_INITIAL.to_vec(),
            GOLDILOCKS_POSEIDON2_RC_8_EXTERNAL_FINAL.to_vec(),
        ),
        GOLDILOCKS_POSEIDON2_RC_8_INTERNAL.to_vec(),
    )
}

fn mmcs() -> ValMmcs {
    let p = perm();
    ValMmcs::new(MerkleHash::new(p.clone()), MerkleCompress::new(p), 0)
}

fn fresh_challenger() -> DuplexChallenger<Val, Perm, 8, 4> {
    DuplexChallenger::new(perm())
}

fn sample_four(mut c: DuplexChallenger<Val, Perm, 8, 4>) -> Vec<Val> {
    (0..4).map(|_| c.sample()).collect()
}

fn base_poly(n: usize) -> Poly<Val> {
    Poly::new((0..1u64 << n).map(|i| Val::from_u64(i * i + 3 * i + 7)).collect())
}

fn ext_poly(n: usize) -> Poly<Challenge> {
    Poly::new(
        (0..1u64 << n)
            .map(|i| Challenge::new([Val::from_u64(5 * i + 1), Val::from_u64(i * i + 2)]))
            .collect(),
    )
}

/// The expected codeword, computed independently with Plonky3's matrix
/// operations and the naive DFT.
fn expected_base_codeword(
    order: VariableOrder,
    poly: &Poly<Val>,
    folding: usize,
    rate: usize,
) -> RowMajorMatrix<Val> {
    let n = poly.num_variables();
    let height = 1 << (n + rate - folding);
    let mut mat = match order {
        VariableOrder::Prefix => {
            RowMajorMatrixView::new(poly.as_slice(), 1 << (n - folding)).transpose()
        }
        VariableOrder::Suffix => RowMajorMatrix::new(poly.as_slice().to_vec(), 1 << folding),
    };
    mat.pad_to_height(height, Val::ZERO);
    NaiveDft.dft_batch(mat)
}

fn expected_ext_codeword(
    order: VariableOrder,
    poly: &Poly<Challenge>,
    folding: usize,
    inv_rate: usize,
) -> RowMajorMatrix<Challenge> {
    let n = poly.num_variables();
    let height = inv_rate * (1 << (n - folding));
    let mut mat = match order {
        VariableOrder::Prefix => {
            RowMajorMatrixView::new(poly.as_slice(), 1 << (n - folding)).transpose()
        }
        VariableOrder::Suffix => RowMajorMatrix::new(poly.as_slice().to_vec(), 1 << folding),
    };
    mat.pad_to_height(height, Challenge::ZERO);
    <NaiveDft as TwoAdicSubgroupDft<Val>>::dft_algebra_batch(&NaiveDft, mat)
}

fn check_commit_base(order: VariableOrder, n: usize, folding: usize, rate: usize) {
    let poly = base_poly(n);
    let mmcs = mmcs();
    let mut transcript = Transcript::new(Challenger(fresh_challenger()));
    let (root, tree) =
        commit_base(order, &Dft::default(), &mmcs, &mut transcript, &poly, folding, rate);

    let expected = expected_base_codeword(order, &poly, folding, rate);
    let committed = mmcs.get_matrices(&tree);
    assert_eq!(committed.len(), 1);
    assert_eq!(committed[0].width(), 1 << folding);
    assert_eq!(committed[0].values, expected.values);

    let (expected_root, _) = mmcs.commit_matrix(expected);
    assert_eq!(root, expected_root);

    let mut manual = fresh_challenger();
    manual.observe(&expected_root);
    assert_eq!(
        sample_four(transcript.into_challenger().0),
        sample_four(manual)
    );
}

#[test]
fn commit_base_prefix_matches_naive_encoding() {
    check_commit_base(VariableOrder::Prefix, 4, 2, 1);
    check_commit_base(VariableOrder::Prefix, 5, 1, 2);
}

#[test]
fn commit_base_suffix_matches_naive_encoding() {
    check_commit_base(VariableOrder::Suffix, 4, 2, 1);
    check_commit_base(VariableOrder::Suffix, 5, 3, 0);
}

#[test]
fn commit_base_edge_shapes() {
    // one variable, folded completely, no expansion: a single row
    check_commit_base(VariableOrder::Prefix, 1, 1, 0);
    check_commit_base(VariableOrder::Suffix, 1, 1, 0);
    // nothing folded: a single column
    check_commit_base(VariableOrder::Prefix, 3, 0, 1);
    check_commit_base(VariableOrder::Suffix, 3, 0, 1);
}

#[test]
fn commit_base_codeword_is_reed_solomon() {
    // the rows of the codeword are the column polynomials of the unpadded
    // layout evaluated at the powers of the subgroup generator
    let (n, folding, rate) = (4, 1, 2);
    let poly = base_poly(n);
    let mmcs = mmcs();
    let mut transcript = Transcript::new(Challenger(fresh_challenger()));
    let (_, tree) = commit_base(
        VariableOrder::Suffix,
        &Dft::default(),
        &mmcs,
        &mut transcript,
        &poly,
        folding,
        rate,
    );
    let code = mmcs.get_matrices(&tree)[0].clone();
    let width = 1 << folding;
    let rows = 1 << (n - folding);
    let height = 1 << (n + rate - folding);
    let g = Val::two_adic_generator(n + rate - folding);
    for i in 0..height {
        let x = g.exp_u64(i as u64);
        for c in 0..width {
            let mut acc = Val::ZERO;
            for k in (0..rows).rev() {
                acc = acc * x + poly.as_slice()[k * width + c];
            }
            assert_eq!(code.values[i * width + c], acc);
        }
    }
    // the first row holds the column sums
    for c in 0..width {
        let sum: Val = (0..rows).map(|k| poly.as_slice()[k * width + c]).sum();
        assert_eq!(code.values[c], sum);
    }
}

#[test]
fn fused_without_accelerator_prefix_observes_once() {
    let poly = base_poly(4);
    let mmcs = mmcs();
    let mut transcript = Transcript::new(Challenger(fresh_challenger()));
    let (root, tree) = commit_base_fused(
        VariableOrder::Prefix,
        &Dft::default(),
        &mmcs,
        &mut transcript,
        &poly,
        2,
        1,
        None,
    );
    let expected = expected_base_codeword(VariableOrder::Prefix, &poly, 2, 1);
    assert_eq!(mmcs.get_matrices(&tree)[0].values, expected.values);
    let (expected_root, _) = mmcs.commit_matrix(expected);
    assert_eq!(root, expected_root);

    let mut manual = fresh_challenger();
    manual.observe(&expected_root);
    assert_eq!(sample_four(transcript.into_challenger().0), sample_four(manual));
}

#[test]
fn fused_without_accelerator_suffix_observes_once() {
    let poly = base_poly(4);
    let mmcs = mmcs();
    let mut transcript = Transcript::new(Challenger(fresh_challenger()));
    let (root, tree) = commit_base_fused(
        VariableOrder::Suffix,
        &Dft::default(),
        &mmcs,
        &mut transcript,
        &poly,
        2,
        1,
        None,
    );
    let expected = expected_base_codeword(VariableOrder::Suffix, &poly, 2, 1);
    assert_eq!(mmcs.get_matrices(&tree)[0].values, expected.values);
    let (expected_root, _) = mmcs.commit_matrix(expected);
    assert_eq!(root, expected_root);

    let mut manual = fresh_challenger();
    manual.observe(&expected_root);
    assert_eq!(sample_four(transcript.into_challenger().0), sample_four(manual));
}

#[test]
fn fused_with_accelerator_keeps_its_commitment() {
    let poly = base_poly(3);
    let mmcs = mmcs();
    // an accelerated result, here computed on a different matrix so that it
    // can be told apart from what the CPU path would give
    let other = RowMajorMatrix::new((0..16u64).map(Val::from_u64).collect(), 2);
    let (acc_root, acc_tree) = mmcs.commit_matrix(other.clone());
    for order in [VariableOrder::Prefix, VariableOrder::Suffix] {
        let mut transcript = Transcript::new(Challenger(fresh_challenger()));
        let (root, tree) = commit_base_fused(
            order,
            &Dft::default(),
            &mmcs,
            &mut transcript,
            &poly,
            1,
            1,
            Some((acc_root.clone(), acc_tree.clone())),
        );
        assert_eq!(root, acc_root);
        assert_eq!(mmcs.get_matrices(&tree)[0].values, other.values);
        let mut manual = fresh_challenger();
        manual.observe(&acc_root);
        assert_eq!(sample_four(transcript.into_challenger().0), sample_four(manual));
    }
}

fn check_commit_extension(order: VariableOrder, n: usize, folding: usize, inv_rate: usize) {
    let poly = ext_poly(n);
    let mmcs = mmcs();
    let ext_mmcs = ExtensionMmcs::<Val, Challenge, ValMmcs>::new(mmcs.clone());
    let (root, tree) =
        commit_extension(order, &Dft::default(), &ext_mmcs, &poly, folding, inv_rate);
    let expected = expected_ext_codeword(order, &poly, folding, inv_rate);
    let committed = ext_mmcs.get_matrices(&tree);
    assert_eq!(committed.len(), 1);
    assert_eq!(committed[0].width(), 1 << folding);
    let got: Vec<Challenge> = committed[0].values.clone();
    assert_eq!(got, expected.values);
    let flat: Vec<Val> = expected
        .values
        .iter()
        .flat_map(|x| {
            let c: &[Val] = x.as_basis_coefficients_slice();
            [c[0], c[1]]
        })
        .collect();
    let (base_root, _) = mmcs.commit_matrix(RowMajorMatrix::new(flat, 2 << folding));
    let (expected_root, _) = ext_mmcs.commit_matrix(expected);
    assert_eq!(root, expected_root);
    assert_eq!(root, base_root);
}

#[test]
fn commit_extension_matches_naive_encoding() {
    check_commit_extension(VariableOrder::Prefix, 4, 2, 2);
    check_commit_extension(VariableOrder::Suffix, 4, 2, 2);
    check_commit_extension(VariableOrder::Prefix, 3, 1, 1);
    check_commit_extension(VariableOrder::Suffix, 5, 1, 4);
}

#[test]
fn commit_extension_fused_without_accelerator() {
    let poly = ext_poly(4);
    let mmcs = mmcs();
    for order in [VariableOrder::Prefix, VariableOrder::Suffix] {
        let (root, tree) =
            commit_extension_fused(order, &Dft::default(), &mmcs, &poly, 2, 2, None);
        let ext_mmcs = ExtensionMmcs::<Val, Challenge, ValMmcs>::new(mmcs.clone());
        let expected = expected_ext_codeword(order, &poly, 2, 2);
        let got: Vec<Challenge> = ext_mmcs.get_matrices(&tree)[0].values.clone();
        assert_eq!(got, expected.values);
        let (expected_root, _) = ext_mmcs.commit_matrix(expected);
        assert_eq!(root, expected_root);
    }
}

#[test]
fn commit_extension_fused_with_accelerator() {
    let poly = ext_poly(3);
    let mmcs = mmcs();
    let ext_mmcs = ExtensionMmcs::<Val, Challenge, ValMmcs>::new(mmcs.clone());
    let other = RowMajorMatrix::new(
        (0..8u64).map(|i| Challenge::new([Val::from_u64(i), Val::ONE])).collect(),
        2,
    );
    let (acc_root, acc_tree) = ext_mmcs.commit_matrix(other.clone());
    let (root, tree) = commit_extension_fused(
        VariableOrder::Prefix,
        &Dft::default(),
        &mmcs,
        &poly,
        1,
        2,
        Some((acc_root.clone(), acc_tree)),
    );
    assert_eq!(root, acc_root);
    let got: Vec<Challenge> = ext_mmcs.get_matrices(&tree)[0].values.clone();
    assert_eq!(got, other.values);
}

#[test]
fn codeword_values_are_canonical() {
    let poly = Poly::new(vec![Goldilocks::NEG_ONE; 8]);
    let mmcs = mmcs();
    let mut transcript = Transcript::new(Challenger(fresh_challenger()));
    let (_, tree) = commit_base(
        VariableOrder::Prefix,
        &Dft::default(),
        &mmcs,
        &mut transcript,
        &poly,
        1,
        1,
    );
    let code = &mmcs.get_matrices(&tree)[0].values;
    assert!(code.iter().all(|x| x.as_canonical_u64() < Goldilocks::ORDER_U64));
    // the first row: four copies of -1 summed per column
    assert_eq!(code[0], Goldilocks::from_u64(4) * Goldilocks::NEG_ONE);
    let _ = Val::ONE.square();
}

/// The codeword of the evaluations [1, 2, 3, 4] with one folded variable and
/// rate 1/2, written out with `w` the generator of the subgroup of order 4.
fn four_point_codeword(order: VariableOrder) -> Vec<Val> {
    let w = Val::two_adic_generator(2);
    assert_eq!(w * w, Val::NEG_ONE);
    let v = |x: u64| Val::from_u64(x);
    match order {
        // layout [[1, 2], [3, 4]]
        VariableOrder::Suffix => vec![
            v(4),
            v(6),
            v(1) + v(3) * w,
            v(2) + v(4) * w,
            -v(2),
            -v(2),
            v(1) - v(3) * w,
            v(2) - v(4) * w,
        ],
        // layout [[1, 3], [2, 4]]
        VariableOrder::Prefix => vec![
            v(3),
            v(7),
            v(1) + v(2) * w,
            v(3) + v(4) * w,
            -v(1),
            -v(1),
            v(1) - v(2) * w,
            v(3) - v(4) * w,
        ],
    }
}

#[test]
fn four_point_codewords_written_out() {
    let poly = Poly::new((1..=4u64).map(Val::from_u64).collect());
    let mmcs = mmcs();
    for order in [VariableOrder::Suffix, VariableOrder::Prefix] {
        let mut transcript = Transcript::new(Challenger(fresh_challenger()));
        let (root, tree) =
            commit_base(order, &Dft::default(), &mmcs, &mut transcript, &poly, 1, 1);
        let expected = four_point_codeword(order);
        assert_eq!(mmcs.get_matrices(&tree)[0].values, expected);
        let (expected_root, _) = mmcs.commit_matrix(RowMajorMatrix::new(expected, 2));
        assert_eq!(root, expected_root);
    }
}

#[test]
fn orders_agree_without_split() {
    let poly = base_poly(3);
    let mmcs = mmcs();
    for folding in [0, 3] {
        let mut t1 = Transcript::new(Challenger(fresh_challenger()));
        let mut t2 = Transcript::new(Challenger(fresh_challenger()));
        let a = commit_base(VariableOrder::Prefix, &Dft::default(), &mmcs, &mut t1, &poly, folding, 1);
        let b = commit_base(VariableOrder::Suffix, &Dft::default(), &mmcs, &mut t2, &poly, folding, 1);
        assert_eq!(a.0, b.0);
        assert_eq!(sample_four(t1.into_challenger().0), sample_four(t2.into_challenger().0));
    }
}

#[test]
fn prefix_is_suffix_of_the_transposed_evaluations() {
    let (n, folding) = (4, 1);
    let poly = base_poly(n);
    let rows = 1 << (n - folding);
    let width = 1 << folding;
    let mut q = vec![Val::ZERO; 1 << n];
    for i in 0..rows {
        for j in 0..width {
            q[i * width + j] = poly.as_slice()[j * rows + i];
        }
    }
    let q = Poly::new(q);
    let mmcs = mmcs();
    let mut t1 = Transcript::new(Challenger(fresh_challenger()));
    let mut t2 = Transcript::new(Challenger(fresh_challenger()));
    let a = commit_base(VariableOrder::Prefix, &Dft::default(), &mmcs, &mut t1, &poly, folding, 2);
    let b = commit_base(VariableOrder::Suffix, &Dft::default(), &mmcs, &mut t2, &q, folding, 2);
    assert_eq!(a.0, b.0);
}

#[test]
fn try_commit_base_refuses_too_much_folding() {
    let poly = base_poly(3);
    let mmcs = mmcs();
    let mut transcript = Transcript::new(Challenger(fresh_challenger()));
    assert!(try_commit_base(VariableOrder::Prefix, &Dft::default(), &mmcs, &mut transcript, &poly, 4, 1).is_none());
    // the height 2^(3 + 31 - 1) exceeds the two-adicity
    assert!(try_commit_base(VariableOrder::Suffix, &Dft::default(), &mmcs, &mut transcript, &poly, 1, 31).is_none());
    // nothing was observed
    assert_eq!(
        sample_four(transcript.into_challenger().0),
        sample_four(fresh_challenger())
    );
}

#[test]
fn try_commit_base_commits_when_it_fits() {
    let poly = base_poly(3);
    let mmcs = mmcs();
    let mut t1 = Transcript::new(Challenger(fresh_challenger()));
    let mut t2 = Transcript::new(Challenger(fresh_challenger()));
    let a = try_commit_base(VariableOrder::Prefix, &Dft::default(), &mmcs, &mut t1, &poly, 1, 1)
        .expect("fits");
    let b = commit_base(VariableOrder::Prefix, &Dft::default(), &mmcs, &mut t2, &poly, 1, 1);
    assert_eq!(a.0, b.0);
    assert_eq!(sample_four(t1.into_challenger().0), sample_four(t2.into_challenger().0));
}

#[test]
fn try_commit_base_fused_takes_accelerated_result_past_the_two_adicity() {
    let poly = base_poly(3);
    let mmcs = mmcs();
    let other = RowMajorMatrix::new((0..16u64).map(Val::from_u64).collect(), 2);
    let acc = mmcs.commit_matrix(other);
    let mut transcript = Transcript::new(Challenger(fresh_challenger()));
    // no CPU fallback is possible at this height, but the accelerated result is kept
    let r = try_commit_base_fused(
        VariableOrder::Suffix,
        &Dft::default(),
        &mmcs,
        &mut transcript,
        &poly,
        1,
        31,
        Some((acc.0.clone(), acc.1)),
    )
    .expect("shape fits");
    assert_eq!(r.0, acc.0);
    let mut transcript = Transcript::new(Challenger(fresh_challenger()));
    assert!(try_commit_base_fused(
        VariableOrder::Suffix,
        &Dft::default(),
        &mmcs,
        &mut transcript,
        &poly,
        1,
        31,
        None,
    )
    .is_none());
}

#[test]
fn try_commit_extension_checks_the_rate() {
    let poly = ext_poly(3);
    let mmcs = mmcs();
    let ext_mmcs = ExtensionMmcs::<Val, Challenge, ValMmcs>::new(mmcs.clone());
    // an inverse rate of 3 is not a power of two
    assert!(try_commit_extension(VariableOrder::Prefix, &Dft::default(), &ext_mmcs, &poly, 1, 3).is_none());
    assert!(try_commit_extension(VariableOrder::Prefix, &Dft::default(), &ext_mmcs, &poly, 4, 2).is_none());
    let a = try_commit_extension(VariableOrder::Prefix, &Dft::default(), &ext_mmcs, &poly, 1, 2)
        .expect("fits");
    let b = commit_extension(VariableOrder::Prefix, &Dft::default(), &ext_mmcs, &poly, 1, 2);
    assert_eq!(a.0, b.0);
    let c = try_commit_extension_fused(VariableOrder::Prefix, &Dft::default(), &mmcs, &poly, 1, 2, None)
        .expect("fits");
    assert_eq!(c.0, b.0);
    assert!(try_commit_extension_fused(VariableOrder::Suffix, &Dft::default(), &mmcs, &poly, 1, 3, None).is_none());
}

fn base_leaves(order: VariableOrder, poly: &Poly<Val>, folding: usize, rate: usize) -> Vec<Val> {
    let mmcs = mmcs();
    let mut transcript = Transcript::new(Challenger(fresh_challenger()));
    let (_, tree) = commit_base(order, &Dft::default(), &mmcs, &mut transcript, poly, folding, rate);
    mmcs.get_matrices(&tree)[0].values.clone()
}

#[test]
fn codeword_is_linear() {
    let a = base_poly(4);
    let b = Poly::new((0..16u64).map(|i| Val::from_u64(7 * i + 11)).collect());
    let (s, t) = (Val::from_u64(3), Val::from_u64(5));
    let c = Poly::new(
        a.as_slice().iter().zip(b.as_slice()).map(|(x, y)| s * *x + t * *y).collect(),
    );
    for order in [VariableOrder::Prefix, VariableOrder::Suffix] {
        let ca = base_leaves(order, &a, 2, 1);
        let cb = base_leaves(order, &b, 2, 1);
        let cc = base_leaves(order, &c, 2, 1);
        let combined: Vec<Val> = ca.iter().zip(&cb).map(|(x, y)| s * *x + t * *y).collect();
        assert_eq!(cc, combined);
    }
}

#[test]
fn base_and_extension_codewords_agree() {
    let a = base_poly(4);
    let e = Poly::new(
        a.as_slice().iter().map(|x| Challenge::new([*x, Val::ZERO])).collect(),
    );
    let mmcs = mmcs();
    let ext_mmcs = ExtensionMmcs::<Val, Challenge, ValMmcs>::new(mmcs.clone());
    for order in [VariableOrder::Prefix, VariableOrder::Suffix] {
        let base = base_leaves(order, &a, 1, 2);
        let (_, tree) = commit_extension(order, &Dft::default(), &ext_mmcs, &e, 1, 4);
        let ext: Vec<Challenge> = ext_mmcs.get_matrices(&tree)[0].values.clone();
        let embedded: Vec<Challenge> =
            base.iter().map(|x| Challenge::new([*x, Val::ZERO])).collect();
        assert_eq!(ext, embedded);
    }
}

#[test]
fn generator_table_squares_down() {
    // each generator squares to the previous one, the first two being 1 and -1
    assert_eq!(Val::two_adic_generator(0), Val::ONE);
    assert_eq!(Val::two_adic_generator(1), Val::NEG_ONE);
    for k in 0..32 {
        let g = Val::two_adic_generator(k + 1);
        assert_eq!(g * g, Val::two_adic_generator(k));
    }
}

#[test]
fn codeword_scales_by_extension_elements() {
    let a = ext_poly(3);
    let l = Challenge::new([Val::from_u64(3), Val::from_u64(10)]);
    let la = Poly::new(a.as_slice().iter().map(|x| l * *x).collect());
    let mmcs = mmcs();
    let ext_mmcs = ExtensionMmcs::<Val, Challenge, ValMmcs>::new(mmcs.clone());
    for order in [VariableOrder::Prefix, VariableOrder::Suffix] {
        let (_, ta) = commit_extension(order, &Dft::default(), &ext_mmcs, &a, 1, 2);
        let (_, tl) = commit_extension(order, &Dft::default(), &ext_mmcs, &la, 1, 2);
        let ca: Vec<Challenge> = ext_mmcs.get_matrices(&ta)[0].values.clone();
        let cl: Vec<Challenge> = ext_mmcs.get_matrices(&tl)[0].values.clone();
        let scaled: Vec<Challenge> = ca.iter().map(|x| l * *x).collect();
        assert_eq!(cl, scaled);
    }
}

#[test]
fn base_requests() {
    let poly = base_poly(3);
    match base_fused_request(VariableOrder::Prefix, &poly, 1, 2) {
        FusedRequest::TransposePad { in_rows, in_cols, padded_height } => {
            assert_eq!((in_rows, in_cols, padded_height), (2, 4, 16));
        }
        FusedRequest::Padded { .. } => panic!("prefix order asks for the fused transpose"),
    }
    match base_fused_request(VariableOrder::Suffix, &poly, 1, 1) {
        FusedRequest::Padded { values, width } => {
            assert_eq!(width, 2);
            let mut expected: Vec<u64> =
                poly.as_slice().iter().map(|x| x.as_canonical_u64()).collect();
            expected.resize(16, 0);
            assert_eq!(values, expected);
        }
        FusedRequest::TransposePad { .. } => panic!("suffix order asks for the padded matrix"),
    }
}

#[test]
fn extension_requests() {
    let poly = ext_poly(2);
    match extension_fused_request(VariableOrder::Prefix, &poly, 1, 4) {
        FusedRequest::TransposePad { in_rows, in_cols, padded_height } => {
            assert_eq!((in_rows, in_cols, padded_height), (2, 2, 8));
        }
        FusedRequest::Padded { .. } => panic!("prefix order asks for the fused transpose"),
    }
    // evaluations (5i + 1, i^2 + 2) for i = 0..4, transposed as [[e0, e2], [e1, e3]]
    let (values, width) = extension_padded_request(VariableOrder::Prefix, &poly, 1, 2);
    assert_eq!(width, 2);
    assert_eq!(values, vec![[1, 2], [11, 6], [6, 3], [16, 11], [0, 0], [0, 0], [0, 0], [0, 0]]);
    match extension_fused_request(VariableOrder::Suffix, &poly, 1, 2) {
        FusedRequest::Padded { values, width } => {
            assert_eq!(width, 2);
            assert_eq!(values, vec![[1, 2], [6, 3], [11, 6], [16, 11], [0, 0], [0, 0], [0, 0], [0, 0]]);
        }
        FusedRequest::TransposePad { .. } => panic!("suffix order asks for the padded matrix"),
    }
}
