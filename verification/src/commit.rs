//! Encoding and commitment of polynomials: the first WHIR commitment over the
//! base field, observed into the transcript, and the commitments of the folded
//! polynomials over the extension after each folding round.

use vstd::arithmetic::div_mod::*;
use vstd::arithmetic::mul::*;
use vstd::arithmetic::power::pow;
use vstd::arithmetic::power2::*;
use vstd::prelude::*;

use crate::encoding::{
    canonical, canonical_pairs, coefficients, column_eval, combination, combination_pairs, combines,
    embed, lemma_extension_evaluations_coefficients, scale_pairs,
    evaluations, extension_evaluations, field_prime,
    flatten, lemma_evaluations_canonical, lemma_extension_evaluations_canonical, lemma_log2_pow2,
    lemma_embedded_evaluations, lemma_evaluations_linear, lemma_log2_between, lemma_zero_rows_add_nothing, log2, two_adic_generator, TWO_ADICITY,
};
use crate::layout::{
    base_height, base_height_spec, extension_height, extension_height_spec, lay_out, layout_spec,
    lemma_layout_is_padded_unpadded, lemma_layout_preserves, lemma_orders_agree_without_split, padded, pow2_usize,
    transposed, unpadded_layout_spec, VariableOrder,
};
use crate::plonky3::{
    clone_mmcs, commit_extension_matrix, commit_matrix, dft_algebra_batch, dft_batch,
    extension_mmcs, extension_poly_evals, extension_poly_num_variables, extension_poly_values,
    extension_tree_leaves, commitment_digests, tree_cap_digests, extension_tree_cap_digests,
    extension_merkle_commit, extension_poly_len, extension_scheme, merkle_commit,
    observed_challenger, poly_evals, poly_len, poly_num_variables, poly_values, tree_leaves,
    BaseTree, Challenge, ChallengeMmcs, Commitment, Dft, ExtensionTree, Val,
    ValMmcs,
};
use crate::transcript::Transcript;
use vstd::layout::unsigned_int_max_values;
use p3_multilinear_util::poly::Poly;

verus! {

/// The shape conditions on a base-field commitment: a power-of-two number of
/// evaluations, `folding` at most the number of variables `log2(num_evals)`,
/// and a codeword height `2^(num_variables + starting_log_inv_rate - folding)`
/// that fits in a `usize`.
pub open spec fn base_shape(num_evals: nat, folding: nat, starting_log_inv_rate: nat) -> bool {
    let n = log2(num_evals);
    &&& num_evals == pow2(n)
    &&& folding <= n
    &&& n + starting_log_inv_rate <= usize::MAX
    &&& base_height_spec(n, folding, starting_log_inv_rate) <= usize::MAX
}

/// What the Reed–Solomon expansion of a base-field polynomial needs beyond its
/// shape: a codeword height of at most `2^TWO_ADICITY`, and a codeword of
/// `2^(num_variables + starting_log_inv_rate)` entries that fits in memory.
pub open spec fn base_encodable(num_evals: nat, folding: nat, starting_log_inv_rate: nat) -> bool {
    let n = log2(num_evals);
    &&& base_shape(num_evals, folding, starting_log_inv_rate)
    &&& n + starting_log_inv_rate - folding <= TWO_ADICITY
    &&& pow2(n + starting_log_inv_rate) <= usize::MAX
}

/// The Reed–Solomon codeword of a base-field polynomial with evaluations
/// `evals`: the evaluations laid out in `order` as a matrix of width
/// `2^folding`, zero-padded to `2^(num_variables + starting_log_inv_rate - folding)`
/// rows, and transformed column by column.
pub open spec fn base_codeword(
    order: VariableOrder,
    evals: Seq<u64>,
    folding: nat,
    starting_log_inv_rate: nat,
) -> Seq<u64> {
    let n = log2(evals.len());
    let log_height = (n + starting_log_inv_rate - folding) as nat;
    evaluations(
        layout_spec(order, evals, n, folding, pow2(log_height), 0u64),
        pow2(folding),
        two_adic_generator(log_height) as int,
    )
}

/// The shape conditions on a commitment over the extension: a power-of-two
/// number of evaluations, `folding` at most the number of variables
/// `log2(num_evals)`, and a height `inv_rate * 2^(num_variables - folding)` that
/// fits in a `usize`.
pub open spec fn extension_shape(num_evals: nat, folding: nat, inv_rate: nat) -> bool {
    let n = log2(num_evals);
    &&& num_evals == pow2(n)
    &&& folding <= n
    &&& pow2((n - folding) as nat) <= usize::MAX
    &&& extension_height_spec(n, folding, inv_rate) <= usize::MAX
}

/// What the Reed–Solomon expansion of a polynomial over the extension needs
/// beyond its shape: `inv_rate` a power of two, a height of at most
/// `2^TWO_ADICITY`, and a codeword whose coefficients fit in memory.
pub open spec fn extension_encodable(num_evals: nat, folding: nat, inv_rate: nat) -> bool {
    let n = log2(num_evals);
    &&& extension_shape(num_evals, folding, inv_rate)
    &&& pow2(log2(inv_rate)) == inv_rate
    &&& log2(inv_rate) + n - folding <= TWO_ADICITY
    &&& 2 * inv_rate * pow2(n) <= usize::MAX
}

/// The Reed–Solomon codeword of a polynomial over the extension: its
/// evaluations laid out in `order` as a matrix of width `2^folding`,
/// zero-padded to `inv_rate * 2^(num_variables - folding)` rows, and
/// transformed column by column.
pub open spec fn extension_codeword(
    order: VariableOrder,
    evals: Seq<[u64; 2]>,
    folding: nat,
    inv_rate: nat,
) -> Seq<[u64; 2]> {
    let n = log2(evals.len());
    let height = extension_height_spec(n, folding, inv_rate);
    extension_evaluations(
        layout_spec(order, evals, n, folding, height, [0u64, 0u64]),
        pow2(folding),
        two_adic_generator(log2(height)) as int,
    )
}

/// The layout, padding and transform of a base-field polynomial: the codeword
/// and its width.
fn encode_base(
    order: VariableOrder,
    dft: &Dft,
    poly: &Poly<Val>,
    folding: usize,
    starting_log_inv_rate: usize,
) -> (r: (Vec<u64>, usize))
    requires
        base_encodable(poly_evals(*poly).len(), folding as nat, starting_log_inv_rate as nat),
    ensures
        r.0@ == base_codeword(
            order,
            poly_evals(*poly),
            folding as nat,
            starting_log_inv_rate as nat,
        ),
        r.1 == pow2(folding as nat),
        r.1 > 0,
        r.0.len() > 0,
        r.0.len() % r.1 == 0,
        forall|i: int| 0 <= i < r.0.len() ==> (#[trigger] r.0@[i] as nat) < field_prime(),
{
    let num_variables = poly_num_variables(poly);
    let ghost n = num_variables as nat;
    let ghost log_height = (n + starting_log_inv_rate - folding) as nat;
    proof {
        lemma_log2_pow2(n);
        lemma_pow2_adds(folding as nat, log_height);
        lemma_pow2_adds((n - folding) as nat, starting_log_inv_rate as nat);
        lemma_pow2_pos(folding as nat);
        lemma_pow2_pos(log_height);
        lemma_pow2_pos(starting_log_inv_rate as nat);
        lemma_pow2_pos((n - folding) as nat);
        lemma_mul_increases(pow2(folding as nat) as int, pow2(log_height) as int);
        lemma_mul_increases(pow2(log_height) as int, pow2(folding as nat) as int);
        lemma_mul_is_commutative(pow2(folding as nat) as int, pow2(log_height) as int);
        lemma_mul_increases(pow2(starting_log_inv_rate as nat) as int, pow2((n - folding) as nat) as int);
        lemma_mul_is_commutative(pow2(starting_log_inv_rate as nat) as int, pow2((n - folding) as nat) as int);
    }
    let height = base_height(num_variables, folding, starting_log_inv_rate);
    let width = pow2_usize(folding);
    let padded = lay_out(order, poly_values(poly), num_variables, folding, height, 0u64);
    proof {
        lemma_div_multiples_vanish(height as int, width as int);
        lemma_mod_multiples_basic(height as int, width as int);
        lemma_mul_is_commutative(height as int, width as int);
        lemma_log2_pow2(log_height);
    }
    let encoded = dft_batch(dft, padded, width);
    proof {
        lemma_evaluations_canonical(
            layout_spec(order, poly_evals(*poly), n, folding as nat, pow2(log_height), 0u64),
            pow2(folding as nat),
            two_adic_generator(log_height) as int,
        );
    }
    (encoded, width)
}

/// Encodes and commits the initial base-field polynomial.
///
/// The polynomial is laid out according to `order` as a matrix of width
/// `2^folding`, zero-padded to `2^(num_variables + starting_log_inv_rate - folding)`
/// rows, expanded column by column with `dft`, committed with `mmcs`, and the
/// commitment is observed in the transcript.
///
/// Prefix order transposes the local folding block before padding so the first
/// folded variables become columns; suffix order keeps the folding block as the
/// row width and only zero-pads the row count.
pub fn commit_base(
    order: VariableOrder,
    dft: &Dft,
    mmcs: &ValMmcs,
    transcript: &mut Transcript,
    poly: &Poly<Val>,
    folding: usize,
    starting_log_inv_rate: usize,
) -> (res: (Commitment, BaseTree))
    requires
        base_encodable(poly_evals(*poly).len(), folding as nat, starting_log_inv_rate as nat),
    ensures
        res == merkle_commit(
            *mmcs,
            base_codeword(order, poly_evals(*poly), folding as nat, starting_log_inv_rate as nat),
            pow2(folding as nat),
        ),
        tree_leaves(res.1) == seq![
            (
                base_codeword(
                    order,
                    poly_evals(*poly),
                    folding as nat,
                    starting_log_inv_rate as nat,
                ),
                pow2(folding as nat),
            ),
        ],
        exists|h: nat| commitment_digests(res.0) == #[trigger] tree_cap_digests(res.1, h),
        final(transcript).observed() == old(transcript).observed().push(res.0),
        final(transcript).challenger() == observed_challenger(old(transcript).challenger(), res.0),
{
    let (encoded, width) = encode_base(order, dft, poly, folding, starting_log_inv_rate);
    proof {
        lemma_canonical_codeword(encoded@);
    }
    let (root, prover_data) = commit_matrix(mmcs, encoded, width);
    transcript.observe(&root);
    (root, prover_data)
}

/// Like `commit_base`, when an accelerator may already have performed the
/// fused transpose, pad, transform and Merkle commitment.
///
/// `accelerated` is the outcome of that attempt: the commitment and tree it
/// produced, or `None` when it declined (in prefix order, the fused
/// transpose-pad-transform-commit; in suffix order, the fused transform and
/// commitment of the padded matrix). When it declined, the polynomial is
/// encoded and committed here as `commit_base` does. Either way the
/// commitment is observed in the transcript once.
pub fn commit_base_fused(
    order: VariableOrder,
    dft: &Dft,
    mmcs: &ValMmcs,
    transcript: &mut Transcript,
    poly: &Poly<Val>,
    folding: usize,
    starting_log_inv_rate: usize,
    accelerated: Option<(Commitment, BaseTree)>,
) -> (res: (Commitment, BaseTree))
    requires
        base_shape(poly_evals(*poly).len(), folding as nat, starting_log_inv_rate as nat),
        accelerated is None ==> base_encodable(
            poly_evals(*poly).len(),
            folding as nat,
            starting_log_inv_rate as nat,
        ),
    ensures
        match accelerated {
            Some(r) => res == r,
            None => {
                &&& res == merkle_commit(
                    *mmcs,
                    base_codeword(
                        order,
                        poly_evals(*poly),
                        folding as nat,
                        starting_log_inv_rate as nat,
                    ),
                    pow2(folding as nat),
                )
                &&& tree_leaves(res.1) == seq![
                    (
                        base_codeword(
                            order,
                            poly_evals(*poly),
                            folding as nat,
                            starting_log_inv_rate as nat,
                        ),
                        pow2(folding as nat),
                    ),
                ]
                &&& exists|h: nat| commitment_digests(res.0) == #[trigger] tree_cap_digests(res.1, h)
            },
        },
        final(transcript).observed() == old(transcript).observed().push(res.0),
        final(transcript).challenger() == observed_challenger(old(transcript).challenger(), res.0),
{
    match accelerated {
        Some(result) => {
            transcript.observe(&result.0);
            result
        },
        None => commit_base(order, dft, mmcs, transcript, poly, folding, starting_log_inv_rate),
    }
}

proof fn lemma_canonical_codeword(s: Seq<u64>)
    requires
        forall|i: int| 0 <= i < s.len() ==> (#[trigger] s[i] as nat) < field_prime(),
    ensures
        canonical(s) == s,
{
    assert forall|i: int| 0 <= i < s.len() implies canonical(s)[i] == s[i] by {
        lemma_small_mod(s[i] as nat, field_prime());
    }
    assert(canonical(s) =~= s);
}

/// The layout, padding and transform of a polynomial over the extension: the
/// codeword and its width.
fn encode_extension(
    order: VariableOrder,
    dft: &Dft,
    poly: &Poly<Challenge>,
    folding: usize,
    inv_rate: usize,
) -> (r: (Vec<[u64; 2]>, usize))
    requires
        extension_encodable(extension_poly_evals(*poly).len(), folding as nat, inv_rate as nat),
    ensures
        r.0@ == extension_codeword(order, extension_poly_evals(*poly), folding as nat, inv_rate as nat),
        r.1 == pow2(folding as nat),
        r.1 > 0,
        r.0.len() > 0,
        r.0.len() % r.1 == 0,
{
    let num_variables = extension_poly_num_variables(poly);
    let ghost n = num_variables as nat;
    let ghost lr = log2(inv_rate as nat);
    proof {
        lemma_log2_pow2(n);
        lemma_extension_sizes(n, folding as nat, inv_rate as nat, lr);
    }
    let height = extension_height(num_variables, folding, inv_rate);
    let width = pow2_usize(folding);
    let padded = lay_out(
        order,
        extension_poly_values(poly),
        num_variables,
        folding,
        height,
        [0u64, 0u64],
    );
    proof {
        lemma_div_multiples_vanish(height as int, width as int);
        lemma_mod_multiples_basic(height as int, width as int);
        lemma_mul_is_commutative(height as int, width as int);
        lemma_log2_pow2(lr + (n - folding) as nat);
        lemma_mul_increases(width as int, height as int);
    }
    let encoded = dft_algebra_batch(dft, padded, width);
    (encoded, width)
}

proof fn lemma_extension_sizes(n: nat, f: nat, inv_rate: nat, lr: nat)
    requires
        f <= n,
        pow2(lr) == inv_rate,
        2 * inv_rate * pow2(n) <= usize::MAX,
    ensures
        pow2(f) * (inv_rate * pow2((n - f) as nat)) == inv_rate * pow2(n),
        pow2(f) <= inv_rate * pow2(n),
        pow2((n - f) as nat) <= inv_rate * pow2((n - f) as nat),
        inv_rate * pow2((n - f) as nat) > 0,
        inv_rate * pow2((n - f) as nat) == pow2(lr + (n - f) as nat),
        inv_rate * pow2(n) <= usize::MAX,
{
    let r = pow2((n - f) as nat);
    let w = pow2(f);
    lemma_pow2_adds(f, (n - f) as nat);
    lemma_pow2_adds(lr, (n - f) as nat);
    lemma_pow2_pos(f);
    lemma_pow2_pos((n - f) as nat);
    lemma_pow2_pos(lr);
    assert(w * (inv_rate * r) == inv_rate * (w * r)) by (nonlinear_arith);
    assert(w <= inv_rate * (w * r)) by (nonlinear_arith)
        requires
            w > 0,
            r > 0,
            inv_rate > 0,
    ;
    assert(r <= inv_rate * r) by (nonlinear_arith)
        requires
            inv_rate > 0,
    ;
    assert(inv_rate * r > 0) by (nonlinear_arith)
        requires
            r > 0,
            inv_rate > 0,
    ;
    assert(inv_rate * pow2(n) <= 2 * inv_rate * pow2(n)) by (nonlinear_arith)
        requires
            inv_rate > 0,
    ;
}

/// Encodes and commits a folded polynomial over the extension.
///
/// This is used after each non-final WHIR folding round. The layout mirrors
/// the base-field path, with `inv_rate * 2^(num_variables - folding)` rows; the
/// transform runs over extension values and the commitment is made through an
/// extension commitment scheme that views extension rows as base-field data for
/// the underlying Merkle tree.
pub fn commit_extension(
    order: VariableOrder,
    dft: &Dft,
    extension_mmcs: &ChallengeMmcs,
    poly: &Poly<Challenge>,
    folding: usize,
    inv_rate: usize,
) -> (res: (Commitment, ExtensionTree))
    requires
        extension_encodable(extension_poly_evals(*poly).len(), folding as nat, inv_rate as nat),
    ensures
        res == extension_merkle_commit(
            *extension_mmcs,
            extension_codeword(order, extension_poly_evals(*poly), folding as nat, inv_rate as nat),
            pow2(folding as nat),
        ),
        forall|inner: ValMmcs|
            #[trigger] extension_scheme(inner) == *extension_mmcs ==> res.0 == merkle_commit(
                inner,
                flatten(
                    extension_codeword(
                        order,
                        extension_poly_evals(*poly),
                        folding as nat,
                        inv_rate as nat,
                    ),
                ),
                2 * pow2(folding as nat),
            ).0,
        extension_tree_leaves(res.1) == seq![
            (
                extension_codeword(
                    order,
                    extension_poly_evals(*poly),
                    folding as nat,
                    inv_rate as nat,
                ),
                pow2(folding as nat),
            ),
        ],
        exists|h: nat| commitment_digests(res.0) == #[trigger] extension_tree_cap_digests(res.1, h),
{
    let (encoded, width) = encode_extension(order, dft, poly, folding, inv_rate);
    proof {
        lemma_codeword_pairs_canonical(order, extension_poly_evals(*poly), folding as nat, inv_rate as nat);
    }
    commit_extension_matrix(extension_mmcs, encoded, width)
}

proof fn lemma_codeword_pairs_canonical(order: VariableOrder, evals: Seq<[u64; 2]>, folding: nat, inv_rate: nat)
    ensures
        canonical_pairs(extension_codeword(order, evals, folding, inv_rate))
            == extension_codeword(order, evals, folding, inv_rate),
{
    let n = log2(evals.len());
    let height = extension_height_spec(n, folding, inv_rate);
    lemma_extension_evaluations_canonical(
        layout_spec(order, evals, n, folding, height, [0u64, 0u64]),
        pow2(folding),
        two_adic_generator(log2(height)) as int,
    );
}

/// Like `commit_extension`, when an accelerator may already have performed the
/// fused transpose, pad, transform and Merkle commitment over the extension.
///
/// `accelerated` is the outcome of those attempts: the commitment and tree
/// produced, or `None` when every one declined. When they declined, the
/// polynomial is encoded here and committed through the extension commitment
/// scheme built over a copy of `mmcs`, as `commit_extension` does with that
/// scheme.
pub fn commit_extension_fused(
    order: VariableOrder,
    dft: &Dft,
    mmcs: &ValMmcs,
    poly: &Poly<Challenge>,
    folding: usize,
    inv_rate: usize,
    accelerated: Option<(Commitment, ExtensionTree)>,
) -> (res: (Commitment, ExtensionTree))
    requires
        extension_shape(extension_poly_evals(*poly).len(), folding as nat, inv_rate as nat),
        accelerated is None ==> extension_encodable(
            extension_poly_evals(*poly).len(),
            folding as nat,
            inv_rate as nat,
        ),
    ensures
        match accelerated {
            Some(r) => res == r,
            None => {
                &&& res == extension_merkle_commit(
                    extension_scheme(*mmcs),
                    extension_codeword(
                        order,
                        extension_poly_evals(*poly),
                        folding as nat,
                        inv_rate as nat,
                    ),
                    pow2(folding as nat),
                )
                &&& res.0 == merkle_commit(
                    *mmcs,
                    flatten(
                        extension_codeword(
                            order,
                            extension_poly_evals(*poly),
                            folding as nat,
                            inv_rate as nat,
                        ),
                    ),
                    2 * pow2(folding as nat),
                ).0
                &&& extension_tree_leaves(res.1) == seq![
                    (
                        extension_codeword(
                            order,
                            extension_poly_evals(*poly),
                            folding as nat,
                            inv_rate as nat,
                        ),
                        pow2(folding as nat),
                    ),
                ]
                &&& exists|h: nat|
                    commitment_digests(res.0) == #[trigger] extension_tree_cap_digests(res.1, h)
            },
        },
{
    match accelerated {
        Some(result) => result,
        None => {
            let (encoded, width) = encode_extension(order, dft, poly, folding, inv_rate);
            proof {
                lemma_codeword_pairs_canonical(
                    order,
                    extension_poly_evals(*poly),
                    folding as nat,
                    inv_rate as nat,
                );
            }
            let ext_mmcs = extension_mmcs(clone_mmcs(mmcs));
            commit_extension_matrix(&ext_mmcs, encoded, width)
        },
    }
}

/// The base codeword is a Reed–Solomon codeword of rate `2^-starting_log_inv_rate`:
/// its `2^(num_variables + starting_log_inv_rate - folding)
/// = 2^starting_log_inv_rate * 2^(num_variables - folding)` rows are the
/// evaluations, at the powers `g^i` of the generator of the subgroup of that
/// order, of the polynomials whose coefficients are the columns of the
/// unpadded layout, of `2^(num_variables - folding)` entries each.
pub proof fn lemma_base_codeword_is_reed_solomon(
    order: VariableOrder,
    evals: Seq<u64>,
    folding: nat,
    starting_log_inv_rate: nat,
    i: int,
    c: int,
)
    requires
        evals.len() == pow2(log2(evals.len())),
        folding <= log2(evals.len()),
        0 <= i < pow2((log2(evals.len()) + starting_log_inv_rate - folding) as nat),
        0 <= c < pow2(folding),
    ensures
        ({
            let n = log2(evals.len());
            let log_height = (n + starting_log_inv_rate - folding) as nat;
            let rows = pow2((n - folding) as nat);
            let w = pow2(folding);
            let code = base_codeword(order, evals, folding, starting_log_inv_rate);
            &&& pow2(log_height) == pow2(starting_log_inv_rate) * rows
            &&& code.len() == w * pow2(log_height)
            &&& code[i * w + c] == (column_eval(
                unpadded_layout_spec(order, evals, n, folding),
                w,
                c,
                rows,
                pow(two_adic_generator(log_height) as int, i as nat),
            ) % field_prime() as int) as u64
        }),
{
    let n = log2(evals.len());
    let log_height = (n + starting_log_inv_rate - folding) as nat;
    let rows = pow2((n - folding) as nat);
    let w = pow2(folding);
    let h = pow2(log_height);
    lemma_pow2_adds((n - folding) as nat, starting_log_inv_rate);
    lemma_mul_is_commutative(rows as int, pow2(starting_log_inv_rate) as int);
    lemma_pow2_adds(folding, (n - folding) as nat);
    lemma_pow2_pos(folding);
    lemma_pow2_pos(starting_log_inv_rate);
    lemma_mul_increases(pow2(starting_log_inv_rate) as int, rows as int);
    let base = unpadded_layout_spec(order, evals, n, folding);
    lemma_layout_is_padded_unpadded(order, evals, n, folding, h, 0u64);
    let m = layout_spec(order, evals, n, folding, h, 0u64);
    lemma_mul_inequality(rows as int, h as int, w as int);
    lemma_mul_is_commutative(rows as int, w as int);
    lemma_mul_is_commutative(h as int, w as int);
    assert(m.len() == w * h);
    lemma_div_multiples_vanish(h as int, w as int);
    let idx = i * w + c;
    lemma_mul_inequality(i + 1, h as int, w as int);
    lemma_mul_is_distributive_add_other_way(w as int, i, 1);
    lemma_mul_is_commutative(i, w as int);
    lemma_fundamental_div_mod_converse(idx, w as int, i, c);
    lemma_zero_rows_add_nothing(
        base,
        w,
        rows,
        h,
        c,
        pow(two_adic_generator(log_height) as int, i as nat),
    );
}

proof fn lemma_flatten_padded(base: Seq<[u64; 2]>, w: nat, h: nat)
    requires
        base.len() <= w * h,
    ensures
        flatten(padded(base, w, h, [0u64, 0u64])) == padded(flatten(base), 2 * w, h, 0u64),
{
    let a = flatten(padded(base, w, h, [0u64, 0u64]));
    let b = padded(flatten(base), 2 * w, h, 0u64);
    lemma_mul_is_associative(2, w as int, h as int);
    assert forall|k: int| 0 <= k < a.len() implies a[k] == b[k] by {
        if k < 2 * base.len() {
        } else {
            assert(k / 2 >= base.len()) by {
                lemma_fundamental_div_mod(k, 2);
            }
        }
    }
    assert(a =~= b);
}

/// Each coefficient of the codeword over the extension is a Reed–Solomon
/// codeword: coefficient `d` of the entry at row `i`, column `c` is the
/// polynomial whose coefficients are the coefficients `d` of column `c` of the
/// unpadded layout, of `2^(num_variables - folding)` entries, evaluated at
/// `g^i` for the generator `g` of the subgroup of order
/// `inv_rate * 2^(num_variables - folding)`.
pub proof fn lemma_extension_codeword_is_reed_solomon(
    order: VariableOrder,
    evals: Seq<[u64; 2]>,
    folding: nat,
    inv_rate: nat,
    i: int,
    c: int,
    d: int,
)
    requires
        evals.len() == pow2(log2(evals.len())),
        folding <= log2(evals.len()),
        inv_rate > 0,
        0 <= i < inv_rate * pow2((log2(evals.len()) - folding) as nat),
        0 <= c < pow2(folding),
        0 <= d < 2,
    ensures
        ({
            let n = log2(evals.len());
            let rows = pow2((n - folding) as nat);
            let height = inv_rate * rows;
            let w = pow2(folding);
            let code = extension_codeword(order, evals, folding, inv_rate);
            &&& code.len() == w * height
            &&& code[i * w + c][d] == (column_eval(
                flatten(unpadded_layout_spec(order, evals, n, folding)),
                2 * w,
                2 * c + d,
                rows,
                pow(two_adic_generator(log2(height)) as int, i as nat),
            ) % field_prime() as int) as u64
        }),
{
    let n = log2(evals.len());
    let rows = pow2((n - folding) as nat);
    let h = inv_rate * rows;
    let w = pow2(folding);
    let g = two_adic_generator(log2(h)) as int;
    lemma_pow2_adds(folding, (n - folding) as nat);
    lemma_pow2_pos(folding);
    lemma_pow2_pos((n - folding) as nat);
    lemma_mul_increases(inv_rate as int, rows as int);
    lemma_mul_is_commutative(inv_rate as int, rows as int);
    let base = unpadded_layout_spec(order, evals, n, folding);
    lemma_layout_is_padded_unpadded(order, evals, n, folding, h, [0u64, 0u64]);
    let m = layout_spec(order, evals, n, folding, h, [0u64, 0u64]);
    lemma_mul_inequality(rows as int, h as int, w as int);
    lemma_mul_is_commutative(rows as int, w as int);
    lemma_mul_is_commutative(h as int, w as int);
    assert(m.len() == w * h);
    lemma_flatten_padded(base, w, h);
    let fm = flatten(m);
    let fbase = flatten(base);
    lemma_mul_is_associative(2, w as int, h as int);
    lemma_mul_is_associative(2, w as int, rows as int);
    let e = evaluations(fm, 2 * w, g);
    lemma_div_multiples_vanish(h as int, (2 * w) as int);
    lemma_mul_is_commutative(h as int, (2 * w) as int);
    let j = i * w + c;
    lemma_mul_inequality(i + 1, h as int, w as int);
    lemma_mul_is_distributive_add_other_way(w as int, i, 1);
    lemma_mul_is_commutative(i, w as int);
    let k = 2 * j + d;
    assert(k == i * (2 * w) + (2 * c + d)) by {
        lemma_mul_is_associative(i, 2, w as int);
        lemma_mul_is_commutative(i, 2);
        lemma_mul_is_associative(2, i, w as int);
    }
    lemma_fundamental_div_mod_converse(k, (2 * w) as int, i, 2 * c + d);
    assert(extension_codeword(order, evals, folding, inv_rate)[j][d] == e[k]);
    lemma_zero_rows_add_nothing(fbase, 2 * w, rows, h, 2 * c + d, pow(g, i as nat));
}

/// `2^k` fits in a `usize` exactly when `k` is below the width of a `usize`.
proof fn lemma_pow2_fits(k: nat)
    ensures
        pow2(k) <= usize::MAX <==> k < usize::BITS,
{
    unsigned_int_max_values();
    if k < usize::BITS {
        if k + 1 < usize::BITS {
            lemma_pow2_strictly_increases(k, usize::BITS as nat);
        } else {
            lemma_pow2_unfold(usize::BITS as nat);
            lemma_pow2_pos(k);
        }
    } else if k > usize::BITS {
        lemma_pow2_strictly_increases(usize::BITS as nat, k);
    }
}

/// The exponent `k` with `n == 2^k`, or `None` when `n` is not a power of two.
fn exact_log2(n: usize) -> (r: Option<usize>)
    ensures
        match r {
            Some(k) => n == pow2(k as nat) && k == log2(n as nat),
            None => n != pow2(log2(n as nat)),
        },
{
    let mut m: usize = 1;
    let mut k: usize = 0;
    proof {
        lemma2_to64();
    }
    while m < n
        invariant
            m == pow2(k as nat),
            m >= 1,
            k < usize::BITS,
            k == 0 || pow2((k - 1) as nat) < n,
        decreases usize::BITS - k,
    {
        if m > usize::MAX / 2 {
            proof {
                lemma_pow2_unfold(k as nat + 1);
                lemma_log2_between(n as nat, k as nat);
            }
            return None;
        }
        proof {
            lemma_pow2_unfold(k as nat + 1);
            lemma_pow2_fits(k as nat + 1);
        }
        m = m * 2;
        k = k + 1;
    }
    proof {
        if k == 0 {
            lemma2_to64();
            if n == 1 {
                lemma_log2_pow2(0);
            }
        } else {
            lemma_pow2_unfold(k as nat);
            if m == n {
                lemma_log2_pow2(k as nat);
            } else {
                lemma_log2_between(n as nat, (k - 1) as nat);
            }
        }
    }
    if m == n {
        Some(k)
    } else {
        None
    }
}

/// Whether a base-field polynomial of this many evaluations has the shape
/// conditions of `base_shape`, and whether it is also `base_encodable`.
fn base_checks(num_evals: usize, folding: usize, starting_log_inv_rate: usize) -> (r: (bool, bool))
    ensures
        r.0 == base_shape(num_evals as nat, folding as nat, starting_log_inv_rate as nat),
        r.1 == base_encodable(num_evals as nat, folding as nat, starting_log_inv_rate as nat),
{
    match exact_log2(num_evals) {
        None => (false, false),
        Some(n) => {
            if folding > n {
                return (false, false);
            }
            match n.checked_add(starting_log_inv_rate) {
                None => (false, false),
                Some(total) => {
                    let log_height = total - folding;
                    proof {
                        lemma_pow2_fits(log_height as nat);
                        lemma_pow2_fits(total as nat);
                    }
                    let shape = log_height < usize::BITS as usize;
                    let encodable = shape && log_height <= TWO_ADICITY && total < usize::BITS as usize;
                    (shape, encodable)
                },
            }
        },
    }
}

/// Whether a polynomial over the extension of this many evaluations has the
/// shape conditions of `extension_shape`, and whether it is also
/// `extension_encodable`.
fn extension_checks(num_evals: usize, folding: usize, inv_rate: usize) -> (r: (bool, bool))
    ensures
        r.0 == extension_shape(num_evals as nat, folding as nat, inv_rate as nat),
        r.1 == extension_encodable(num_evals as nat, folding as nat, inv_rate as nat),
{
    match exact_log2(num_evals) {
        None => (false, false),
        Some(n) => {
            if folding > n {
                return (false, false);
            }
            let cols_log = n - folding;
            proof {
                lemma_pow2_fits(cols_log as nat);
                lemma_pow2_split_le(n as nat, folding as nat);
            }
            if cols_log >= usize::BITS as usize {
                return (false, false);
            }
            let cols = pow2_usize(cols_log);
            match inv_rate.checked_mul(cols) {
                None => (false, false),
                Some(height) => {
                    let encodable = match exact_log2(inv_rate) {
                        None => false,
                        Some(lr) => {
                            if lr > TWO_ADICITY || cols_log > TWO_ADICITY - lr {
                                false
                            } else {
                                match inv_rate.checked_mul(2) {
                                    None => {
                                        proof {
                                            lemma_mul_increases(num_evals as int, 2 * inv_rate);
                                            lemma_mul_is_commutative(2 * inv_rate, num_evals as int);
                                        }
                                        false
                                    },
                                    Some(double) => {
                                        proof {
                                            lemma_mul_is_commutative(double as int, num_evals as int);
                                        }
                                        double.checked_mul(num_evals).is_some()
                                    },
                                }
                            }
                        },
                    };
                    (true, encodable)
                },
            }
        },
    }
}

proof fn lemma_pow2_split_le(n: nat, f: nat)
    requires
        f <= n,
    ensures
        pow2((n - f) as nat) <= pow2(n),
        pow2(n) > 0,
{
    lemma_pow2_pos(n);
    if f > 0 {
        lemma_pow2_strictly_increases((n - f) as nat, n);
    }
}

/// `commit_base` where the polynomial allows it: `None`, with the transcript
/// unchanged, when the number of evaluations is not a power of two or the
/// codeword would not fit (`base_encodable` fails).
pub fn try_commit_base(
    order: VariableOrder,
    dft: &Dft,
    mmcs: &ValMmcs,
    transcript: &mut Transcript,
    poly: &Poly<Val>,
    folding: usize,
    starting_log_inv_rate: usize,
) -> (res: Option<(Commitment, BaseTree)>)
    ensures
        res is Some <==> base_encodable(
            poly_evals(*poly).len(),
            folding as nat,
            starting_log_inv_rate as nat,
        ),
        res is None ==> *final(transcript) == *old(transcript),
        res matches Some(r) ==> {
            &&& r == merkle_commit(
                *mmcs,
                base_codeword(order, poly_evals(*poly), folding as nat, starting_log_inv_rate as nat),
                pow2(folding as nat),
            )
            &&& final(transcript).observed() == old(transcript).observed().push(r.0)
            &&& final(transcript).challenger() == observed_challenger(old(transcript).challenger(), r.0)
        },
{
    let (_, encodable) = base_checks(poly_len(poly), folding, starting_log_inv_rate);
    if encodable {
        Some(commit_base(order, dft, mmcs, transcript, poly, folding, starting_log_inv_rate))
    } else {
        None
    }
}

/// `commit_base_fused` where the polynomial allows it: `None`, with the
/// transcript unchanged, when `base_shape` fails, or when there is no
/// accelerated result and `base_encodable` fails.
pub fn try_commit_base_fused(
    order: VariableOrder,
    dft: &Dft,
    mmcs: &ValMmcs,
    transcript: &mut Transcript,
    poly: &Poly<Val>,
    folding: usize,
    starting_log_inv_rate: usize,
    accelerated: Option<(Commitment, BaseTree)>,
) -> (res: Option<(Commitment, BaseTree)>)
    ensures
        res is Some <==> {
            &&& base_shape(poly_evals(*poly).len(), folding as nat, starting_log_inv_rate as nat)
            &&& accelerated is None ==> base_encodable(
                poly_evals(*poly).len(),
                folding as nat,
                starting_log_inv_rate as nat,
            )
        },
        res is None ==> *final(transcript) == *old(transcript),
        res matches Some(r) ==> {
            &&& match accelerated {
                Some(a) => r == a,
                None => r == merkle_commit(
                    *mmcs,
                    base_codeword(
                        order,
                        poly_evals(*poly),
                        folding as nat,
                        starting_log_inv_rate as nat,
                    ),
                    pow2(folding as nat),
                ),
            }
            &&& final(transcript).observed() == old(transcript).observed().push(r.0)
            &&& final(transcript).challenger() == observed_challenger(old(transcript).challenger(), r.0)
        },
{
    let (shape, encodable) = base_checks(poly_len(poly), folding, starting_log_inv_rate);
    if shape && (accelerated.is_some() || encodable) {
        Some(
            commit_base_fused(
                order,
                dft,
                mmcs,
                transcript,
                poly,
                folding,
                starting_log_inv_rate,
                accelerated,
            ),
        )
    } else {
        None
    }
}

/// `commit_extension` where the polynomial allows it: `None` when the number
/// of evaluations is not a power of two or `extension_encodable` fails.
pub fn try_commit_extension(
    order: VariableOrder,
    dft: &Dft,
    extension_mmcs: &ChallengeMmcs,
    poly: &Poly<Challenge>,
    folding: usize,
    inv_rate: usize,
) -> (res: Option<(Commitment, ExtensionTree)>)
    ensures
        res is Some <==> extension_encodable(
            extension_poly_evals(*poly).len(),
            folding as nat,
            inv_rate as nat,
        ),
        res matches Some(r) ==> r == extension_merkle_commit(
            *extension_mmcs,
            extension_codeword(order, extension_poly_evals(*poly), folding as nat, inv_rate as nat),
            pow2(folding as nat),
        ),
{
    let (_, encodable) = extension_checks(extension_poly_len(poly), folding, inv_rate);
    if encodable {
        Some(commit_extension(order, dft, extension_mmcs, poly, folding, inv_rate))
    } else {
        None
    }
}

/// `commit_extension_fused` where the polynomial allows it: `None` when
/// `extension_shape` fails, or when there is no accelerated result and
/// `extension_encodable` fails.
pub fn try_commit_extension_fused(
    order: VariableOrder,
    dft: &Dft,
    mmcs: &ValMmcs,
    poly: &Poly<Challenge>,
    folding: usize,
    inv_rate: usize,
    accelerated: Option<(Commitment, ExtensionTree)>,
) -> (res: Option<(Commitment, ExtensionTree)>)
    ensures
        res is Some <==> {
            &&& extension_shape(extension_poly_evals(*poly).len(), folding as nat, inv_rate as nat)
            &&& accelerated is None ==> extension_encodable(
                extension_poly_evals(*poly).len(),
                folding as nat,
                inv_rate as nat,
            )
        },
        res matches Some(r) ==> match accelerated {
            Some(a) => r == a,
            None => r == extension_merkle_commit(
                extension_scheme(*mmcs),
                extension_codeword(
                    order,
                    extension_poly_evals(*poly),
                    folding as nat,
                    inv_rate as nat,
                ),
                pow2(folding as nat),
            ),
        },
{
    let (shape, encodable) = extension_checks(extension_poly_len(poly), folding, inv_rate);
    if shape && (accelerated.is_some() || encodable) {
        Some(commit_extension_fused(order, dft, mmcs, poly, folding, inv_rate, accelerated))
    } else {
        None
    }
}

/// When nothing is folded, or every variable is, prefix and suffix order give
/// the same codeword, over the base field and over the extension.
pub proof fn lemma_codeword_orders_agree_without_split(
    evals: Seq<u64>,
    ext_evals: Seq<[u64; 2]>,
    folding: nat,
    starting_log_inv_rate: nat,
    inv_rate: nat,
)
    requires
        evals.len() == pow2(log2(evals.len())),
        folding == 0 || folding == log2(evals.len()),
        ext_evals.len() == pow2(log2(ext_evals.len())),
        folding == 0 || folding == log2(ext_evals.len()),
    ensures
        base_codeword(VariableOrder::Prefix, evals, folding, starting_log_inv_rate)
            == base_codeword(VariableOrder::Suffix, evals, folding, starting_log_inv_rate),
        extension_codeword(VariableOrder::Prefix, ext_evals, folding, inv_rate)
            == extension_codeword(VariableOrder::Suffix, ext_evals, folding, inv_rate),
{
    let n = log2(evals.len());
    let log_height = (n + starting_log_inv_rate - folding) as nat;
    lemma_orders_agree_without_split(evals, n, folding, pow2(log_height), 0u64);
    let m = log2(ext_evals.len());
    lemma_orders_agree_without_split(
        ext_evals,
        m,
        folding,
        extension_height_spec(m, folding, inv_rate),
        [0u64, 0u64],
    );
}

/// Prefix order on evaluations is suffix order on their transpose: the first
/// `folding` variables of one polynomial play the part of the last `folding`
/// variables of the other, over the base field and over the extension.
pub proof fn lemma_prefix_is_suffix_of_transpose(
    evals: Seq<u64>,
    ext_evals: Seq<[u64; 2]>,
    folding: nat,
    starting_log_inv_rate: nat,
    inv_rate: nat,
)
    ensures
        base_codeword(VariableOrder::Prefix, evals, folding, starting_log_inv_rate) == base_codeword(
            VariableOrder::Suffix,
            transposed(evals, pow2((log2(evals.len()) - folding) as nat)),
            folding,
            starting_log_inv_rate,
        ),
        extension_codeword(VariableOrder::Prefix, ext_evals, folding, inv_rate)
            == extension_codeword(
            VariableOrder::Suffix,
            transposed(ext_evals, pow2((log2(ext_evals.len()) - folding) as nat)),
            folding,
            inv_rate,
        ),
{
}

/// The base codeword is linear over the field: the codeword of the
/// combination `s * a + t * b` of two polynomials' evaluations is the same
/// combination of their codewords.
pub proof fn lemma_base_codeword_linear(
    order: VariableOrder,
    a: Seq<u64>,
    b: Seq<u64>,
    s: int,
    t: int,
    folding: nat,
    starting_log_inv_rate: nat,
)
    requires
        a.len() == b.len(),
        a.len() == pow2(log2(a.len())),
        folding <= log2(a.len()),
    ensures
        base_codeword(order, combination(a, b, s, t), folding, starting_log_inv_rate) == combination(
            base_codeword(order, a, folding, starting_log_inv_rate),
            base_codeword(order, b, folding, starting_log_inv_rate),
            s,
            t,
        ),
{
    let p = field_prime() as int;
    let c = combination(a, b, s, t);
    let n = log2(a.len());
    let log_height = (n + starting_log_inv_rate - folding) as nat;
    let h = pow2(log_height);
    let rel = |x: u64, y: u64, z: u64| z as int % p == (s * x + t * y) % p;
    assert forall|i: int| 0 <= i < a.len() implies #[trigger] rel(a[i], b[i], c[i]) by {
        lemma_mod_bound(s * a[i] + t * b[i], p);
        lemma_small_mod(c[i] as nat, p as nat);
    }
    assert(rel(0u64, 0u64, 0u64));
    if starting_log_inv_rate > 0 {
        lemma_pow2_strictly_increases((n - folding) as nat, log_height);
    }
    lemma_layout_preserves(order, a, b, c, n, folding, h, 0u64, rel);
    let la = layout_spec(order, a, n, folding, h, 0u64);
    let lb = layout_spec(order, b, n, folding, h, 0u64);
    let lc = layout_spec(order, c, n, folding, h, 0u64);
    assert(combines(lc, la, lb, s, t)) by {
        assert forall|i: int| 0 <= i < lc.len() implies #[trigger] lc[i] as int % p == (s * la[i]
            + t * lb[i]) % p by {
            assert(rel(la[i], lb[i], lc[i]));
        }
    }
    lemma_pow2_pos(folding);
    lemma_evaluations_linear(lc, la, lb, s, t, pow2(folding), two_adic_generator(log_height) as int);
}

/// The codeword over the extension is linear over the base field: the
/// codeword of the combination `s * a + t * b`, taken coefficient by
/// coefficient, is the same combination of the codewords.
pub proof fn lemma_extension_codeword_linear(
    order: VariableOrder,
    a: Seq<[u64; 2]>,
    b: Seq<[u64; 2]>,
    s: int,
    t: int,
    folding: nat,
    inv_rate: nat,
)
    requires
        a.len() == b.len(),
        a.len() == pow2(log2(a.len())),
        folding <= log2(a.len()),
        inv_rate > 0,
    ensures
        extension_codeword(order, combination_pairs(a, b, s, t), folding, inv_rate)
            == combination_pairs(
            extension_codeword(order, a, folding, inv_rate),
            extension_codeword(order, b, folding, inv_rate),
            s,
            t,
        ),
{
    let p = field_prime() as int;
    let c = combination_pairs(a, b, s, t);
    let n = log2(a.len());
    let rows = pow2((n - folding) as nat);
    let h = extension_height_spec(n, folding, inv_rate);
    let w = pow2(folding);
    let g = two_adic_generator(log2(h)) as int;
    let rel = |x: [u64; 2], y: [u64; 2], z: [u64; 2]|
        z[0] as int % p == (s * x[0] + t * y[0]) % p && z[1] as int % p == (s * x[1] + t * y[1]) % p;
    assert forall|i: int| 0 <= i < a.len() implies #[trigger] rel(a[i], b[i], c[i]) by {
        lemma_mod_bound(s * a[i][0] + t * b[i][0], p);
        lemma_mod_bound(s * a[i][1] + t * b[i][1], p);
        lemma_small_mod(c[i][0] as nat, p as nat);
        lemma_small_mod(c[i][1] as nat, p as nat);
    }
    assert(rel([0u64, 0u64], [0u64, 0u64], [0u64, 0u64]));
    lemma_pow2_pos((n - folding) as nat);
    lemma_mul_increases(inv_rate as int, rows as int);
    lemma_layout_preserves(order, a, b, c, n, folding, h, [0u64, 0u64], rel);
    let la = layout_spec(order, a, n, folding, h, [0u64, 0u64]);
    let lb = layout_spec(order, b, n, folding, h, [0u64, 0u64]);
    let lc = layout_spec(order, c, n, folding, h, [0u64, 0u64]);
    let fa = flatten(la);
    let fb = flatten(lb);
    let fc = flatten(lc);
    assert(combines(fc, fa, fb, s, t)) by {
        assert forall|k: int| 0 <= k < fc.len() implies #[trigger] fc[k] as int % p == (s * fa[k]
            + t * fb[k]) % p by {
            let i = k / 2;
            lemma_fundamental_div_mod(k, 2);
            assert(rel(la[i], lb[i], lc[i]));
        }
    }
    lemma_pow2_pos(folding);
    lemma_evaluations_linear(fc, fa, fb, s, t, 2 * w, g);
    let ec = evaluations(fc, 2 * w, g);
    let ea = evaluations(fa, 2 * w, g);
    let eb = evaluations(fb, 2 * w, g);
    let lhs = extension_codeword(order, c, folding, inv_rate);
    let rhs = combination_pairs(
        extension_codeword(order, a, folding, inv_rate),
        extension_codeword(order, b, folding, inv_rate),
        s,
        t,
    );
    assert forall|i: int| 0 <= i < lhs.len() implies lhs[i] == rhs[i] by {
        assert(ec[2 * i] == combination(ea, eb, s, t)[2 * i]);
        assert(ec[2 * i + 1] == combination(ea, eb, s, t)[2 * i + 1]);
        assert(lhs[i] =~= rhs[i]);
    }
    assert(lhs =~= rhs);
}

proof fn lemma_transposed_index_in_range(len: nat, width: nat, height: nat, i: int)
    requires
        width > 0,
        height > 0,
        len == height * width,
        0 <= i < len,
    ensures
        len / width == height,
        0 <= (i % height as int) * width + (i / height as int) < len,
{
    lemma_mul_is_commutative(height as int, width as int);
    lemma_div_multiples_vanish(height as int, width as int);
    let q = i / height as int;
    let r = i % height as int;
    lemma_fundamental_div_mod(i, height as int);
    lemma_mod_bound(i, height as int);
    lemma_div_pos_is_pos(i, height as int);
    assert(q < width) by {
        if q >= width {
            lemma_mul_inequality(width as int, q, height as int);
            lemma_mul_is_commutative(q, height as int);
        }
    }
    lemma_mul_inequality(r + 1, height as int, width as int);
    lemma_mul_is_distributive_add_other_way(width as int, r, 1);
    lemma_mul_nonnegative(r, width as int);
}

/// The two paths agree: the codeword over the extension of base-field
/// evaluations, each taken as `[x, 0]`, with inverse rate
/// `2^starting_log_inv_rate`, is the base codeword with each entry taken as
/// `[x, 0]`.
pub proof fn lemma_base_and_extension_codewords_agree(
    order: VariableOrder,
    a: Seq<u64>,
    folding: nat,
    starting_log_inv_rate: nat,
)
    requires
        a.len() == pow2(log2(a.len())),
        folding <= log2(a.len()),
    ensures
        extension_codeword(order, embed(a), folding, pow2(starting_log_inv_rate)) == embed(
            base_codeword(order, a, folding, starting_log_inv_rate),
        ),
{
    let n = log2(a.len());
    let log_height = (n + starting_log_inv_rate - folding) as nat;
    let h = pow2(log_height);
    let w = pow2(folding);
    let rows = pow2((n - folding) as nat);
    lemma_pow2_adds(starting_log_inv_rate, (n - folding) as nat);
    assert(extension_height_spec(n, folding, pow2(starting_log_inv_rate)) == h);
    lemma_log2_pow2(log_height);
    if starting_log_inv_rate > 0 {
        lemma_pow2_strictly_increases((n - folding) as nat, log_height);
    }
    let la = layout_spec(order, a, n, folding, h, 0u64);
    let le = layout_spec(order, embed(a), n, folding, h, [0u64, 0u64]);
    lemma_pow2_adds(folding, (n - folding) as nat);
    lemma_pow2_pos(folding);
    lemma_pow2_pos((n - folding) as nat);
    assert forall|i: int| 0 <= i < a.len() implies transposed(embed(a), rows)[i] == embed(
        transposed(a, rows),
    )[i] by {
        lemma_transposed_index_in_range(a.len(), rows, w, i);
    }
    assert(transposed(embed(a), rows) =~= embed(transposed(a, rows)));
    let u = unpadded_layout_spec(order, a, n, folding);
    assert(padded(embed(u), w, h, [0u64, 0u64]) =~= embed(padded(u, w, h, 0u64)));
    assert(le =~= embed(la));
    lemma_layout_preserves(order, a, a, a, n, folding, h, 0u64, |x: u64, y: u64, z: u64| true);
    lemma_pow2_pos(folding);
    lemma_mod_multiples_basic(h as int, w as int);
    lemma_mul_is_commutative(h as int, w as int);
    lemma_embedded_evaluations(la, w, two_adic_generator(log_height) as int);
}

/// The codeword over the extension is linear over the extension: the
/// codeword of the evaluations each multiplied by the extension scalar `l` is
/// the codeword with each entry multiplied by `l`. With
/// `lemma_extension_codeword_linear` (sums), the codeword is linear over the
/// extension field.
pub proof fn lemma_extension_codeword_scales(
    order: VariableOrder,
    l: [u64; 2],
    a: Seq<[u64; 2]>,
    folding: nat,
    inv_rate: nat,
)
    requires
        a.len() == pow2(log2(a.len())),
        folding <= log2(a.len()),
        inv_rate > 0,
    ensures
        extension_codeword(order, scale_pairs(l, a), folding, inv_rate) == scale_pairs(
            l,
            extension_codeword(order, a, folding, inv_rate),
        ),
{
    let p = field_prime() as int;
    let c = scale_pairs(l, a);
    let n = log2(a.len());
    let rows = pow2((n - folding) as nat);
    let h = extension_height_spec(n, folding, inv_rate);
    let w = pow2(folding);
    let g = two_adic_generator(log2(h)) as int;
    let s0 = l[0] as int;
    let t0 = 7 * l[1];
    let s1 = l[1] as int;
    let t1 = l[0] as int;
    let rel = |x: [u64; 2], y: [u64; 2], z: [u64; 2]|
        z[0] as int % p == (s0 * x[0] + t0 * y[1]) % p && z[1] as int % p == (s1 * x[0] + t1
            * y[1]) % p;
    assert forall|i: int| 0 <= i < a.len() implies #[trigger] rel(a[i], a[i], c[i]) by {
        lemma_mod_bound(s0 * a[i][0] + t0 * a[i][1], p);
        lemma_mod_bound(s1 * a[i][0] + t1 * a[i][1], p);
        lemma_small_mod(c[i][0] as nat, p as nat);
        lemma_small_mod(c[i][1] as nat, p as nat);
    }
    assert(rel([0u64, 0u64], [0u64, 0u64], [0u64, 0u64]));
    lemma_pow2_pos((n - folding) as nat);
    lemma_pow2_pos(folding);
    lemma_mul_increases(inv_rate as int, rows as int);
    lemma_layout_preserves(order, a, a, c, n, folding, h, [0u64, 0u64], rel);
    let la = layout_spec(order, a, n, folding, h, [0u64, 0u64]);
    let lc = layout_spec(order, c, n, folding, h, [0u64, 0u64]);
    let a0 = coefficients(la, 0);
    let a1 = coefficients(la, 1);
    let c0 = coefficients(lc, 0);
    let c1 = coefficients(lc, 1);
    assert(combines(c0, a0, a1, s0, t0)) by {
        assert forall|i: int| 0 <= i < c0.len() implies #[trigger] c0[i] as int % p == (s0 * a0[i]
            + t0 * a1[i]) % p by {
            assert(rel(la[i], la[i], lc[i]));
        }
    }
    assert(combines(c1, a0, a1, s1, t1)) by {
        assert forall|i: int| 0 <= i < c1.len() implies #[trigger] c1[i] as int % p == (s1 * a0[i]
            + t1 * a1[i]) % p by {
            assert(rel(la[i], la[i], lc[i]));
        }
    }
    lemma_evaluations_linear(c0, a0, a1, s0, t0, w, g);
    lemma_evaluations_linear(c1, a0, a1, s1, t1, w, g);
    lemma_mod_multiples_basic(h as int, w as int);
    lemma_mul_is_commutative(h as int, w as int);
    lemma_extension_evaluations_coefficients(la, w, g, 0);
    lemma_extension_evaluations_coefficients(la, w, g, 1);
    lemma_extension_evaluations_coefficients(lc, w, g, 0);
    lemma_extension_evaluations_coefficients(lc, w, g, 1);
    let ca = extension_codeword(order, a, folding, inv_rate);
    let cc = extension_codeword(order, c, folding, inv_rate);
    let rhs = scale_pairs(l, ca);
    assert forall|i: int| 0 <= i < cc.len() implies cc[i] == rhs[i] by {
        assert(cc[i][0] == coefficients(cc, 0)[i]);
        assert(cc[i][1] == coefficients(cc, 1)[i]);
        assert(ca[i][0] == coefficients(ca, 0)[i]);
        assert(ca[i][1] == coefficients(ca, 1)[i]);
        lemma_mul_is_associative(7, l[1] as int, ca[i][1] as int);
        assert(cc[i] =~= rhs[i]);
    }
    assert(cc =~= rhs);
}

/// What a fused accelerator is asked to do for one commitment.
pub enum FusedRequest<T> {
    /// Read the polynomial's evaluations as `in_cols` columns of `in_rows`
    /// rows (that is, `in_rows` is the folded block), transpose them, pad to
    /// `padded_height` rows, transform and commit.
    TransposePad { in_rows: usize, in_cols: usize, padded_height: usize },
    /// Transform and commit the laid-out, padded matrix `values` of the given width.
    Padded { values: Vec<T>, width: usize },
}

/// The accelerator request that `commit_base_fused` stands for: in prefix
/// order the fused transpose, pad, transform and commitment of the
/// evaluations; in suffix order the transform and commitment of the padded
/// matrix.
pub fn base_fused_request(
    order: VariableOrder,
    poly: &Poly<Val>,
    folding: usize,
    starting_log_inv_rate: usize,
) -> (r: FusedRequest<u64>)
    requires
        base_shape(poly_evals(*poly).len(), folding as nat, starting_log_inv_rate as nat),
        order == VariableOrder::Suffix ==> pow2(
            log2(poly_evals(*poly).len()) + starting_log_inv_rate as nat,
        ) <= usize::MAX,
    ensures
        ({
            let n = log2(poly_evals(*poly).len());
            let height = base_height_spec(n, folding as nat, starting_log_inv_rate as nat);
            match order {
                VariableOrder::Prefix => r matches FusedRequest::TransposePad {
                    in_rows,
                    in_cols,
                    padded_height,
                } && in_rows == pow2(folding as nat) && in_cols == pow2((n - folding) as nat)
                    && padded_height == height,
                VariableOrder::Suffix => r matches FusedRequest::Padded { values, width }
                    && values@ == layout_spec(
                    VariableOrder::Suffix,
                    poly_evals(*poly),
                    n,
                    folding as nat,
                    height,
                    0u64,
                ) && width == pow2(folding as nat),
            }
        }),
{
    let num_evals = poly_len(poly);
    let num_variables = poly_num_variables(poly);
    proof {
        lemma_log2_pow2(num_variables as nat);
        lemma_pow2_split_le(num_variables as nat, folding as nat);
        lemma_pow2_split_le(num_variables as nat, (num_variables - folding) as nat);
        assert(num_evals == pow2(num_variables as nat));
    }
    let height = base_height(num_variables, folding, starting_log_inv_rate);
    let in_rows = pow2_usize(folding);
    match order {
        VariableOrder::Prefix => {
            let in_cols = pow2_usize(num_variables - folding);
            FusedRequest::TransposePad { in_rows, in_cols, padded_height: height }
        },
        VariableOrder::Suffix => {
            let ghost log_height = (num_variables + starting_log_inv_rate - folding) as nat;
            proof {
                lemma_pow2_adds(folding as nat, log_height);
                if starting_log_inv_rate > 0 {
                    lemma_pow2_strictly_increases((num_variables - folding) as nat, log_height);
                }
            }
            let values = lay_out(
                VariableOrder::Suffix,
                poly_values(poly),
                num_variables,
                folding,
                height,
                0u64,
            );
            FusedRequest::Padded { values, width: in_rows }
        },
    }
}

/// The padded matrix of a polynomial over the extension, laid out in `order`,
/// that the fused transform and commitment is asked to take.
pub fn extension_padded_request(
    order: VariableOrder,
    poly: &Poly<Challenge>,
    folding: usize,
    inv_rate: usize,
) -> (r: (Vec<[u64; 2]>, usize))
    requires
        extension_shape(extension_poly_evals(*poly).len(), folding as nat, inv_rate as nat),
        inv_rate > 0,
        pow2(folding as nat) * extension_height_spec(
            log2(extension_poly_evals(*poly).len()),
            folding as nat,
            inv_rate as nat,
        ) <= usize::MAX,
    ensures
        ({
            let n = log2(extension_poly_evals(*poly).len());
            &&& r.0@ == layout_spec(
                order,
                extension_poly_evals(*poly),
                n,
                folding as nat,
                extension_height_spec(n, folding as nat, inv_rate as nat),
                [0u64, 0u64],
            )
            &&& r.1 == pow2(folding as nat)
        }),
{
    let num_evals = extension_poly_len(poly);
    let num_variables = extension_poly_num_variables(poly);
    proof {
        lemma_log2_pow2(num_variables as nat);
        lemma_pow2_split_le(num_variables as nat, folding as nat);
        lemma_pow2_split_le(num_variables as nat, (num_variables - folding) as nat);
        assert(num_evals == pow2(num_variables as nat));
    }
    let height = extension_height(num_variables, folding, inv_rate);
    let width = pow2_usize(folding);
    proof {
        lemma_pow2_pos((num_variables - folding) as nat);
        lemma_mul_increases(inv_rate as int, pow2((num_variables - folding) as nat) as int);
    }
    let values = lay_out(
        order,
        extension_poly_values(poly),
        num_variables,
        folding,
        height,
        [0u64, 0u64],
    );
    (values, width)
}

/// The first accelerator request that `commit_extension_fused` stands for: in
/// prefix order the fused transpose, pad, transform and commitment of the
/// evaluations (followed, if it is declined, by `extension_padded_request`);
/// in suffix order the transform and commitment of the padded matrix.
pub fn extension_fused_request(
    order: VariableOrder,
    poly: &Poly<Challenge>,
    folding: usize,
    inv_rate: usize,
) -> (r: FusedRequest<[u64; 2]>)
    requires
        extension_shape(extension_poly_evals(*poly).len(), folding as nat, inv_rate as nat),
        order == VariableOrder::Suffix ==> {
            &&& inv_rate > 0
            &&& pow2(folding as nat) * extension_height_spec(
                log2(extension_poly_evals(*poly).len()),
                folding as nat,
                inv_rate as nat,
            ) <= usize::MAX
        },
    ensures
        ({
            let n = log2(extension_poly_evals(*poly).len());
            let height = extension_height_spec(n, folding as nat, inv_rate as nat);
            match order {
                VariableOrder::Prefix => r matches FusedRequest::TransposePad {
                    in_rows,
                    in_cols,
                    padded_height,
                } && in_rows == pow2(folding as nat) && in_cols == pow2((n - folding) as nat)
                    && padded_height == height,
                VariableOrder::Suffix => r matches FusedRequest::Padded { values, width }
                    && values@ == layout_spec(
                    VariableOrder::Suffix,
                    extension_poly_evals(*poly),
                    n,
                    folding as nat,
                    height,
                    [0u64, 0u64],
                ) && width == pow2(folding as nat),
            }
        }),
{
    match order {
        VariableOrder::Prefix => {
            let num_evals = extension_poly_len(poly);
            let num_variables = extension_poly_num_variables(poly);
            proof {
                lemma_log2_pow2(num_variables as nat);
                lemma_pow2_split_le(num_variables as nat, folding as nat);
                lemma_pow2_split_le(num_variables as nat, (num_variables - folding) as nat);
                assert(num_evals == pow2(num_variables as nat));
            }
            let height = extension_height(num_variables, folding, inv_rate);
            let in_rows = pow2_usize(folding);
            let in_cols = pow2_usize(num_variables - folding);
            FusedRequest::TransposePad { in_rows, in_cols, padded_height: height }
        },
        VariableOrder::Suffix => {
            let (values, width) = extension_padded_request(order, poly, folding, inv_rate);
            FusedRequest::Padded { values, width }
        },
    }
}

/// `2^a <= 2^b` exactly when `a <= b`.
proof fn lemma_pow2_le_iff(a: nat, b: nat)
    ensures
        pow2(a) <= pow2(b) <==> a <= b,
{
    if a < b {
        lemma_pow2_strictly_increases(a, b);
    } else if b < a {
        lemma_pow2_strictly_increases(b, a);
    }
}

/// Which base-field polynomials have the shape the commitment needs: those of
/// `2^n` evaluations with at most `n` folded variables, whose
/// `n + starting_log_inv_rate` does not overflow and whose codeword height
/// `2^(n + starting_log_inv_rate - folding)` fits in a `usize`. Any folding of
/// at most `n` variables qualifies once the height fits.
pub proof fn lemma_base_shape_domain(n: nat, folding: nat, starting_log_inv_rate: nat)
    ensures
        base_shape(pow2(n), folding, starting_log_inv_rate) <==> {
            &&& folding <= n
            &&& n + starting_log_inv_rate <= usize::MAX
            &&& pow2((n + starting_log_inv_rate - folding) as nat) <= usize::MAX
        },
{
    lemma_log2_pow2(n);
}

/// Which base-field polynomials the transform can encode: those of `2^n`
/// evaluations with at most `n` folded variables whose codeword height is at
/// most `2^TWO_ADICITY` and whose padded matrix, `2^folding` times that
/// height, fits in memory.
pub proof fn lemma_base_encodable_domain(n: nat, folding: nat, starting_log_inv_rate: nat)
    ensures
        base_encodable(pow2(n), folding, starting_log_inv_rate) <==> {
            &&& folding <= n
            &&& base_height_spec(n, folding, starting_log_inv_rate) <= pow2(TWO_ADICITY as nat)
            &&& pow2(folding) * base_height_spec(n, folding, starting_log_inv_rate) <= usize::MAX
        },
{
    lemma_log2_pow2(n);
    if folding <= n {
        let total = n + starting_log_inv_rate;
        let log_height = (total - folding) as nat;
        lemma_pow2_adds(folding, log_height);
        lemma_pow2_le_iff(log_height, TWO_ADICITY as nat);
        lemma_pow2_le_iff(log_height, total);
        lemma_pow2_fits(total);
        unsigned_int_max_values();
        lemma2_to64();
        assert(usize::BITS <= usize::MAX);
    }
}

/// Which polynomials over the extension have the shape the commitment needs:
/// among those of `2^n` evaluations (a length that fits in a `usize`), those
/// with at most `n` folded variables whose codeword height
/// `inv_rate * 2^(n - folding)` fits in a `usize`.
pub proof fn lemma_extension_shape_domain(n: nat, folding: nat, inv_rate: nat)
    requires
        pow2(n) <= usize::MAX,
    ensures
        extension_shape(pow2(n), folding, inv_rate) <==> {
            &&& folding <= n
            &&& inv_rate * pow2((n - folding) as nat) <= usize::MAX
        },
{
    lemma_log2_pow2(n);
    if folding <= n {
        lemma_pow2_le_iff((n - folding) as nat, n);
    }
}

/// Which polynomials over the extension the transform can encode: those of
/// `2^n` evaluations with at most `n` folded variables, an inverse rate
/// `2^k` with `k + n - folding <= TWO_ADICITY` (so that the height is a power
/// of two within the two-adicity), and a codeword of `2 * inv_rate * 2^n`
/// base-field coefficients that fits in memory.
pub proof fn lemma_extension_encodable_domain(n: nat, folding: nat, inv_rate: nat)
    ensures
        extension_encodable(pow2(n), folding, inv_rate) <==> {
            &&& folding <= n
            &&& exists|k: nat| inv_rate == #[trigger] pow2(k) && k + n - folding <= TWO_ADICITY
            &&& 2 * inv_rate * pow2(n) <= usize::MAX
        },
{
    lemma_log2_pow2(n);
    let lr = log2(inv_rate);
    if extension_encodable(pow2(n), folding, inv_rate) {
        assert(inv_rate == pow2(lr) && lr + n - folding <= TWO_ADICITY);
    }
    if folding <= n && (exists|k: nat| inv_rate == #[trigger] pow2(k) && k + n - folding
        <= TWO_ADICITY) && 2 * inv_rate * pow2(n) <= usize::MAX {
        let k = choose|k: nat| inv_rate == #[trigger] pow2(k) && k + n - folding <= TWO_ADICITY;
        lemma_log2_pow2(k);
        lemma_pow2_pos(k);
        lemma_pow2_le_iff((n - folding) as nat, n);
        lemma_pow2_pos(n);
        lemma_mul_increases(inv_rate as int, pow2(n) as int);
        lemma_mul_inequality(pow2((n - folding) as nat) as int, pow2(n) as int, inv_rate as int);
        lemma_mul_is_commutative(pow2((n - folding) as nat) as int, inv_rate as int);
        lemma_mul_is_commutative(pow2(n) as int, inv_rate as int);
        lemma_mul_is_associative(2, inv_rate as int, pow2(n) as int);
        assert(extension_shape(pow2(n), folding, inv_rate));
    }
}

} // verus!
