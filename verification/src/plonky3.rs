//! The Plonky3 types and functions that the encoding and commitment call,
//! with the contracts that this library relies on.

use p3_challenger::{CanObserve, DuplexChallenger};
use p3_commit::{ExtensionMmcs, Mmcs};
use p3_dft::{Radix2DFTSmallBatch, TwoAdicSubgroupDft};
use p3_field::extension::{Binomial, ExtField};
use p3_field::{BasedVectorSpace, PrimeField64};
use p3_goldilocks::{Goldilocks, Poseidon2ExternalLayerGoldilocks, Poseidon2InternalLayerGoldilocks};
use p3_matrix::dense::{DenseMatrix, RowMajorMatrix};
use p3_matrix::Matrix;
use p3_matrix::extension::FlatMatrixView;
use p3_merkle_tree::{MerkleTree, MerkleTreeMmcs};
use p3_multilinear_util::poly::Poly;
use p3_poseidon2::Poseidon2;
use p3_symmetric::{MerkleCap, PaddingFreeSponge, TruncatedPermutation};
use vstd::arithmetic::power2::pow2;
use vstd::prelude::*;

use crate::encoding::{
    canonical, canonical_pairs, evaluations, extension_evaluations, field_prime, flatten, log2,
    two_adic_generator, TWO_ADICITY,
};

verus! {

#[verifier::external_type_specification]
#[verifier::external_body]
pub struct ExGoldilocks(Goldilocks);

#[verifier::external_type_specification]
#[verifier::external_body]
#[verifier::reject_recursive_types(F)]
#[verifier::reject_recursive_types(ExternalPerm)]
#[verifier::reject_recursive_types(InternalPerm)]
pub struct ExPoseidon2<F, ExternalPerm, InternalPerm, const WIDTH: usize, const D: u64>(
    Poseidon2<F, ExternalPerm, InternalPerm, WIDTH, D>,
);

#[verifier::external_type_specification]
#[verifier::external_body]
pub struct ExPoseidon2ExternalLayerGoldilocks<const WIDTH: usize>(
    Poseidon2ExternalLayerGoldilocks<WIDTH>,
);

#[verifier::external_type_specification]
#[verifier::external_body]
pub struct ExPoseidon2InternalLayerGoldilocks(Poseidon2InternalLayerGoldilocks);

#[verifier::external_type_specification]
#[verifier::external_body]
#[verifier::reject_recursive_types(P)]
pub struct ExPaddingFreeSponge<P, const WIDTH: usize, const RATE: usize, const OUT: usize>(
    PaddingFreeSponge<P, WIDTH, RATE, OUT>,
);

#[verifier::external_type_specification]
#[verifier::external_body]
#[verifier::reject_recursive_types(InnerP)]
pub struct ExTruncatedPermutation<InnerP, const N: usize, const CHUNK: usize, const WIDTH: usize>(
    TruncatedPermutation<InnerP, N, CHUNK, WIDTH>,
);

#[verifier::external_type_specification]
#[verifier::external_body]
#[verifier::reject_recursive_types(P)]
#[verifier::reject_recursive_types(PW)]
#[verifier::reject_recursive_types(H)]
#[verifier::reject_recursive_types(C)]
pub struct ExMerkleTreeMmcs<P, PW, H, C, const N: usize, const DIGEST_ELEMS: usize>(
    MerkleTreeMmcs<P, PW, H, C, N, DIGEST_ELEMS>,
);

#[verifier::external_type_specification]
#[verifier::external_body]
#[verifier::reject_recursive_types(F)]
#[verifier::reject_recursive_types(W)]
#[verifier::reject_recursive_types(M)]
pub struct ExMerkleTree<F, W, M, const N: usize, const DIGEST_ELEMS: usize>(
    MerkleTree<F, W, M, N, DIGEST_ELEMS>,
);

#[verifier::external_type_specification]
#[verifier::external_body]
#[verifier::reject_recursive_types(T)]
#[verifier::reject_recursive_types(V)]
pub struct ExDenseMatrix<T, V>(DenseMatrix<T, V>);

#[verifier::external_type_specification]
#[verifier::external_body]
#[verifier::reject_recursive_types(F)]
#[verifier::reject_recursive_types(EF)]
#[verifier::reject_recursive_types(Inner)]
pub struct ExFlatMatrixView<F, EF, Inner>(FlatMatrixView<F, EF, Inner>);

#[verifier::external_type_specification]
#[verifier::external_body]
#[verifier::reject_recursive_types(F)]
#[verifier::reject_recursive_types(Digest)]
pub struct ExMerkleCap<F, Digest>(MerkleCap<F, Digest>);

#[verifier::external_type_specification]
#[verifier::external_body]
#[verifier::reject_recursive_types(F)]
#[verifier::reject_recursive_types(S)]
pub struct ExPoly<F, S>(Poly<F, S>);

#[verifier::external_type_specification]
#[verifier::external_body]
#[verifier::reject_recursive_types(F)]
pub struct ExRadix2DFTSmallBatch<F>(Radix2DFTSmallBatch<F>);

#[verifier::external_type_specification]
#[verifier::external_body]
#[verifier::reject_recursive_types(F)]
#[verifier::reject_recursive_types(Shape)]
#[verifier::reject_recursive_types(A)]
pub struct ExExtField<F, const D: usize, Shape, A>(ExtField<F, D, Shape, A>);

#[verifier::external_type_specification]
#[verifier::external_body]
#[verifier::reject_recursive_types(F)]
pub struct ExBinomial<F>(Binomial<F>);

#[verifier::external_type_specification]
#[verifier::external_body]
#[verifier::reject_recursive_types(F)]
#[verifier::reject_recursive_types(EF)]
#[verifier::reject_recursive_types(InnerMmcs)]
pub struct ExExtensionMmcs<F, EF, InnerMmcs>(ExtensionMmcs<F, EF, InnerMmcs>);

/// The Goldilocks field.
pub type Val = Goldilocks;

/// The quadratic binomial extension of Goldilocks.
pub type Challenge = ExtField<Val, 2, Binomial<Val>, Val>;

/// The width-8 Poseidon2 permutation over Goldilocks.
pub type Perm = Poseidon2<
    Val,
    Poseidon2ExternalLayerGoldilocks<8>,
    Poseidon2InternalLayerGoldilocks,
    8,
    7,
>;

/// The row hash of the Merkle trees: a sponge over `Perm` with rate 4 and 4 output elements.
pub type MerkleHash = PaddingFreeSponge<Perm, 8, 4, 4>;

/// The two-to-one compression of the Merkle trees.
pub type MerkleCompress = TruncatedPermutation<Perm, 2, 4, 8>;

/// The Merkle tree commitment scheme over Goldilocks matrices, with digests of 4 elements.
pub type ValMmcs = MerkleTreeMmcs<Val, Val, MerkleHash, MerkleCompress, 2, 4>;

/// The commitment scheme for matrices over the extension, through `ValMmcs`.
pub type ChallengeMmcs = ExtensionMmcs<Val, Challenge, ValMmcs>;

/// A commitment: the cap of a Merkle tree.
pub type Commitment = MerkleCap<Val, [Val; 4]>;

/// A Merkle tree over one Goldilocks matrix.
pub type BaseTree = MerkleTree<Val, Val, DenseMatrix<Val, Vec<Val>>, 2, 4>;

/// A Merkle tree over one extension matrix, viewed as a Goldilocks matrix.
pub type ExtensionTree = MerkleTree<
    Val,
    Val,
    FlatMatrixView<Val, Challenge, DenseMatrix<Challenge, Vec<Challenge>>>,
    2,
    4,
>;

/// The DFT used for the Reed–Solomon expansion.
pub type Dft = Radix2DFTSmallBatch<Val>;


/// A duplex-sponge challenger over Goldilocks with `Perm`, rate 4.
///
/// The challenger's type is bounded by a permutation trait of `p3_symmetric`,
/// so it is held whole in this struct and the proofs see nothing inside it.
#[verifier::external_body]
pub struct Challenger(pub DuplexChallenger<Val, Perm, 8, 4>);

/// The evaluations that a polynomial over Goldilocks holds, as canonical values,
/// in the order of `Poly::as_slice`.
pub uninterp spec fn poly_evals(p: Poly<Val, Vec<Val>>) -> Seq<u64>;

/// The evaluations that a polynomial over the extension holds, each as its two
/// canonical basis coefficients, in the order of `Poly::as_slice`.
pub uninterp spec fn extension_poly_evals(p: Poly<Challenge, Vec<Challenge>>) -> Seq<[u64; 2]>;

/// The matrices that a Merkle tree was built from, in the order they were
/// committed, each as its canonical values in row-major order and its width.
pub uninterp spec fn tree_leaves(t: BaseTree) -> Seq<(Seq<u64>, nat)>;

/// The extension matrices that a Merkle tree was built from, in the order they
/// were committed, each as its canonical coefficients in row-major order and its width.
pub uninterp spec fn extension_tree_leaves(t: ExtensionTree) -> Seq<(Seq<[u64; 2]>, nat)>;

/// The digests that a commitment (a Merkle cap) holds, left to right, each as
/// its canonical values.
pub uninterp spec fn commitment_digests(c: Commitment) -> Seq<Seq<u64>>;

/// The digests of `MerkleTree::cap(cap_height)` of a tree over Goldilocks
/// matrices: the cap of the tree at that height below the root.
pub uninterp spec fn tree_cap_digests(t: BaseTree, cap_height: nat) -> Seq<Seq<u64>>;

/// The digests of `MerkleTree::cap(cap_height)` of a tree over extension matrices.
pub uninterp spec fn extension_tree_cap_digests(t: ExtensionTree, cap_height: nat) -> Seq<
    Seq<u64>,
>;

/// What `Mmcs::commit_matrix` of the Merkle scheme `m` returns for the
/// row-major matrix of the given width whose entries are `Goldilocks::new` of
/// `values`: the commitment and the tree.
pub uninterp spec fn merkle_commit(m: ValMmcs, values: Seq<u64>, width: nat) -> (Commitment, BaseTree);

/// What `Mmcs::commit_matrix` of the extension scheme `m` returns for the
/// row-major matrix of the given width whose entries have the given basis
/// coefficients: the commitment and the tree.
pub uninterp spec fn extension_merkle_commit(m: ChallengeMmcs, values: Seq<[u64; 2]>, width: nat) -> (
    Commitment,
    ExtensionTree,
);

/// `ExtensionMmcs::new(inner)`: the extension scheme over the Merkle scheme `inner`.
pub uninterp spec fn extension_scheme(inner: ValMmcs) -> ChallengeMmcs;

/// The challenger `c` after `CanObserve<&MerkleCap>::observe` of the commitment:
/// every element of every digest absorbed, in order.
pub uninterp spec fn observed_challenger(c: Challenger, commitment: Commitment) -> Challenger;

/// `Poly::num_evals`: the number of evaluations.
#[verifier::external_body]
pub(crate) fn poly_len(p: &Poly<Val>) -> (n: usize)
    ensures
        n == poly_evals(*p).len(),
{
    p.num_evals()
}

/// `Poly::num_evals` over the extension.
#[verifier::external_body]
pub(crate) fn extension_poly_len(p: &Poly<Challenge>) -> (n: usize)
    ensures
        n == extension_poly_evals(*p).len(),
{
    p.num_evals()
}

/// `Poly::num_variables`: the base-two logarithm of the number of evaluations.
/// It panics unless that number is a power of two, which `Poly::new` checks but
/// a deserialised `Poly` need not satisfy.
#[verifier::external_body]
pub(crate) fn poly_num_variables(p: &Poly<Val>) -> (n: usize)
    requires
        poly_evals(*p).len() == pow2(log2(poly_evals(*p).len())),
    ensures
        poly_evals(*p).len() == pow2(n as nat),
{
    p.num_variables()
}

/// `Poly::as_slice`, each evaluation converted to its canonical value.
#[verifier::external_body]
pub(crate) fn poly_values(p: &Poly<Val>) -> (v: Vec<u64>)
    ensures
        v@ == poly_evals(*p),
        forall|i: int| 0 <= i < v.len() ==> (v@[i] as nat) < field_prime(),
{
    p.as_slice().iter().map(|x| x.as_canonical_u64()).collect()
}

/// `Poly::num_variables` over the extension.
#[verifier::external_body]
pub(crate) fn extension_poly_num_variables(p: &Poly<Challenge>) -> (n: usize)
    requires
        extension_poly_evals(*p).len() == pow2(log2(extension_poly_evals(*p).len())),
    ensures
        extension_poly_evals(*p).len() == pow2(n as nat),
{
    p.num_variables()
}

/// `Poly::as_slice` over the extension, each evaluation converted to its two
/// canonical basis coefficients.
#[verifier::external_body]
pub(crate) fn extension_poly_values(p: &Poly<Challenge>) -> (v: Vec<[u64; 2]>)
    ensures
        v@ == extension_poly_evals(*p),
{
    p.as_slice()
        .iter()
        .map(|x| {
            let c: &[Val] = x.as_basis_coefficients_slice();
            [c[0].as_canonical_u64(), c[1].as_canonical_u64()]
        })
        .collect()
}

/// `TwoAdicSubgroupDft::dft_batch` of `Radix2DFTSmallBatch` on the row-major
/// matrix `values` of the given width: each column, read as the coefficients of
/// a polynomial, evaluated at the powers `g^0, g^1, ...` of the generator of the
/// subgroup whose order is the height (the definition of `NaiveDft`). The height
/// must be a power of two of at most `2^TWO_ADICITY`, or the call panics.
#[verifier::external_body]
pub(crate) fn dft_batch(dft: &Dft, values: Vec<u64>, width: usize) -> (out: Vec<u64>)
    requires
        width > 0,
        values.len() % width == 0,
        pow2(log2(values.len() as nat / width as nat)) == values.len() as nat / width as nat,
        log2(values.len() as nat / width as nat) <= TWO_ADICITY,
    ensures
        out@ == evaluations(
            values@,
            width as nat,
            two_adic_generator(log2(values.len() as nat / width as nat)) as int,
        ),
{
    let mat = RowMajorMatrix::new(values.into_iter().map(Goldilocks::new).collect(), width);
    dft.dft_batch(mat).to_row_major_matrix().values.iter().map(|x| x.as_canonical_u64()).collect()
}

/// `TwoAdicSubgroupDft::dft_algebra_batch` of `Radix2DFTSmallBatch` over the
/// extension: the transform of each column, computed on the basis coefficients.
#[verifier::external_body]
pub(crate) fn dft_algebra_batch(dft: &Dft, values: Vec<[u64; 2]>, width: usize) -> (out: Vec<
    [u64; 2],
>)
    requires
        width > 0,
        values.len() % width == 0,
        pow2(log2(values.len() as nat / width as nat)) == values.len() as nat / width as nat,
        log2(values.len() as nat / width as nat) <= TWO_ADICITY,
    ensures
        out@ == extension_evaluations(
            values@,
            width as nat,
            two_adic_generator(log2(values.len() as nat / width as nat)) as int,
        ),
{
    let elems: Vec<Challenge> = values
        .into_iter()
        .map(|c| Challenge::new([Goldilocks::new(c[0]), Goldilocks::new(c[1])]))
        .collect();
    dft.dft_algebra_batch(RowMajorMatrix::new(elems, width))
        .values
        .iter()
        .map(|x| {
            let c: &[Val] = x.as_basis_coefficients_slice();
            [c[0].as_canonical_u64(), c[1].as_canonical_u64()]
        })
        .collect()
}

/// `Mmcs::commit_matrix` of `MerkleTreeMmcs`: builds a Merkle tree over the one
/// matrix of the given width, whose leaves keep that matrix, and returns with
/// it the tree's cap at the scheme's cap height (bounded by the tree's depth).
/// Hashing is deterministic, so the result is `merkle_commit` of the scheme and
/// the matrix. The matrix must have at least one row, or the call panics.
#[verifier::external_body]
pub(crate) fn commit_matrix(mmcs: &ValMmcs, values: Vec<u64>, width: usize) -> (r: (
    Commitment,
    BaseTree,
))
    requires
        width > 0,
        values.len() % width == 0,
        values.len() > 0,
    ensures
        r == merkle_commit(*mmcs, values@, width as nat),
        tree_leaves(r.1) == seq![(canonical(values@), width as nat)],
        exists|h: nat| commitment_digests(r.0) == #[trigger] tree_cap_digests(r.1, h),
{
    let mat = RowMajorMatrix::new(values.into_iter().map(Goldilocks::new).collect(), width);
    mmcs.commit_matrix(mat)
}

/// `Mmcs::commit_matrix` of `ExtensionMmcs`: builds a Merkle tree over the one
/// extension matrix of the given width, flattened to Goldilocks rows; the
/// leaves keep that matrix, and the commitment is the tree's cap at the inner
/// scheme's cap height (bounded by the tree's depth). The result is
/// `extension_merkle_commit` of the scheme and the matrix, and the commitment is
/// what the inner scheme commits to for the matrix of the flattened
/// base-field rows, twice as wide. The matrix must have
/// at least one row, or the call panics.
#[verifier::external_body]
pub(crate) fn commit_extension_matrix(mmcs: &ChallengeMmcs, values: Vec<[u64; 2]>, width: usize) -> (r: (
    Commitment,
    ExtensionTree,
))
    requires
        width > 0,
        values.len() % width == 0,
        values.len() > 0,
    ensures
        r == extension_merkle_commit(*mmcs, values@, width as nat),
        forall|inner: ValMmcs|
            #[trigger] extension_scheme(inner) == *mmcs ==> r.0 == merkle_commit(
                inner,
                flatten(values@),
                2 * width as nat,
            ).0,
        extension_tree_leaves(r.1) == seq![(canonical_pairs(values@), width as nat)],
        exists|h: nat| commitment_digests(r.0) == #[trigger] extension_tree_cap_digests(r.1, h),
{
    let elems: Vec<Challenge> = values
        .into_iter()
        .map(|c| Challenge::new([Goldilocks::new(c[0]), Goldilocks::new(c[1])]))
        .collect();
    mmcs.commit_matrix(RowMajorMatrix::new(elems, width))
}

/// `Clone::clone` of `MerkleTreeMmcs`, which derives `Clone`: a copy of the
/// scheme, field by field (the hash, the compression and the cap height).
#[verifier::external_body]
pub(crate) fn clone_mmcs(mmcs: &ValMmcs) -> (c: ValMmcs)
    ensures
        c == *mmcs,
{
    mmcs.clone()
}

/// `ExtensionMmcs::new`: the extension commitment scheme over the given one.
#[verifier::external_body]
pub(crate) fn extension_mmcs(inner: ValMmcs) -> (e: ChallengeMmcs)
    ensures
        e == extension_scheme(inner),
{
    ExtensionMmcs::new(inner)
}

/// `CanObserve<&MerkleCap>::observe` of the duplex challenger: absorbs every
/// element of every digest of the commitment, in order. The challenger's new
/// state is a function of its old state and the commitment, named
/// `observed_challenger`; the sponge itself is not written out.
#[verifier::external_body]
pub(crate) fn observe_commitment(challenger: &mut Challenger, commitment: &Commitment)
    ensures
        *final(challenger) == observed_challenger(*old(challenger), *commitment),
{
    challenger.0.observe(commitment)
}

} // verus!
