//! How the evaluations of a multilinear polynomial are laid out as a
//! row-major matrix before the Reed–Solomon expansion.

use vstd::arithmetic::div_mod::*;
use vstd::arithmetic::mul::*;
use vstd::arithmetic::power2::*;
use vstd::bits::*;
use vstd::prelude::*;

verus! {

/// The order in which the variables of a polynomial are folded.
#[derive(Clone, Copy, Debug, PartialEq, Eq, Structural)]
pub enum VariableOrder {
    /// The first variables are folded first: the folding block becomes the columns.
    Prefix,
    /// The last variables are folded first: the folding block stays the row width.
    Suffix,
}

/// The transpose of a row-major matrix of the given width.
///
/// The result has width `vals.len() / width`; its entry at row `r`, column `c`
/// is the entry of `vals` at row `c`, column `r`.
pub open spec fn transposed<T>(vals: Seq<T>, width: nat) -> Seq<T> {
    let height = vals.len() / width;
    Seq::new(vals.len(), |i: int| vals[(i % height as int) * width + i / height as int])
}

/// A row-major matrix of the given width, extended with rows of `fill`
/// up to `height` rows.
pub open spec fn padded<T>(vals: Seq<T>, width: nat, height: nat, fill: T) -> Seq<T> {
    vals + Seq::new((width * height - vals.len()) as nat, |i: int| fill)
}

proof fn lemma_index_split(i: int, q: int, r: int, d: int)
    requires
        d > 0,
        0 <= r < d,
        i == q * d + r,
    ensures
        i / d == q,
        i % d == r,
{
    lemma_fundamental_div_mod_converse(i, d, q, r);
}

/// Returns the transpose of the row-major matrix `values` of the given width.
pub fn transpose<T: Copy>(values: &Vec<T>, width: usize) -> (out: Vec<T>)
    requires
        width > 0,
        values.len() % width == 0,
    ensures
        out@ == transposed(values@, width as nat),
{
    let len = values.len();
    let height = len / width;
    proof {
        lemma_fundamental_div_mod(len as int, width as int);
    }
    let mut out: Vec<T> = Vec::with_capacity(len);
    let mut r: usize = 0;
    while r < width
        invariant
            0 < width,
            len == values.len(),
            height == len / width,
            len == width * height,
            r <= width,
            out.len() == r * height,
            forall|i: int|
                0 <= i < out.len() ==> #[trigger] out@[i] == values@[(i % height as int) * width
                    + i / height as int],
        decreases width - r,
    {
        let mut c: usize = 0;
        proof {
            lemma_mul_inequality(r + 1, width as int, height as int);
            lemma_mul_is_distributive_add_other_way(height as int, r as int, 1);
        }
        while c < height
            invariant
                0 < width,
                len == values.len(),
                height == len / width,
                len == width * height,
                r < width,
                c <= height,
                out.len() == r * height + c,
                (r + 1) * height <= len,
                forall|i: int|
                    0 <= i < out.len() ==> #[trigger] out@[i] == values@[(i % height as int)
                        * width + i / height as int],
            decreases height - c,
        {
            proof {
                lemma_mul_inequality(c as int + 1, height as int, width as int);
                lemma_mul_is_distributive_add_other_way(width as int, c as int, 1);
                lemma_mul_is_commutative(width as int, height as int);
                lemma_index_split((r * height + c) as int, r as int, c as int, height as int);
            }
            let idx = c * width + r;
            out.push(values[idx]);
            c = c + 1;
        }
        r = r + 1;
    }
    proof {
        assert(out.len() == len);
    }
    out
}


/// `2^k` as a `usize`, computed as `1 << k`.
pub fn pow2_usize(k: usize) -> (r: usize)
    requires
        pow2(k as nat) <= usize::MAX,
    ensures
        r == pow2(k as nat),
{
    proof {
        lemma2_to64();
        lemma2_to64_rest();
        if k >= usize::BITS {
            lemma_pow2_strictly_increases(usize::BITS as nat, k as nat);
            assert(false);
        }
        lemma_usize_shl_is_mul(1, k);
    }
    1usize << k
}

/// A row-major matrix of the given width, padded with `fill` up to `height` rows.
pub fn pad_to_height<T: Copy>(values: &mut Vec<T>, width: usize, height: usize, fill: T)
    requires
        width * height <= usize::MAX,
        old(values).len() <= width * height,
    ensures
        final(values)@ == padded(old(values)@, width as nat, height as nat, fill),
{
    let target = width * height;
    let ghost start = values@;
    while values.len() < target
        invariant
            target == width * height,
            start.len() <= values.len() <= target,
            values@.subrange(0, start.len() as int) == start,
            forall|i: int| start.len() <= i < values.len() ==> #[trigger] values@[i] == fill,
        decreases target - values.len(),
    {
        values.push(fill);
    }
    assert(values@ =~= padded(start, width as nat, height as nat, fill));
}


/// The matrix that the encoding of a polynomial starts from: its evaluations
/// laid out in rows of `2^folding` entries and zero-padded to `height` rows.
///
/// In prefix order the evaluations are first read as a matrix of width
/// `2^(num_variables - folding)` and transposed, so that the first `folding`
/// variables index the columns; in suffix order the evaluations are read
/// directly as rows of width `2^folding`.
pub open spec fn layout_spec<T>(
    order: VariableOrder,
    evals: Seq<T>,
    num_variables: nat,
    folding: nat,
    height: nat,
    zero: T,
) -> Seq<T> {
    match order {
        VariableOrder::Prefix => padded(
            transposed(evals, pow2((num_variables - folding) as nat)),
            pow2(folding),
            height,
            zero,
        ),
        VariableOrder::Suffix => padded(evals, pow2(folding), height, zero),
    }
}

/// The layout before zero-padding: the transpose of the evaluations read with
/// width `2^(num_variables - folding)` in prefix order, the evaluations
/// themselves in suffix order.
pub open spec fn unpadded_layout_spec<T>(
    order: VariableOrder,
    evals: Seq<T>,
    num_variables: nat,
    folding: nat,
) -> Seq<T> {
    match order {
        VariableOrder::Prefix => transposed(evals, pow2((num_variables - folding) as nat)),
        VariableOrder::Suffix => evals,
    }
}

/// The padded layout is the unpadded layout, of width `2^folding`, extended
/// with rows of `zero`.
pub proof fn lemma_layout_is_padded_unpadded<T>(
    order: VariableOrder,
    evals: Seq<T>,
    num_variables: nat,
    folding: nat,
    height: nat,
    zero: T,
)
    ensures
        layout_spec(order, evals, num_variables, folding, height, zero) == padded(
            unpadded_layout_spec(order, evals, num_variables, folding),
            pow2(folding),
            height,
            zero,
        ),
        unpadded_layout_spec(order, evals, num_variables, folding).len() == evals.len(),
{
}

/// Transposing twice gives back the matrix.
pub proof fn lemma_transpose_twice<T>(vals: Seq<T>, width: nat)
    requires
        width > 0,
        vals.len() % width == 0,
        vals.len() > 0,
    ensures
        transposed(transposed(vals, width), vals.len() / width) == vals,
{
    let h = vals.len() / width;
    lemma_fundamental_div_mod(vals.len() as int, width as int);
    lemma_mul_is_commutative(width as int, h as int);
    if h == 0 {
        lemma_mul_basics(width as int);
        assert(false);
    }
    lemma_div_multiples_vanish(width as int, h as int);
    let t = transposed(vals, width);
    let tt = transposed(t, h);
    assert(t.len() / h == width);
    assert forall|i: int| 0 <= i < vals.len() implies tt[i] == vals[i] by {
        let r = i / width as int;
        let c = i % width as int;
        lemma_fundamental_div_mod(i, width as int);
        lemma_mod_bound(i, width as int);
        lemma_div_pos_is_pos(i, width as int);
        // tt[i] == t[(i % width) * h + i / width] == t[c * h + r]
        assert(r < h) by {
            if r >= h {
                lemma_mul_inequality(h as int, r, width as int);
                lemma_mul_is_commutative(r, width as int);
            }
        }
        lemma_index_split(c * h + r, c, r, h as int);
        assert(tt[i] == t[c * h + r]);
        lemma_mul_inequality(c + 1, width as int, h as int);
        lemma_mul_is_distributive_add_other_way(h as int, c, 1);
        assert(t[c * h + r] == vals[r * width + c]);
        lemma_mul_is_commutative(r, width as int);
    }
    assert(tt =~= vals);
}

/// When nothing is folded, or every variable is, the matrix read before the
/// transpose is a single row or a single column, so prefix and suffix order
/// lay the polynomial out alike.
pub proof fn lemma_orders_agree_without_split<T>(
    evals: Seq<T>,
    num_variables: nat,
    folding: nat,
    height: nat,
    zero: T,
)
    requires
        evals.len() == pow2(num_variables),
        folding == 0 || folding == num_variables,
    ensures
        layout_spec(VariableOrder::Prefix, evals, num_variables, folding, height, zero)
            == layout_spec(VariableOrder::Suffix, evals, num_variables, folding, height, zero),
{
    let w = pow2((num_variables - folding) as nat);
    let len = evals.len();
    lemma_pow2_pos(num_variables);
    let t = transposed(evals, w);
    if folding == num_variables {
        assert(w == 1) by {
            lemma2_to64();
        }
        assert forall|i: int| 0 <= i < len implies t[i] == evals[i] by {
            lemma_div_by_self(len as int);
            lemma_small_mod(i as nat, len);
            lemma_basic_div(i, len as int);
        }
    } else {
        assert(w == len);
        assert forall|i: int| 0 <= i < len implies t[i] == evals[i] by {
            lemma_div_by_self(len as int);
            lemma_div_basics(i);
            lemma_fundamental_div_mod(i, 1);
            assert(len / w == 1);
            assert(i % 1 == 0);
            assert(t[i] == evals[(i % 1) * w + i / 1]);
        }
    }
    assert(t =~= evals);
}

/// What the layout of a polynomial requires: `2^num_variables` evaluations,
/// no more folded variables than variables, a target height at least the
/// number of rows, and a padded matrix that fits in memory.
pub open spec fn layout_fits(evals_len: nat, num_variables: nat, folding: nat, height: nat) -> bool {
    &&& layout_shape(evals_len, num_variables, folding, height)
    &&& pow2(folding) * height <= usize::MAX
}

/// The shape conditions of `layout_fits`, without the bound on memory.
pub open spec fn layout_shape(evals_len: nat, num_variables: nat, folding: nat, height: nat) -> bool {
    &&& evals_len == pow2(num_variables)
    &&& folding <= num_variables
    &&& pow2((num_variables - folding) as nat) <= height
}

proof fn lemma_pow2_split(n: nat, f: nat)
    requires
        f <= n,
    ensures
        pow2(n) == pow2(f) * pow2((n - f) as nat),
        pow2(n) == pow2((n - f) as nat) * pow2(f),
        pow2(f) <= pow2(n),
        pow2((n - f) as nat) <= pow2(n),
        pow2(f) > 0,
        pow2((n - f) as nat) > 0,
{
    lemma_pow2_adds(f, (n - f) as nat);
    lemma_pow2_pos(f);
    lemma_pow2_pos((n - f) as nat);
    lemma_mul_is_commutative(pow2(f) as int, pow2((n - f) as nat) as int);
    lemma_mul_increases(pow2((n - f) as nat) as int, pow2(f) as int);
    lemma_mul_increases(pow2(f) as int, pow2((n - f) as nat) as int);
}

/// Lays out the evaluations of a polynomial as the matrix of `layout_spec`,
/// of width `2^folding` and `height` rows.
pub fn lay_out<T: Copy>(
    order: VariableOrder,
    evals: Vec<T>,
    num_variables: usize,
    folding: usize,
    height: usize,
    zero: T,
) -> (out: Vec<T>)
    requires
        layout_fits(evals.len() as nat, num_variables as nat, folding as nat, height as nat),
    ensures
        out@ == layout_spec(
            order,
            evals@,
            num_variables as nat,
            folding as nat,
            height as nat,
            zero,
        ),
        out.len() == pow2(folding as nat) * height,
{
    proof {
        lemma_pow2_split(num_variables as nat, folding as nat);
        lemma_mul_inequality(
            pow2((num_variables - folding) as nat) as int,
            height as int,
            pow2(folding as nat) as int,
        );
        lemma_mul_is_commutative(
            pow2((num_variables - folding) as nat) as int,
            pow2(folding as nat) as int,
        );
        lemma_mul_is_commutative(height as int, pow2(folding as nat) as int);
    }
    let row_width = pow2_usize(folding);
    match order {
        VariableOrder::Prefix => {
            let view_width = pow2_usize(num_variables - folding);
            proof {
                lemma_mod_multiples_basic(pow2(folding as nat) as int, view_width as int);
                lemma_div_multiples_vanish(pow2(folding as nat) as int, view_width as int);
            }
            let mut out = transpose(&evals, view_width);
            pad_to_height(&mut out, row_width, height, zero);
            out
        },
        VariableOrder::Suffix => {
            let mut out = evals;
            pad_to_height(&mut out, row_width, height, zero);
            out
        },
    }
}


/// The number of rows of the first codeword:
/// `2^(num_variables + starting_log_inv_rate - folding)`.
pub open spec fn base_height_spec(num_variables: nat, folding: nat, starting_log_inv_rate: nat) -> nat {
    pow2((num_variables + starting_log_inv_rate - folding) as nat)
}

/// The number of rows of a folded codeword: `inv_rate * 2^(num_variables - folding)`.
pub open spec fn extension_height_spec(num_variables: nat, folding: nat, inv_rate: nat) -> nat {
    inv_rate * pow2((num_variables - folding) as nat)
}

/// Returns `base_height_spec(num_variables, folding, starting_log_inv_rate)`.
pub fn base_height(num_variables: usize, folding: usize, starting_log_inv_rate: usize) -> (h: usize)
    requires
        folding <= num_variables,
        num_variables + starting_log_inv_rate <= usize::MAX,
        base_height_spec(num_variables as nat, folding as nat, starting_log_inv_rate as nat)
            <= usize::MAX,
    ensures
        h == base_height_spec(num_variables as nat, folding as nat, starting_log_inv_rate as nat),
{
    pow2_usize(num_variables + starting_log_inv_rate - folding)
}

/// Returns `extension_height_spec(num_variables, folding, inv_rate)`.
pub fn extension_height(num_variables: usize, folding: usize, inv_rate: usize) -> (h: usize)
    requires
        folding <= num_variables,
        pow2((num_variables - folding) as nat) <= usize::MAX,
        extension_height_spec(num_variables as nat, folding as nat, inv_rate as nat)
            <= usize::MAX,
    ensures
        h == extension_height_spec(num_variables as nat, folding as nat, inv_rate as nat),
{
    inv_rate * pow2_usize(num_variables - folding)
}

/// Prefix order makes the first `folding` variables the columns: the entry at
/// row `r`, column `c` of the padded matrix is the evaluation at index
/// `c * 2^(num_variables - folding) + r`, and the rows from
/// `2^(num_variables - folding)` on are zero.
pub proof fn lemma_prefix_layout_entry<T>(
    evals: Seq<T>,
    num_variables: nat,
    folding: nat,
    height: nat,
    zero: T,
    r: int,
    c: int,
)
    requires
        layout_shape(evals.len(), num_variables, folding, height),
        0 <= r < height,
        0 <= c < pow2(folding),
    ensures
        ({
            let m = layout_spec(VariableOrder::Prefix, evals, num_variables, folding, height, zero);
            let rows = pow2((num_variables - folding) as nat);
            &&& m.len() == pow2(folding) * height
            &&& m[r * pow2(folding) + c] == if r < rows {
                evals[c * rows + r]
            } else {
                zero
            }
        }),
{
    let rows = pow2((num_variables - folding) as nat);
    let w = pow2(folding);
    lemma_pow2_split(num_variables, folding);
    lemma_mul_inequality(rows as int, height as int, w as int);
    lemma_mul_is_commutative(rows as int, w as int);
    lemma_mul_is_commutative(height as int, w as int);
    lemma_mod_multiples_basic(w as int, rows as int);
    lemma_div_multiples_vanish(w as int, rows as int);
    let t = transposed(evals, rows);
    assert(t.len() == evals.len());
    assert(evals.len() / rows == w);
    let i = r * w + c;
    lemma_mul_inequality(r + 1, height as int, w as int);
    lemma_mul_is_distributive_add_other_way(w as int, r, 1);
    if r < rows {
        lemma_mul_inequality(r + 1, rows as int, w as int);
        lemma_index_split(i, r, c, w as int);
        assert(t[i] == evals[c * rows + r]);
    } else {
        lemma_mul_inequality(rows as int, r, w as int);
    }
}

/// Suffix order keeps the folding block as the row: the entry at row `r`,
/// column `c` of the padded matrix is the evaluation at index `r * 2^folding + c`,
/// and the rows from `2^(num_variables - folding)` on are zero.
pub proof fn lemma_suffix_layout_entry<T>(
    evals: Seq<T>,
    num_variables: nat,
    folding: nat,
    height: nat,
    zero: T,
    r: int,
    c: int,
)
    requires
        layout_shape(evals.len(), num_variables, folding, height),
        0 <= r < height,
        0 <= c < pow2(folding),
    ensures
        ({
            let m = layout_spec(VariableOrder::Suffix, evals, num_variables, folding, height, zero);
            let rows = pow2((num_variables - folding) as nat);
            &&& m.len() == pow2(folding) * height
            &&& m[r * pow2(folding) + c] == if r < rows {
                evals[r * pow2(folding) + c]
            } else {
                zero
            }
        }),
{
    let rows = pow2((num_variables - folding) as nat);
    let w = pow2(folding);
    lemma_pow2_split(num_variables, folding);
    lemma_mul_inequality(rows as int, height as int, w as int);
    lemma_mul_is_commutative(rows as int, w as int);
    lemma_mul_is_commutative(height as int, w as int);
    lemma_mul_inequality(r + 1, height as int, w as int);
    lemma_mul_is_distributive_add_other_way(w as int, r, 1);
    if r < rows {
        lemma_mul_inequality(r + 1, rows as int, w as int);
    } else {
        lemma_mul_inequality(rows as int, r, w as int);
    }
}

/// The layout moves entries without looking at them: a relation that holds
/// entry by entry between three sequences of evaluations, and between three
/// copies of the fill, holds entry by entry between their layouts.
pub proof fn lemma_layout_preserves<T>(
    order: VariableOrder,
    a: Seq<T>,
    b: Seq<T>,
    c: Seq<T>,
    num_variables: nat,
    folding: nat,
    height: nat,
    zero: T,
    rel: spec_fn(T, T, T) -> bool,
)
    requires
        layout_shape(a.len(), num_variables, folding, height),
        b.len() == a.len(),
        c.len() == a.len(),
        forall|i: int| 0 <= i < a.len() ==> #[trigger] rel(a[i], b[i], c[i]),
        rel(zero, zero, zero),
    ensures
        ({
            let la = layout_spec(order, a, num_variables, folding, height, zero);
            let lb = layout_spec(order, b, num_variables, folding, height, zero);
            let lc = layout_spec(order, c, num_variables, folding, height, zero);
            &&& la.len() == pow2(folding) * height
            &&& lb.len() == la.len()
            &&& lc.len() == la.len()
            &&& forall|i: int| 0 <= i < la.len() ==> #[trigger] rel(la[i], lb[i], lc[i])
        }),
{
    let w = pow2(folding);
    let rows = pow2((num_variables - folding) as nat);
    let la = layout_spec(order, a, num_variables, folding, height, zero);
    let lb = layout_spec(order, b, num_variables, folding, height, zero);
    let lc = layout_spec(order, c, num_variables, folding, height, zero);
    lemma_pow2_split(num_variables, folding);
    lemma_prefix_layout_entry(a, num_variables, folding, height, zero, 0, 0);
    lemma_prefix_layout_entry(b, num_variables, folding, height, zero, 0, 0);
    lemma_prefix_layout_entry(c, num_variables, folding, height, zero, 0, 0);
    lemma_suffix_layout_entry(a, num_variables, folding, height, zero, 0, 0);
    lemma_suffix_layout_entry(b, num_variables, folding, height, zero, 0, 0);
    lemma_suffix_layout_entry(c, num_variables, folding, height, zero, 0, 0);
    assert forall|i: int| 0 <= i < la.len() implies #[trigger] rel(la[i], lb[i], lc[i]) by {
        let r = i / w as int;
        let col = i % w as int;
        lemma_fundamental_div_mod(i, w as int);
        lemma_mod_bound(i, w as int);
        lemma_div_pos_is_pos(i, w as int);
        lemma_mul_is_commutative(w as int, r);
        assert(r < height) by {
            if r >= height {
                lemma_mul_inequality(height as int, r, w as int);
                lemma_mul_is_commutative(height as int, w as int);
            }
        }
        lemma_prefix_layout_entry(a, num_variables, folding, height, zero, r, col);
        lemma_prefix_layout_entry(b, num_variables, folding, height, zero, r, col);
        lemma_prefix_layout_entry(c, num_variables, folding, height, zero, r, col);
        lemma_suffix_layout_entry(a, num_variables, folding, height, zero, r, col);
        lemma_suffix_layout_entry(b, num_variables, folding, height, zero, r, col);
        lemma_suffix_layout_entry(c, num_variables, folding, height, zero, r, col);
        if r < rows {
            // both source indices lie inside the evaluations
            lemma_mul_inequality(col + 1, w as int, rows as int);
            lemma_mul_is_distributive_add_other_way(rows as int, col, 1);
            lemma_mul_inequality(r + 1, rows as int, w as int);
            lemma_mul_is_distributive_add_other_way(w as int, r, 1);
            lemma_mul_is_commutative(rows as int, w as int);
            let pi = col * rows as int + r;
            let si = r * w as int + col;
            assert(0 <= pi < a.len());
            assert(0 <= si < a.len());
            assert(rel(a[pi], b[pi], c[pi]));
            assert(rel(a[si], b[si], c[si]));
        }
    }
}

} // verus!
