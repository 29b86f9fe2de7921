//! The Reed–Solomon expansion of a laid-out matrix: the evaluation of each
//! column, read as the coefficients of a polynomial, on a two-adic subgroup of
//! the Goldilocks field.

use vstd::arithmetic::div_mod::*;
use vstd::arithmetic::mul::*;
use vstd::arithmetic::power::*;
use vstd::arithmetic::power2::*;
use vstd::prelude::*;

use crate::layout::padded;

verus! {

/// The Goldilocks prime `2^64 - 2^32 + 1`.
pub open spec fn field_prime() -> nat {
    18446744069414584321
}

/// The largest `k` for which Goldilocks has a multiplicative subgroup of order `2^k`.
pub const TWO_ADICITY: usize = 32;

/// The canonical value of `Goldilocks::two_adic_generator(bits)`: entry `bits`
/// of the table `Goldilocks::TWO_ADIC_GENERATORS`, a generator of the
/// multiplicative subgroup of order `2^bits` (for `bits <= TWO_ADICITY`).
pub open spec fn two_adic_generator(bits: nat) -> u64 {
    if bits == 0 {
        0x0000000000000001u64
    } else if bits == 1 {
        0xffffffff00000000u64
    } else if bits == 2 {
        0x0001000000000000u64
    } else if bits == 3 {
        0xfffffffeff000001u64
    } else if bits == 4 {
        0xefffffff00000001u64
    } else if bits == 5 {
        0x00003fffffffc000u64
    } else if bits == 6 {
        0x0000008000000000u64
    } else if bits == 7 {
        0xf80007ff08000001u64
    } else if bits == 8 {
        0xbf79143ce60ca966u64
    } else if bits == 9 {
        0x1905d02a5c411f4eu64
    } else if bits == 10 {
        0x9d8f2ad78bfed972u64
    } else if bits == 11 {
        0x0653b4801da1c8cfu64
    } else if bits == 12 {
        0xf2c35199959dfcb6u64
    } else if bits == 13 {
        0x1544ef2335d17997u64
    } else if bits == 14 {
        0xe0ee099310bba1e2u64
    } else if bits == 15 {
        0xf6b2cffe2306baacu64
    } else if bits == 16 {
        0x54df9630bf79450eu64
    } else if bits == 17 {
        0xabd0a6e8aa3d8a0eu64
    } else if bits == 18 {
        0x81281a7b05f9beacu64
    } else if bits == 19 {
        0xfbd41c6b8caa3302u64
    } else if bits == 20 {
        0x30ba2ecd5e93e76du64
    } else if bits == 21 {
        0xf502aef532322654u64
    } else if bits == 22 {
        0x4b2a18ade67246b5u64
    } else if bits == 23 {
        0xea9d5a1336fbc98bu64
    } else if bits == 24 {
        0x86cdcc31c307e171u64
    } else if bits == 25 {
        0x4bbaf5976ecfefd8u64
    } else if bits == 26 {
        0xed41d05b78d6e286u64
    } else if bits == 27 {
        0x10d78dd8915a171du64
    } else if bits == 28 {
        0x59049500004a4485u64
    } else if bits == 29 {
        0xdfa8c93ba46d2666u64
    } else if bits == 30 {
        0x7e9bd009b86a0845u64
    } else if bits == 31 {
        0x400a7f755588e659u64
    } else if bits == 32 {
        0x185629dcda58878cu64
    } else {
        0u64
    }
}

/// Each generator is the square of the next: `g(k + 1)^2 = g(k)` modulo the
/// prime, with `g(0) = 1` and `g(1) = -1`.
pub proof fn lemma_generator_squares()
    ensures
        two_adic_generator(0) == 1,
        two_adic_generator(1) == field_prime() - 1,
        forall|k: nat|
            k < TWO_ADICITY ==> (two_adic_generator(k + 1) as int * two_adic_generator(k + 1) as int)
                % field_prime() as int == #[trigger] two_adic_generator(k) as int,
{
    assert forall|k: nat| k < TWO_ADICITY implies (two_adic_generator(k + 1) as int
        * two_adic_generator(k + 1) as int) % field_prime() as int
        == #[trigger] two_adic_generator(k) as int by {
        lemma_generator_square(k);
    }
}

proof fn lemma_generator_square(k: nat)
    requires
        k < TWO_ADICITY,
    ensures
        (two_adic_generator(k + 1) as int * two_adic_generator(k + 1) as int) % field_prime() as int
            == two_adic_generator(k) as int,
{
    let p = field_prime() as int;
    if k == 0 {
        assert(18446744069414584320int * 18446744069414584320int == 18446744069414584319int * p + 1int);
        lemma_fundamental_div_mod_converse(18446744069414584320int * 18446744069414584320int, p, 18446744069414584319int, 1int);
    } else if k == 1 {
        assert(281474976710656int * 281474976710656int == 4294967296int * p + 18446744069414584320int);
        lemma_fundamental_div_mod_converse(281474976710656int * 281474976710656int, p, 4294967296int, 18446744069414584320int);
    } else if k == 2 {
        assert(18446744069397807105int * 18446744069397807105int == 18446744069381029889int * p + 281474976710656int);
        lemma_fundamental_div_mod_converse(18446744069397807105int * 18446744069397807105int, p, 18446744069381029889int, 281474976710656int);
    } else if k == 3 {
        assert(17293822564807737345int * 17293822564807737345int == 16212958654255595520int * p + 18446744069397807105int);
        lemma_fundamental_div_mod_converse(17293822564807737345int * 17293822564807737345int, p, 16212958654255595520int, 18446744069397807105int);
    } else if k == 4 {
        assert(70368744161280int * 70368744161280int == 268435455int * p + 17293822564807737345int);
        lemma_fundamental_div_mod_converse(70368744161280int * 70368744161280int, p, 268435455int, 17293822564807737345int);
    } else if k == 5 {
        assert(549755813888int * 549755813888int == 16384int * p + 70368744161280int);
        lemma_fundamental_div_mod_converse(549755813888int * 549755813888int, p, 16384int, 70368744161280int);
    } else if k == 6 {
        assert(17870292113338400769int * 17870292113338400769int == 17311854006015885313int * p + 549755813888int);
        lemma_fundamental_div_mod_converse(17870292113338400769int * 17870292113338400769int, p, 17311854006015885313int, 549755813888int);
    } else if k == 7 {
        assert(13797081185216407910int * 13797081185216407910int == 10319406422896923811int * p + 17870292113338400769int);
        lemma_fundamental_div_mod_converse(13797081185216407910int * 13797081185216407910int, p, 10319406422896923811int, 17870292113338400769int);
    } else if k == 8 {
        assert(1803076106186727246int * 1803076106186727246int == 176241586724885086int * p + 13797081185216407910int);
        lemma_fundamental_div_mod_converse(1803076106186727246int * 1803076106186727246int, p, 176241586724885086int, 13797081185216407910int);
    } else if k == 9 {
        assert(11353340290879379826int * 11353340290879379826int == 6987592784692205430int * p + 1803076106186727246int);
        lemma_fundamental_div_mod_converse(11353340290879379826int * 11353340290879379826int, p, 6987592784692205430int, 1803076106186727246int);
    } else if k == 10 {
        assert(455906449640507599int * 455906449640507599int == 11267608529812975int * p + 11353340290879379826int);
        lemma_fundamental_div_mod_converse(455906449640507599int * 455906449640507599int, p, 11267608529812975int, 11353340290879379826int);
    } else if k == 11 {
        assert(17492915097719143606int * 17492915097719143606int == 16588405924890216597int * p + 455906449640507599int);
        lemma_fundamental_div_mod_converse(17492915097719143606int * 17492915097719143606int, p, 16588405924890216597int, 455906449640507599int);
    } else if k == 12 {
        assert(1532612707718625687int * 1532612707718625687int == 127334216977357403int * p + 17492915097719143606int);
        lemma_fundamental_div_mod_converse(1532612707718625687int * 1532612707718625687int, p, 127334216977357403int, 17492915097719143606int);
    } else if k == 13 {
        assert(16207902636198568418int * 16207902636198568418int == 14240784545824149997int * p + 1532612707718625687int);
        lemma_fundamental_div_mod_converse(16207902636198568418int * 16207902636198568418int, p, 14240784545824149997int, 1532612707718625687int);
    } else if k == 14 {
        assert(17776499369601055404int * 17776499369601055404int == 17130607366173278638int * p + 16207902636198568418int);
        lemma_fundamental_div_mod_converse(17776499369601055404int * 17776499369601055404int, p, 17130607366173278638int, 16207902636198568418int);
    } else if k == 15 {
        assert(6115771955107415310int * 6115771955107415310int == 2027602620068516376int * p + 17776499369601055404int);
        lemma_fundamental_div_mod_converse(6115771955107415310int * 6115771955107415310int, p, 2027602620068516376int, 17776499369601055404int);
    } else if k == 16 {
        assert(12380578893860276750int * 12380578893860276750int == 8309256808156222390int * p + 6115771955107415310int);
        lemma_fundamental_div_mod_converse(12380578893860276750int * 12380578893860276750int, p, 8309256808156222390int, 6115771955107415310int);
    } else if k == 17 {
        assert(9306717745644682924int * 9306717745644682924int == 4695408299218975106int * p + 12380578893860276750int);
        lemma_fundamental_div_mod_converse(9306717745644682924int * 9306717745644682924int, p, 4695408299218975106int, 12380578893860276750int);
    } else if k == 18 {
        assert(18146160046829613826int * 18146160046829613826int == 17850473948468743512int * p + 9306717745644682924int);
        lemma_fundamental_div_mod_converse(18146160046829613826int * 18146160046829613826int, p, 17850473948468743512int, 9306717745644682924int);
    } else if k == 19 {
        assert(3511170319078647661int * 3511170319078647661int == 668319404399374695int * p + 18146160046829613826int);
        lemma_fundamental_div_mod_converse(3511170319078647661int * 3511170319078647661int, p, 668319404399374695int, 18146160046829613826int);
    } else if k == 20 {
        assert(17654865857378133588int * 17654865857378133588int == 16896981237942002723int * p + 3511170319078647661int);
        lemma_fundamental_div_mod_converse(17654865857378133588int * 17654865857378133588int, p, 16896981237942002723int, 3511170319078647661int);
    } else if k == 21 {
        assert(5416168637041100469int * 5416168637041100469int == 1590247178281506213int * p + 17654865857378133588int);
        lemma_fundamental_div_mod_converse(5416168637041100469int * 5416168637041100469int, p, 1590247178281506213int, 17654865857378133588int);
    } else if k == 22 {
        assert(16905767614792059275int * 16905767614792059275int == 15493518941330557636int * p + 5416168637041100469int);
        lemma_fundamental_div_mod_converse(16905767614792059275int * 16905767614792059275int, p, 15493518941330557636int, 5416168637041100469int);
    } else if k == 23 {
        assert(9713644485405565297int * 9713644485405565297int == 5114988793349933654int * p + 16905767614792059275int);
        lemma_fundamental_div_mod_converse(9713644485405565297int * 9713644485405565297int, p, 5114988793349933654int, 16905767614792059275int);
    } else if k == 24 {
        assert(5456943929260765144int * 5456943929260765144int == 1614281465338340559int * p + 9713644485405565297int);
        lemma_fundamental_div_mod_converse(5456943929260765144int * 5456943929260765144int, p, 1614281465338340559int, 9713644485405565297int);
    } else if k == 25 {
        assert(17096174751763063430int * 17096174751763063430int == 15844486704156700236int * p + 5456943929260765144int);
        lemma_fundamental_div_mod_converse(17096174751763063430int * 17096174751763063430int, p, 15844486704156700236int, 5456943929260765144int);
    } else if k == 26 {
        assert(1213594585890690845int * 1213594585890690845int == 79841288704448195int * p + 17096174751763063430int);
        lemma_fundamental_div_mod_converse(1213594585890690845int * 1213594585890690845int, p, 79841288704448195int, 17096174751763063430int);
    } else if k == 27 {
        assert(6414415596519834757int * 6414415596519834757int == 2230460144622294524int * p + 1213594585890690845int);
        lemma_fundamental_div_mod_converse(6414415596519834757int * 6414415596519834757int, p, 2230460144622294524int, 1213594585890690845int);
    } else if k == 28 {
        assert(16116352524544190054int * 16116352524544190054int == 14080361158478670879int * p + 6414415596519834757int);
        lemma_fundamental_div_mod_converse(16116352524544190054int * 16116352524544190054int, p, 14080361158478670879int, 6414415596519834757int);
    } else if k == 29 {
        assert(9123114210336311365int * 9123114210336311365int == 4511973093009996851int * p + 16116352524544190054int);
        lemma_fundamental_div_mod_converse(9123114210336311365int * 9123114210336311365int, p, 4511973093009996851int, 16116352524544190054int);
    } else if k == 30 {
        assert(4614640910117430873int * 4614640910117430873int == 1154399424049971884int * p + 9123114210336311365int);
        lemma_fundamental_div_mod_converse(4614640910117430873int * 4614640910117430873int, p, 1154399424049971884int, 9123114210336311365int);
    } else if k == 31 {
        assert(1753635133440165772int * 1753635133440165772int == 166708887468903991int * p + 4614640910117430873int);
        lemma_fundamental_div_mod_converse(1753635133440165772int * 1753635133440165772int, p, 166708887468903991int, 4614640910117430873int);
    }
}

/// The generator for `k` bits has order `2^k`: its `2^k`-th power is 1 and,
/// for `k >= 1`, its `2^(k-1)`-th power is `-1`, modulo the prime.
pub proof fn lemma_generator_order(k: nat)
    requires
        k <= TWO_ADICITY,
    ensures
        pow(two_adic_generator(k) as int, pow2(k)) % field_prime() as int == 1,
        k >= 1 ==> pow(two_adic_generator(k) as int, pow2((k - 1) as nat)) % field_prime() as int
            == field_prime() - 1,
    decreases k,
{
    let p = field_prime() as int;
    lemma_generator_squares();
    if k == 0 {
        lemma2_to64();
        lemma_pow1(1);
    } else if k == 1 {
        lemma2_to64();
        lemma_pow1(p - 1);
        lemma_square_is_pow2(p - 1);
        assert((p - 1) * (p - 1) == (p - 2) * p + 1) by (nonlinear_arith);
        lemma_fundamental_div_mod_converse((p - 1) * (p - 1), p, p - 2, 1);
        lemma_small_mod((p - 1) as nat, p as nat);
    } else {
        let j = (k - 1) as nat;
        lemma_generator_order(j);
        let g = two_adic_generator(k) as int;
        let h = two_adic_generator(j) as int;
        assert((g * g) % p == h);
        lemma_square_is_pow2(g);
        lemma_pow2_unfold(k);
        lemma_pow2_unfold(j);
        lemma_pow_multiplies(g, 2, pow2(j));
        lemma_pow_mod_noop(g * g, pow2(j), p);
        lemma_pow_multiplies(g, 2, pow2((j - 1) as nat));
        lemma_pow_mod_noop(g * g, pow2((j - 1) as nat), p);
    }
}

/// The floor of the base-two logarithm, with `log2(0) == log2(1) == 0`.
pub open spec fn log2(n: nat) -> nat
    decreases n,
{
    if n <= 1 {
        0
    } else {
        1 + log2(n / 2)
    }
}

/// `log2` of a power of two is its exponent.
pub proof fn lemma_log2_pow2(k: nat)
    ensures
        log2(pow2(k)) == k,
    decreases k,
{
    if k > 0 {
        lemma_pow2_unfold(k);
        lemma_pow2_pos((k - 1) as nat);
        assert(pow2(k) / 2 == pow2((k - 1) as nat));
        lemma_log2_pow2((k - 1) as nat);
    } else {
        lemma2_to64();
    }
}

/// `log2` of a number between `2^j` and `2^(j + 1)` is `j`.
pub proof fn lemma_log2_between(n: nat, j: nat)
    requires
        pow2(j) <= n < pow2(j + 1),
    ensures
        log2(n) == j,
    decreases j,
{
    lemma_pow2_unfold(j + 1);
    if j == 0 {
        lemma2_to64();
    } else {
        lemma_pow2_unfold(j);
        lemma_pow2_pos((j - 1) as nat);
        assert(pow2((j - 1) as nat) <= n / 2 < pow2(j));
        lemma_log2_between(n / 2, (j - 1) as nat);
    }
}

/// The sum `sum_{k < len} vals[k * width + col] * x^k`: the polynomial whose
/// coefficients are the first `len` entries of column `col` of the row-major
/// matrix `vals`, evaluated at `x` (over the integers).
pub open spec fn column_eval(vals: Seq<u64>, width: nat, col: int, len: nat, x: int) -> int
    decreases len,
{
    if len == 0 {
        0
    } else {
        column_eval(vals, width, col, (len - 1) as nat, x) + vals[(len - 1) * width + col] as int
            * pow(x, (len - 1) as nat)
    }
}

/// The column-wise discrete Fourier transform of the row-major matrix `vals`
/// of the given width over Goldilocks: the entry at row `i`, column `j` is the
/// polynomial with coefficients column `j` evaluated at `g^i`, reduced to
/// its canonical value below the prime.
pub open spec fn evaluations(vals: Seq<u64>, width: nat, g: int) -> Seq<u64> {
    let height = vals.len() / width;
    Seq::new(
        vals.len(),
        |i: int|
            (column_eval(vals, width, i % width as int, height, pow(g, (i / width as int) as nat))
                % field_prime() as int) as u64,
    )
}

/// Each value reduced to its canonical representative below the prime.
pub open spec fn canonical(s: Seq<u64>) -> Seq<u64> {
    s.map_values(|x: u64| (x as nat % field_prime()) as u64)
}

/// Elements of the quadratic extension, each written as its two coefficients,
/// flattened into one sequence of base-field values.
pub open spec fn flatten(s: Seq<[u64; 2]>) -> Seq<u64> {
    Seq::new(2 * s.len(), |i: int| s[i / 2][i % 2])
}

/// Pairs of consecutive base-field values read as elements of the quadratic extension.
pub open spec fn unflatten(s: Seq<u64>) -> Seq<[u64; 2]> {
    Seq::new(s.len() / 2, |i: int| [s[2 * i], s[2 * i + 1]])
}

/// Extension elements each reduced to canonical coefficients.
pub open spec fn canonical_pairs(s: Seq<[u64; 2]>) -> Seq<[u64; 2]> {
    s.map_values(
        |x: [u64; 2]|
            [(x[0] as nat % field_prime()) as u64, (x[1] as nat % field_prime()) as u64],
    )
}

/// The column-wise discrete Fourier transform of a row-major matrix over the
/// extension: the transform applied to each coefficient, since the subgroup lies
/// in the base field.
pub open spec fn extension_evaluations(vals: Seq<[u64; 2]>, width: nat, g: int) -> Seq<[u64; 2]> {
    unflatten(evaluations(flatten(vals), 2 * width, g))
}

/// The entries of a transform are canonical: reducing them changes nothing.
pub proof fn lemma_evaluations_canonical(vals: Seq<u64>, width: nat, g: int)
    ensures
        canonical(evaluations(vals, width, g)) == evaluations(vals, width, g),
        forall|i: int|
            0 <= i < evaluations(vals, width, g).len() ==> (#[trigger] evaluations(
                vals,
                width,
                g,
            )[i] as nat) < field_prime(),
{
    let e = evaluations(vals, width, g);
    assert forall|i: int| 0 <= i < e.len() implies (#[trigger] e[i] as nat) < field_prime() by {
        let v = column_eval(vals, width, i % width as int, vals.len() / width, pow(g, (i / width as int) as nat));
        lemma_mod_bound(v, field_prime() as int);
    }
    assert(canonical(e) =~= e) by {
        assert forall|i: int| 0 <= i < e.len() implies canonical(e)[i] == e[i] by {
            lemma_small_mod(e[i] as nat, field_prime());
        }
    }
}

/// The coefficients of a transform over the extension are canonical.
pub proof fn lemma_extension_evaluations_canonical(vals: Seq<[u64; 2]>, width: nat, g: int)
    ensures
        canonical_pairs(extension_evaluations(vals, width, g)) == extension_evaluations(
            vals,
            width,
            g,
        ),
{
    let e = evaluations(flatten(vals), 2 * width, g);
    let x = extension_evaluations(vals, width, g);
    lemma_evaluations_canonical(flatten(vals), 2 * width, g);
    assert forall|i: int| 0 <= i < x.len() implies canonical_pairs(x)[i] == x[i] by {
        assert(e[2 * i] == x[i][0]);
        assert(e[2 * i + 1] == x[i][1]);
        lemma_small_mod(e[2 * i] as nat, field_prime());
        lemma_small_mod(e[2 * i + 1] as nat, field_prime());
        assert(canonical_pairs(x)[i] =~= x[i]);
    }
    assert(canonical_pairs(x) =~= x);
}

/// Rows of zeros below the first `rows` rows add nothing to a column's polynomial.
pub proof fn lemma_zero_rows_add_nothing(
    base: Seq<u64>,
    width: nat,
    rows: nat,
    height: nat,
    col: int,
    x: int,
)
    requires
        width > 0,
        base.len() == width * rows,
        rows <= height,
        0 <= col < width,
    ensures
        column_eval(padded(base, width, height, 0u64), width, col, height, x) == column_eval(
            base,
            width,
            col,
            rows,
            x,
        ),
    decreases height,
{
    let m = padded(base, width, height, 0u64);
    lemma_mul_inequality(rows as int, height as int, width as int);
    lemma_mul_is_commutative(rows as int, width as int);
    lemma_mul_is_commutative(height as int, width as int);
    if height == rows {
        assert(m.subrange(0, base.len() as int) =~= base);
        lemma_prefix_columns_agree(base, m, width, rows, col, x);
    } else {
        lemma_zero_rows_add_nothing(base, width, rows, (height - 1) as nat, col, x);
        let pm = padded(base, width, (height - 1) as nat, 0u64);
        lemma_mul_inequality(height as int - 1, height as int, width as int);
        lemma_columns_agree_below(pm, m, width, (height - 1) as nat, col, x);
        let k = (height - 1) * width + col;
        lemma_mul_inequality(rows as int, height as int - 1, width as int);
        lemma_mul_is_commutative(rows as int, width as int);
        lemma_mul_is_distributive_add_other_way(width as int, height as int - 1, 1);
        assert(m[k] == 0u64);
        lemma_mul_basics(pow(x, (height - 1) as nat));
    }
}

/// Two matrices that agree on the entries of the first `len` rows of a column
/// give that column the same polynomial of `len` coefficients.
proof fn lemma_columns_agree_below(a: Seq<u64>, b: Seq<u64>, width: nat, len: nat, col: int, x: int)
    requires
        0 <= col < width,
        width * len <= a.len(),
        width * len <= b.len(),
        forall|i: int| 0 <= i < width * len ==> a[i] == b[i],
    ensures
        column_eval(a, width, col, len, x) == column_eval(b, width, col, len, x),
    decreases len,
{
    if len > 0 {
        lemma_mul_inequality(len as int - 1, len as int, width as int);
        lemma_mul_is_commutative(len as int - 1, width as int);
        lemma_mul_is_commutative(len as int, width as int);
        lemma_mul_is_distributive_add_other_way(width as int, len as int - 1, 1);
        lemma_columns_agree_below(a, b, width, (len - 1) as nat, col, x);
    }
}

proof fn lemma_prefix_columns_agree(base: Seq<u64>, m: Seq<u64>, width: nat, rows: nat, col: int, x: int)
    requires
        0 <= col < width,
        base.len() == width * rows,
        m.len() >= base.len(),
        m.subrange(0, base.len() as int) == base,
    ensures
        column_eval(m, width, col, rows, x) == column_eval(base, width, col, rows, x),
{
    assert forall|i: int| 0 <= i < width * rows implies m[i] == base[i] by {
        assert(m.subrange(0, base.len() as int)[i] == m[i]);
    }
    lemma_columns_agree_below(m, base, width, rows, col, x);
}

/// The sum of the first `len` entries of column `col` of a row-major matrix.
pub open spec fn column_sum(vals: Seq<u64>, width: nat, col: int, len: nat) -> int
    decreases len,
{
    if len == 0 {
        0
    } else {
        column_sum(vals, width, col, (len - 1) as nat) + vals[(len - 1) * width + col] as int
    }
}

proof fn lemma_column_eval_at_one(vals: Seq<u64>, width: nat, col: int, len: nat)
    ensures
        column_eval(vals, width, col, len, 1) == column_sum(vals, width, col, len),
    decreases len,
{
    if len > 0 {
        lemma_column_eval_at_one(vals, width, col, (len - 1) as nat);
        lemma1_pow((len - 1) as nat);
    }
}

/// The first row of the expansion holds the column sums: the evaluation at `g^0 = 1`.
pub proof fn lemma_first_row_is_column_sum(vals: Seq<u64>, width: nat, g: int, col: int)
    requires
        0 <= col < width,
        vals.len() >= width,
    ensures
        evaluations(vals, width, g)[col] == (column_sum(vals, width, col, vals.len() / width)
            % field_prime() as int) as u64,
{
    lemma_small_mod(col as nat, width);
    lemma_basic_div(col, width as int);
    lemma_pow0(g);
    lemma_column_eval_at_one(vals, width, col, vals.len() / width);
}

/// `c` is, entry by entry and modulo the prime, the combination `s * a + t * b`.
pub open spec fn combines(c: Seq<u64>, a: Seq<u64>, b: Seq<u64>, s: int, t: int) -> bool {
    &&& c.len() == a.len()
    &&& a.len() == b.len()
    &&& forall|i: int|
        0 <= i < c.len() ==> #[trigger] c[i] as int % field_prime() as int == (s * a[i] + t
            * b[i]) % field_prime() as int
}

/// The canonical combination `s * a + t * b` of two sequences of field values.
pub open spec fn combination(a: Seq<u64>, b: Seq<u64>, s: int, t: int) -> Seq<u64> {
    Seq::new(a.len(), |i: int| ((s * a[i] + t * b[i]) % field_prime() as int) as u64)
}

proof fn lemma_combine_step(rc: int, ra: int, rb: int, cj: int, aj: int, bj: int, x: int, s: int, t: int)
    requires
        rc % field_prime() as int == (s * ra + t * rb) % field_prime() as int,
        cj % field_prime() as int == (s * aj + t * bj) % field_prime() as int,
    ensures
        (rc + cj * x) % field_prime() as int == (s * (ra + aj * x) + t * (rb + bj * x))
            % field_prime() as int,
{
    let p = field_prime() as int;
    lemma_add_mod_noop(rc, cj * x, p);
    lemma_mul_mod_noop_left(cj, x, p);
    lemma_mul_mod_noop_left(s * aj + t * bj, x, p);
    lemma_add_mod_noop(s * ra + t * rb, (s * aj + t * bj) * x, p);
    lemma_mul_is_distributive_add_other_way(x, s * aj, t * bj);
    lemma_mul_is_distributive_add(s, ra, aj * x);
    lemma_mul_is_distributive_add(t, rb, bj * x);
    lemma_mul_is_associative(s, aj, x);
    lemma_mul_is_associative(t, bj, x);
}

proof fn lemma_column_eval_combines(
    c: Seq<u64>,
    a: Seq<u64>,
    b: Seq<u64>,
    s: int,
    t: int,
    width: nat,
    col: int,
    len: nat,
    x: int,
)
    requires
        combines(c, a, b, s, t),
        0 <= col < width,
        width * len <= c.len(),
    ensures
        column_eval(c, width, col, len, x) % field_prime() as int == (s * column_eval(
            a,
            width,
            col,
            len,
            x,
        ) + t * column_eval(b, width, col, len, x)) % field_prime() as int,
    decreases len,
{
    if len > 0 {
        lemma_mul_inequality(len as int - 1, len as int, width as int);
        lemma_mul_is_commutative(len as int - 1, width as int);
        lemma_mul_is_commutative(len as int, width as int);
        lemma_mul_is_distributive_add_other_way(width as int, len as int - 1, 1);
        lemma_column_eval_combines(c, a, b, s, t, width, col, (len - 1) as nat, x);
        let j = (len - 1) * width + col;
        assert(0 <= j < c.len());
        assert(c[j] as int % field_prime() as int == (s * a[j] + t * b[j]) % field_prime() as int);
        lemma_combine_step(
            column_eval(c, width, col, (len - 1) as nat, x),
            column_eval(a, width, col, (len - 1) as nat, x),
            column_eval(b, width, col, (len - 1) as nat, x),
            c[j] as int,
            a[j] as int,
            b[j] as int,
            pow(x, (len - 1) as nat),
            s,
            t,
        );
    }
}

/// The transform is linear over the field: when `c` is the combination
/// `s * a + t * b` of `a` and `b` modulo the prime, so is its transform.
pub proof fn lemma_evaluations_linear(
    c: Seq<u64>,
    a: Seq<u64>,
    b: Seq<u64>,
    s: int,
    t: int,
    width: nat,
    g: int,
)
    requires
        combines(c, a, b, s, t),
        width > 0,
    ensures
        evaluations(c, width, g) == combination(evaluations(a, width, g), evaluations(b, width, g), s, t),
{
    let p = field_prime() as int;
    let ec = evaluations(c, width, g);
    let ea = evaluations(a, width, g);
    let eb = evaluations(b, width, g);
    let h = c.len() / width;
    lemma_fundamental_div_mod(c.len() as int, width as int);
    lemma_mod_bound(c.len() as int, width as int);
    lemma_mul_is_commutative(width as int, h as int);
    assert forall|i: int| 0 <= i < ec.len() implies ec[i] == combination(ea, eb, s, t)[i] by {
        let col = i % width as int;
        let x = pow(g, (i / width as int) as nat);
        lemma_mod_bound(i, width as int);
        lemma_column_eval_combines(c, a, b, s, t, width, col, h, x);
        let vc = column_eval(c, width, col, h, x);
        let va = column_eval(a, width, col, h, x);
        let vb = column_eval(b, width, col, h, x);
        lemma_mod_bound(vc, p);
        lemma_mod_bound(va, p);
        lemma_mod_bound(vb, p);
        lemma_add_mod_noop(s * (va % p), t * (vb % p), p);
        lemma_add_mod_noop(s * va, t * vb, p);
        lemma_mul_mod_noop_right(s, va, p);
        lemma_mul_mod_noop_right(t, vb, p);
        lemma_mod_bound(s * va + t * vb, p);
    }
    assert(ec =~= combination(ea, eb, s, t));
}

/// The canonical combination `s * a + t * b` of two sequences of extension
/// elements, coefficient by coefficient: the combination with base-field
/// scalars.
pub open spec fn combination_pairs(a: Seq<[u64; 2]>, b: Seq<[u64; 2]>, s: int, t: int) -> Seq<
    [u64; 2],
> {
    Seq::new(
        a.len(),
        |i: int|
            [
                ((s * a[i][0] + t * b[i][0]) % field_prime() as int) as u64,
                ((s * a[i][1] + t * b[i][1]) % field_prime() as int) as u64,
            ],
    )
}

/// Base-field values as extension elements: each `x` as `[x, 0]`.
pub open spec fn embed(s: Seq<u64>) -> Seq<[u64; 2]> {
    Seq::new(s.len(), |i: int| [s[i], 0u64])
}

proof fn lemma_embedded_columns(m: Seq<u64>, width: nat, col: int, len: nat, x: int)
    requires
        0 <= col < width,
        width * len <= m.len(),
    ensures
        column_eval(flatten(embed(m)), 2 * width, 2 * col, len, x) == column_eval(m, width, col, len, x),
        column_eval(flatten(embed(m)), 2 * width, 2 * col + 1, len, x) == 0,
    decreases len,
{
    if len > 0 {
        lemma_mul_inequality(len as int - 1, len as int, width as int);
        lemma_mul_is_commutative(len as int - 1, width as int);
        lemma_mul_is_commutative(len as int, width as int);
        lemma_embedded_columns(m, width, col, (len - 1) as nat, x);
        lemma_mul_is_distributive_add_other_way(width as int, len as int - 1, 1);
        let j = (len - 1) * width + col;
        assert(0 <= j < m.len());
        lemma_mul_is_associative(len as int - 1, 2, width as int);
        lemma_mul_is_commutative(len as int - 1, 2);
        lemma_mul_is_associative(2, len as int - 1, width as int);
        assert((len - 1) * (2 * width) + 2 * col == 2 * j);
        let f = flatten(embed(m));
        assert(f[2 * j] == m[j]);
        assert(f[2 * j + 1] == 0u64);
        lemma_mul_basics(pow(x, (len - 1) as nat));
    }
}

/// The transform of base-field values, viewed as extension elements, is the
/// transform of the values, viewed as extension elements.
pub proof fn lemma_embedded_evaluations(m: Seq<u64>, width: nat, g: int)
    requires
        width > 0,
        m.len() % width == 0,
    ensures
        extension_evaluations(embed(m), width, g) == embed(evaluations(m, width, g)),
{
    let f = flatten(embed(m));
    let h = m.len() / width;
    lemma_fundamental_div_mod(m.len() as int, width as int);
    lemma_mul_is_commutative(width as int, h as int);
    assert(f.len() == 2 * m.len());
    assert(f.len() / (2 * width) == h) by {
        lemma_mul_is_associative(2, width as int, h as int);
        lemma_div_multiples_vanish(h as int, 2 * width as int);
        lemma_mul_is_commutative(h as int, 2 * width as int);
    }
    let e = evaluations(f, 2 * width, g);
    let lhs = extension_evaluations(embed(m), width, g);
    let rhs = embed(evaluations(m, width, g));
    assert forall|i: int| 0 <= i < lhs.len() implies lhs[i] == rhs[i] by {
        let r = i / width as int;
        let c = i % width as int;
        lemma_fundamental_div_mod(i, width as int);
        lemma_mod_bound(i, width as int);
        lemma_div_pos_is_pos(i, width as int);
        assert(2 * i == r * (2 * width) + 2 * c) by {
            lemma_mul_is_associative(r, 2, width as int);
            lemma_mul_is_commutative(r, 2);
            lemma_mul_is_associative(2, r, width as int);
            lemma_mul_is_commutative(width as int, r);
        }
        lemma_fundamental_div_mod_converse(2 * i, 2 * width as int, r, 2 * c);
        lemma_fundamental_div_mod_converse(2 * i + 1, 2 * width as int, r, 2 * c + 1);
        assert(r < h) by {
            if r >= h {
                lemma_mul_inequality(h as int, r, width as int);
                lemma_mul_is_commutative(h as int, width as int);
            }
        }
        lemma_embedded_columns(m, width, c, h, pow(g, r as nat));
        lemma_small_mod(0, field_prime());
        assert(e[2 * i] == lhs[i][0]);
        assert(e[2 * i + 1] == lhs[i][1]);
        assert(lhs[i] =~= rhs[i]);
    }
    assert(lhs =~= rhs);
}

/// The product `l * x` in the quadratic extension `X^2 = 7` of Goldilocks
/// (`BinomiallyExtendable<2>::W` is 7), each coefficient canonical.
pub open spec fn extension_mul(l: [u64; 2], x: [u64; 2]) -> [u64; 2] {
    [
        ((l[0] * x[0] + (7 * l[1]) * x[1]) % field_prime() as int) as u64,
        ((l[1] * x[0] + l[0] * x[1]) % field_prime() as int) as u64,
    ]
}

/// Every element of `a` multiplied by the extension scalar `l`.
pub open spec fn scale_pairs(l: [u64; 2], a: Seq<[u64; 2]>) -> Seq<[u64; 2]> {
    Seq::new(a.len(), |i: int| extension_mul(l, a[i]))
}

/// Coefficient `d` of each extension element.
pub open spec fn coefficients(s: Seq<[u64; 2]>, d: int) -> Seq<u64> {
    Seq::new(s.len(), |i: int| s[i][d])
}

proof fn lemma_coefficient_columns(m: Seq<[u64; 2]>, width: nat, col: int, d: int, len: nat, x: int)
    requires
        0 <= col < width,
        0 <= d < 2,
        width * len <= m.len(),
    ensures
        column_eval(flatten(m), 2 * width, 2 * col + d, len, x) == column_eval(
            coefficients(m, d),
            width,
            col,
            len,
            x,
        ),
    decreases len,
{
    if len > 0 {
        lemma_mul_inequality(len as int - 1, len as int, width as int);
        lemma_mul_is_commutative(len as int - 1, width as int);
        lemma_mul_is_commutative(len as int, width as int);
        lemma_coefficient_columns(m, width, col, d, (len - 1) as nat, x);
        lemma_mul_is_distributive_add_other_way(width as int, len as int - 1, 1);
        let j = (len - 1) * width + col;
        assert(0 <= j < m.len());
        lemma_mul_is_associative(len as int - 1, 2, width as int);
        lemma_mul_is_commutative(len as int - 1, 2);
        lemma_mul_is_associative(2, len as int - 1, width as int);
        assert((len - 1) * (2 * width) + 2 * col + d == 2 * j + d);
        let f = flatten(m);
        lemma_fundamental_div_mod_converse(2 * j + d, 2, j, d);
        assert(f[2 * j + d] == coefficients(m, d)[j]);
    }
}

/// The transform over the extension acts on each coefficient separately:
/// coefficient `d` of the transform is the transform of coefficient `d`.
pub proof fn lemma_extension_evaluations_coefficients(m: Seq<[u64; 2]>, width: nat, g: int, d: int)
    requires
        width > 0,
        m.len() % width == 0,
        0 <= d < 2,
    ensures
        coefficients(extension_evaluations(m, width, g), d) == evaluations(coefficients(m, d), width, g),
{
    let f = flatten(m);
    let h = m.len() / width;
    lemma_fundamental_div_mod(m.len() as int, width as int);
    lemma_mul_is_commutative(width as int, h as int);
    assert(f.len() / (2 * width) == h) by {
        lemma_mul_is_associative(2, width as int, h as int);
        lemma_div_multiples_vanish(h as int, 2 * width as int);
        lemma_mul_is_commutative(h as int, 2 * width as int);
    }
    let e = evaluations(f, 2 * width, g);
    let lhs = coefficients(extension_evaluations(m, width, g), d);
    let rhs = evaluations(coefficients(m, d), width, g);
    assert forall|i: int| 0 <= i < lhs.len() implies lhs[i] == rhs[i] by {
        let r = i / width as int;
        let c = i % width as int;
        lemma_fundamental_div_mod(i, width as int);
        lemma_mod_bound(i, width as int);
        lemma_div_pos_is_pos(i, width as int);
        assert(2 * i == r * (2 * width) + 2 * c) by {
            lemma_mul_is_associative(r, 2, width as int);
            lemma_mul_is_commutative(r, 2);
            lemma_mul_is_associative(2, r, width as int);
            lemma_mul_is_commutative(width as int, r);
        }
        lemma_fundamental_div_mod_converse(2 * i + d, 2 * width as int, r, 2 * c + d);
        assert(r < h) by {
            if r >= h {
                lemma_mul_inequality(h as int, r, width as int);
                lemma_mul_is_commutative(h as int, width as int);
            }
        }
        lemma_coefficient_columns(m, width, c, d, h, pow(g, r as nat));
        assert(lhs[i] == e[2 * i + d]);
    }
    assert(lhs =~= rhs);
}

} // verus!
