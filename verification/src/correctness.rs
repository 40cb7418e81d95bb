//! Full functional correctness of both transforms over the concrete
//! field. The RN variant, on bit-reversed input with natural twiddles,
//! computes the direct DFT of the natural-order coefficients
//! ([`lemma_rn_fft_computes_dft`]); the NR variant, on natural input with
//! bit-reversed twiddles, computes the DFT with its rows in bit-reversed
//! order ([`lemma_nr_fft_computes_dft`]).
//!
//! Both proofs follow the classic decimation-in-time argument: between
//! stages the array is a family of small DFTs of arithmetic
//! subsequences of the coefficients, and every stage doubles their size
//! by splitting the doubled sum into its even and odd terms. In the RN
//! direction the small DFTs sit in contiguous blocks whose subsequence
//! offset is a bit-reversed block index; in the NR direction the
//! subsequences sit at a stride, and it is the DFT row held at each
//! position that is bit-reversed.

use vstd::prelude::*;
use vstd::arithmetic::div_mod::{
    lemma_add_mod_noop, lemma_add_mod_noop_right, lemma_fundamental_div_mod,
    lemma_fundamental_div_mod_converse, lemma_mod_bound, lemma_mod_multiples_vanish,
    lemma_mul_mod_noop_left, lemma_mul_mod_noop_right, lemma_multiply_divide_lt, lemma_small_mod,
};
use vstd::arithmetic::mul::lemma_mul_is_commutative;
use vstd::arithmetic::power2::{lemma2_to64, lemma_pow2_pos, lemma_pow2_unfold, pow2};
use crate::bitrev::{
    bit_reverse, bit_reverse_seq, lemma_bit_reverse_bound, lemma_bit_reverse_pad,
    lemma_bit_reverse_seq_involution,
};
use crate::dft::{
    dft_row_sum, fp_pow, lemma_fp_mul_assoc, lemma_fp_mul_one, lemma_fp_pow_adds,
    lemma_fp_pow_mod_cycle, lemma_fp_pow_mul, lemma_fp_pow_valid,
};
use crate::field::{FieldOps, all_valid};
use crate::fft::{
    butterfly_hi, butterfly_lo, nr_fft_rec, nr_fft_spec, nr_stage, rn_fft_rec, rn_fft_spec,
    rn_stage,
};
use crate::goldilocks::{Fp, MODULUS};

verus! {

/// The additive inverse of a field element.
pub open spec fn fp_neg(x: Fp) -> Fp {
    Fp { value: ((MODULUS - x.value) as int % MODULUS as int) as u64 }
}

/// Adding zero to a canonical representative changes nothing.
proof fn lemma_fp_add_zero(a: Fp)
    requires
        a.value < MODULUS,
    ensures
        a.spec_add(Fp { value: 0 }) == a,
{
    lemma_small_mod(a.value as nat, MODULUS as nat);
}

/// Multiplying zero gives zero.
proof fn lemma_fp_mul_zero(a: Fp)
    ensures
        a.spec_mul(Fp { value: 0 }) == (Fp { value: 0 }),
{
    assert(a.value as int * 0 == 0) by (nonlinear_arith);
}

/// Multiplication distributes over addition.
proof fn lemma_fp_mul_distrib(a: Fp, b: Fp, c: Fp)
    ensures
        a.spec_mul(b.spec_add(c)) == a.spec_mul(b).spec_add(a.spec_mul(c)),
{
    let m = MODULUS as int;
    let x = a.value as int;
    let y = b.value as int;
    let z = c.value as int;
    lemma_mul_mod_noop_right(x, y + z, m);
    assert(x * (y + z) == x * y + x * z) by (nonlinear_arith);
    lemma_add_mod_noop(x * y, x * z, m);
}

/// Four summands regroup freely: `a + (b + (c + d)) == (a + c) + (b + d)`.
proof fn lemma_fp_add_shuffle4(a: Fp, b: Fp, c: Fp, d: Fp)
    ensures
        a.spec_add(b.spec_add(c.spec_add(d))) == (a.spec_add(c)).spec_add(b.spec_add(d)),
{
    let m = MODULUS as int;
    let xa = a.value as int;
    let xb = b.value as int;
    let xc = c.value as int;
    let xd = d.value as int;
    lemma_add_mod_noop_right(xb, xc + xd, m);
    lemma_add_mod_noop_right(xa, xb + xc + xd, m);
    lemma_add_mod_noop(xa + xc, xb + xd, m);
}

/// Subtraction is addition of the additive inverse.
proof fn lemma_fp_sub_is_add_neg(a: Fp, b: Fp)
    ensures
        a.spec_sub(b) == a.spec_add(fp_neg(b)),
{
    let m = MODULUS as int;
    lemma_add_mod_noop_right(a.value as int, MODULUS - b.value, m);
}

/// A negated factor negates the product.
proof fn lemma_fp_mul_neg_left(x: Fp, y: Fp)
    ensures
        fp_neg(x).spec_mul(y) == fp_neg(x.spec_mul(y)),
{
    let m = MODULUS as int;
    let xv = x.value as int;
    let yv = y.value as int;
    let xy = xv * yv;
    lemma_mul_mod_noop_left(MODULUS - xv, yv, m);
    assert((((MODULUS - xv) % m) * yv) % m == ((MODULUS - xv) * yv) % m);
    assert((MODULUS - xv) * yv == m * yv + (-xy)) by (nonlinear_arith)
        requires
            xy == xv * yv,
            m == MODULUS as int,
    ;
    lemma_mod_multiples_vanish(yv, -xy, m);
    assert(((MODULUS - xv) * yv) % m == (-xy) % m);
    lemma_fundamental_div_mod(xy, m);
    assert(m * (xy / m) + (-xy) == -(xy % m));
    lemma_mod_multiples_vanish(xy / m, -xy, m);
    assert((-(xy % m)) % m == (-xy) % m);
    lemma_mod_multiples_vanish(1, -(xy % m), m);
    assert((m * 1 + (-(xy % m))) % m == (-(xy % m)) % m);
    assert((MODULUS - xy % m) % m == (-xy) % m);
}

/// Multiplying by minus one is negation.
proof fn lemma_fp_minus_one_mul(y: Fp)
    ensures
        (Fp { value: (MODULUS - 1) as u64 }).spec_mul(y) == fp_neg(y),
{
    let m = MODULUS as int;
    let yv = y.value as int;
    assert((MODULUS - 1) * yv == MODULUS as int * yv + (-yv)) by (nonlinear_arith);
    lemma_mod_multiples_vanish(yv, -yv, m);
    lemma_mod_multiples_vanish(1, -yv, m);
}

/// Every power of one is one.
proof fn lemma_fp_pow_one_base(e: nat)
    ensures
        fp_pow(Fp { value: 1 }, e) == (Fp { value: 1 }),
    decreases e,
{
    if e > 0 {
        lemma_fp_pow_one_base((e - 1) as nat);
    }
}

/// Squaring the base halves the exponent:
/// `(x * x)^e == x^(2 * e)`.
proof fn lemma_fp_pow_square(x: Fp, e: nat)
    requires
        x.value < MODULUS,
    ensures
        fp_pow(x.spec_mul(x), e) == fp_pow(x, 2 * e),
{
    lemma_fp_mul_one(x);
    assert(fp_pow(x, 0) == (Fp { value: 1 }));
    assert(fp_pow(x, 1) == x.spec_mul(Fp { value: 1 }));
    assert(fp_pow(x, 2) == x.spec_mul(fp_pow(x, 1)));
    lemma_fp_pow_mul(x, 2, e);
}

/// Field multiplication is commutative.
proof fn lemma_fp_mul_comm(a: Fp, b: Fp)
    ensures
        a.spec_mul(b) == b.spec_mul(a),
{
    lemma_mul_is_commutative(a.value as int, b.value as int);
}

/// The weighted sum of an arithmetic subsequence of `v`: the terms
/// `v[stride * s + off] * x^(row * s)` for `s` in `[lo, len)`.
pub open spec fn geo_sum(
    v: Seq<Fp>,
    stride: nat,
    off: nat,
    x: Fp,
    row: nat,
    lo: nat,
    len: nat,
) -> Fp
    decreases len - lo,
{
    if lo >= len {
        Fp { value: 0 }
    } else {
        (v[(stride * lo + off) as int].spec_mul(fp_pow(x, row * lo))).spec_add(
            geo_sum(v, stride, off, x, row, lo + 1, len),
        )
    }
}

/// A sum of even length splits into its even- and odd-indexed terms: two
/// sums with doubled stride and squared ratio, the odd one scaled by one
/// extra factor `x^row`.
proof fn lemma_geo_sum_split(
    v: Seq<Fp>,
    stride: nat,
    off: nat,
    x: Fp,
    row: nat,
    lo: nat,
    len: nat,
)
    requires
        lo <= len,
        x.value < MODULUS,
    ensures
        geo_sum(v, stride, off, x, row, 2 * lo, 2 * len) == geo_sum(
            v,
            2 * stride,
            off,
            x.spec_mul(x),
            row,
            lo,
            len,
        ).spec_add(
            fp_pow(x, row).spec_mul(
                geo_sum(v, 2 * stride, (off + stride) as nat, x.spec_mul(x), row, lo, len),
            ),
        ),
    decreases len - lo,
{
    let x2 = x.spec_mul(x);
    let w = fp_pow(x, row);
    if lo >= len {
        lemma_fp_mul_zero(w);
        lemma_fp_add_zero(Fp { value: 0 });
    } else {
        lemma_geo_sum_split(v, stride, off, x, row, lo + 1, len);
        let p = fp_pow(x2, row * lo);
        let e_coeff = v[(2 * stride * lo + off) as int];
        let o_coeff = v[(2 * stride * lo + stride + off) as int];
        let e_term = e_coeff.spec_mul(p);
        let o_term = o_coeff.spec_mul(p);
        let e_rest = geo_sum(v, 2 * stride, off, x2, row, lo + 1, len);
        let o_rest = geo_sum(v, 2 * stride, (off + stride) as nat, x2, row, lo + 1, len);

        assert(stride * (2 * lo) == 2 * stride * lo) by (nonlinear_arith);
        assert(stride * (2 * lo + 1) == 2 * stride * lo + stride) by (nonlinear_arith);
        assert(row * (2 * lo) == 2 * (row * lo)) by (nonlinear_arith);
        assert(row * (2 * lo + 1) == row + 2 * (row * lo)) by (nonlinear_arith);
        lemma_fp_pow_square(x, row * lo);
        lemma_fp_pow_adds(x, row, 2 * (row * lo));

        // The first two terms of the long sum are the heads of the halves.
        assert(geo_sum(v, stride, off, x, row, 2 * lo, 2 * len) == (e_coeff.spec_mul(
            fp_pow(x, row * (2 * lo)),
        )).spec_add(geo_sum(v, stride, off, x, row, 2 * lo + 1, 2 * len)));
        assert(geo_sum(v, stride, off, x, row, 2 * lo + 1, 2 * len) == (o_coeff.spec_mul(
            fp_pow(x, row * (2 * lo + 1)),
        )).spec_add(geo_sum(v, stride, off, x, row, 2 * (lo + 1), 2 * len)));

        // The odd head carries the factor `x^row`.
        lemma_fp_mul_assoc(o_coeff, w, p);
        lemma_fp_mul_comm(o_coeff, w);
        lemma_fp_mul_assoc(w, o_coeff, p);
        assert(o_coeff.spec_mul(w.spec_mul(p)) == w.spec_mul(o_term));

        lemma_fp_mul_distrib(w, o_term, o_rest);
        lemma_fp_add_shuffle4(e_term, w.spec_mul(o_term), e_rest, w.spec_mul(o_rest));
    }
}

/// For a ratio of multiplicative order dividing `g`, row `g + r` sums to
/// the same value as row `r`.
proof fn lemma_geo_sum_reduce_row(
    v: Seq<Fp>,
    stride: nat,
    off: nat,
    x: Fp,
    r: nat,
    g: nat,
    lo: nat,
    len: nat,
)
    requires
        fp_pow(x, g) == (Fp { value: 1 }),
    ensures
        geo_sum(v, stride, off, x, g + r, lo, len) == geo_sum(v, stride, off, x, r, lo, len),
    decreases len - lo,
{
    if lo < len {
        lemma_geo_sum_reduce_row(v, stride, off, x, r, g, lo + 1, len);
        assert((g + r) * lo == g * lo + r * lo) by (nonlinear_arith);
        lemma_fp_pow_adds(x, g * lo, r * lo);
        lemma_fp_pow_mul(x, g, lo);
        lemma_fp_pow_one_base(lo);
        lemma_fp_pow_valid(x, r * lo);
        lemma_fp_mul_one(fp_pow(x, r * lo));
    }
}

/// Multiplying a canonical representative by one on the right changes
/// nothing.
proof fn lemma_fp_mul_one_right(a: Fp)
    requires
        a.value < MODULUS,
    ensures
        a.spec_mul(Fp { value: 1 }) == a,
{
    lemma_small_mod(a.value as nat, MODULUS as nat);
}

/// The array between RN stages: `m` contiguous blocks of `g` elements
/// each (`g * m == v.len()`, `pow2(kk) == m`). Block `q` holds the
/// `g`-point DFT, with ratio `w^m`, of the subsequence of `v` with
/// stride `m` and offset `bit_reverse(q, kk)`; position `r` of the block
/// holds row `r` of that small DFT.
pub open spec fn rn_mid_state(v: Seq<Fp>, w: Fp, g: nat, m: nat, kk: nat) -> Seq<Fp> {
    Seq::new(
        v.len(),
        |j: int|
            geo_sum(
                v,
                m,
                bit_reverse((j / g as int) as nat, kk),
                fp_pow(w, m),
                (j % g as int) as nat,
                0,
                g,
            ),
    )
}

/// Before any stage runs, the mid-state with one-element blocks is the
/// bit-reversal of the coefficients.
proof fn lemma_rn_mid_state_initial(v: Seq<Fp>, w: Fp, k: nat)
    requires
        v.len() == pow2(k),
        all_valid(v),
    ensures
        rn_mid_state(v, w, 1, v.len(), k) == bit_reverse_seq(v, k),
{
    let n = v.len();
    let mid = rn_mid_state(v, w, 1, n, k);
    assert forall|j: int| 0 <= j < n implies mid[j] == bit_reverse_seq(v, k)[j] by {
        lemma_fundamental_div_mod_converse(j, 1, j, 0);
        lemma_bit_reverse_bound(j as nat, k);
        let off = bit_reverse(j as nat, k);
        let x = fp_pow(w, n);
        assert(n * 0 == 0) by (nonlinear_arith);
        assert(mid[j] == geo_sum(v, n, off, x, 0, 0, 1));
        assert(geo_sum(v, n, off, x, 0, 1, 1) == (Fp { value: 0 }));
        assert(fp_pow(x, 0) == (Fp { value: 1 }));
        assert(geo_sum(v, n, off, x, 0, 0, 1) == (v[off as int].spec_mul(Fp { value: 1 })).spec_add(
            Fp { value: 0 },
        ));
        lemma_fp_mul_one_right(v[off as int]);
        lemma_fp_add_zero(v[off as int]);
    }
    assert(mid =~= bit_reverse_seq(v, k));
}

/// A full-length geometric sum with unit stride is a row of the DFT:
/// exponents reduce modulo `n` because the ratio has order dividing `n`.
proof fn lemma_geo_sum_is_dft_tail(v: Seq<Fp>, w: Fp, row: nat, col: nat)
    requires
        fp_pow(w, v.len()) == (Fp { value: 1 }),
        v.len() >= 1,
    ensures
        geo_sum(v, 1, 0, w, row, col, v.len()) == dft_row_sum(v, w, row, col),
    decreases v.len() - col,
{
    if col < v.len() {
        lemma_geo_sum_is_dft_tail(v, w, row, col + 1);
        assert(1 * col + 0 == col) by (nonlinear_arith);
        lemma_fp_pow_mod_cycle(w, row * col, v.len());
    }
}

/// After the last stage, the single-block mid-state is exactly the
/// sequence of DFT rows.
proof fn lemma_rn_mid_state_final(v: Seq<Fp>, w: Fp)
    requires
        v.len() >= 1,
        w.value < MODULUS,
        fp_pow(w, v.len()) == (Fp { value: 1 }),
    ensures
        rn_mid_state(v, w, v.len(), 1, 0) == Seq::new(
            v.len(),
            |row: int| dft_row_sum(v, w, row as nat, 0),
        ),
    decreases v.len(),
{
    let n = v.len();
    let mid = rn_mid_state(v, w, n, 1, 0);
    let rows = Seq::new(n, |row: int| dft_row_sum(v, w, row as nat, 0));
    lemma_fp_mul_one_right(w);
    assert(fp_pow(w, 0) == (Fp { value: 1 }));
    assert(fp_pow(w, 1) == w.spec_mul(Fp { value: 1 }));
    assert forall|j: int| 0 <= j < n implies mid[j] == rows[j] by {
        lemma_fundamental_div_mod_converse(j, n as int, 0, j);
        assert(mid[j] == geo_sum(v, 1, bit_reverse(0, 0), w, j as nat, 0, n));
        lemma_geo_sum_is_dft_tail(v, w, j as nat, 0);
    }
    assert(mid =~= rows);
}

/// Merging two adjacent blocks, even row: row `r` of the doubled DFT is
/// the lower butterfly output of row `r` of the two halves.
proof fn lemma_rn_butterfly_even(v: Seq<Fp>, w: Fp, g: nat, h: nat, kk: nat, q: nat, r: nat)
    requires
        g >= 1,
        h >= 1,
        kk >= 1,
        pow2(kk) == 2 * h,
        w.value < MODULUS,
        r < g,
    ensures
        geo_sum(v, h, bit_reverse(q, (kk - 1) as nat), fp_pow(w, h), r, 0, 2 * g)
            == butterfly_lo(
            geo_sum(v, 2 * h, bit_reverse(2 * q, kk), fp_pow(w, 2 * h), r, 0, g),
            geo_sum(v, 2 * h, bit_reverse(2 * q + 1, kk), fp_pow(w, 2 * h), r, 0, g),
            fp_pow(fp_pow(w, h), r),
        ),
{
    let w2 = fp_pow(w, h);
    let wg = fp_pow(w, 2 * h);
    let off = bit_reverse(q, (kk - 1) as nat);
    lemma_fp_pow_valid(w, h);
    lemma_geo_sum_split(v, h, off, w2, r, 0, g);
    lemma_fp_pow_adds(w, h, h);
    assert(w2.spec_mul(w2) == wg);
    lemma_pow2_unfold(kk);
    assert(pow2((kk - 1) as nat) == h);
    assert((2 * q) % 2 == 0 && (2 * q) / 2 == q);
    assert((2 * q + 1) % 2 == 1 && (2 * q + 1) / 2 == q);
    assert(bit_reverse(2 * q, kk) == off);
    assert(bit_reverse(2 * q + 1, kk) == h + off);
}

/// Merging two adjacent blocks, odd row: row `g + r` of the doubled DFT
/// is the upper butterfly output of row `r` of the two halves. The
/// exponents fold back by `g` because the old ratio has order `g`, and
/// the odd half flips sign because `w2^g` is minus one.
proof fn lemma_rn_butterfly_odd(v: Seq<Fp>, w: Fp, g: nat, h: nat, kk: nat, q: nat, r: nat)
    requires
        g >= 1,
        h >= 1,
        kk >= 1,
        pow2(kk) == 2 * h,
        w.value < MODULUS,
        r < g,
        fp_pow(w, g * (2 * h)) == (Fp { value: 1 }),
        fp_pow(w, g * h) == (Fp { value: (MODULUS - 1) as u64 }),
    ensures
        geo_sum(v, h, bit_reverse(q, (kk - 1) as nat), fp_pow(w, h), g + r, 0, 2 * g)
            == butterfly_hi(
            geo_sum(v, 2 * h, bit_reverse(2 * q, kk), fp_pow(w, 2 * h), r, 0, g),
            geo_sum(v, 2 * h, bit_reverse(2 * q + 1, kk), fp_pow(w, 2 * h), r, 0, g),
            fp_pow(fp_pow(w, h), r),
        ),
{
    let w2 = fp_pow(w, h);
    let wg = fp_pow(w, 2 * h);
    let off = bit_reverse(q, (kk - 1) as nat);
    lemma_fp_pow_valid(w, h);
    lemma_geo_sum_split(v, h, off, w2, g + r, 0, g);
    lemma_fp_pow_adds(w, h, h);
    assert(w2.spec_mul(w2) == wg);
    lemma_pow2_unfold(kk);
    assert(pow2((kk - 1) as nat) == h);
    assert((2 * q) % 2 == 0 && (2 * q) / 2 == q);
    assert((2 * q + 1) % 2 == 1 && (2 * q + 1) / 2 == q);
    assert(bit_reverse(2 * q, kk) == off);
    assert(bit_reverse(2 * q + 1, kk) == h + off);

    // The old ratio has order dividing `g`, so rows fold back by `g`.
    lemma_fp_pow_mul(w, 2 * h, g);
    assert((2 * h) * g == g * (2 * h)) by (nonlinear_arith);
    assert(fp_pow(wg, g) == (Fp { value: 1 }));
    lemma_geo_sum_reduce_row(v, 2 * h, off, wg, r, g, 0, g);
    lemma_geo_sum_reduce_row(v, 2 * h, (off + h) as nat, wg, r, g, 0, g);

    // The odd half's scalar `w2^(g + r)` is minus `w2^r`.
    let wr = fp_pow(w2, r);
    lemma_fp_pow_adds(w2, g, r);
    lemma_fp_pow_mul(w, h, g);
    assert(h * g == g * h) by (nonlinear_arith);
    assert(fp_pow(w2, g) == (Fp { value: (MODULUS - 1) as u64 }));
    lemma_fp_minus_one_mul(wr);
    let odd = geo_sum(v, 2 * h, (off + h) as nat, wg, r, 0, g);
    lemma_fp_mul_neg_left(wr, odd);
    lemma_fp_sub_is_add_neg(geo_sum(v, 2 * h, off, wg, r, 0, g), wr.spec_mul(odd));
}

/// One stage of the RN transform merges every pair of adjacent blocks:
/// it turns the mid-state of `2 * h` blocks of `g` elements into the
/// mid-state of `h` blocks of `2 * g` elements.
#[verifier::rlimit(90)]
proof fn lemma_rn_stage_advances(v: Seq<Fp>, w: Fp, tws: Seq<Fp>, g: nat, h: nat, kk: nat)
    requires
        g >= 1,
        h >= 1,
        kk >= 1,
        g * (2 * h) == v.len(),
        pow2(kk) == 2 * h,
        w.value < MODULUS,
        fp_pow(w, v.len()) == (Fp { value: 1 }),
        fp_pow(w, (v.len() / 2) as nat) == (Fp { value: (MODULUS - 1) as u64 }),
        tws.len() == v.len() / 2,
        forall|i: int| 0 <= i < tws.len() ==> tws[i] == fp_pow(w, i as nat),
    ensures
        rn_stage(rn_mid_state(v, w, g, 2 * h, kk), tws, g as int, h as int) == rn_mid_state(
            v,
            w,
            2 * g,
            h,
            (kk - 1) as nat,
        ),
{
    let n = v.len();
    let mid = rn_mid_state(v, w, g, 2 * h, kk);
    let next = rn_mid_state(v, w, 2 * g, h, (kk - 1) as nat);
    let stage = rn_stage(mid, tws, g as int, h as int);
    let w2 = fp_pow(w, h);
    let wg = fp_pow(w, 2 * h);

    assert(n == 2 * (g * h)) by (nonlinear_arith)
        requires
            g * (2 * h) == n,
    ;
    assert(n / 2 == g * h);

    assert forall|j: int| 0 <= j < n implies stage[j] == next[j] by {
        let gi = g as int;
        let hi = h as int;
        let q = j / (2 * gi);
        let r2 = j % (2 * gi);
        lemma_fundamental_div_mod(j, 2 * gi);
        lemma_mod_bound(j, 2 * gi);
        assert((2 * gi) * hi == n) by (nonlinear_arith)
            requires
                gi == g as int,
                hi == h as int,
                g * (2 * h) == n,
        ;
        lemma_multiply_divide_lt(j, 2 * gi, hi);
        if r2 < gi {
            assert(j == (2 * q) * gi + r2) by (nonlinear_arith)
                requires
                    j == (2 * gi) * q + r2,
            ;
            lemma_fundamental_div_mod_converse(j, gi, 2 * q, r2);
            assert((2 * q + 1) * gi == (2 * q) * gi + gi) by (nonlinear_arith);
            lemma_fundamental_div_mod_converse(j + gi, gi, 2 * q + 1, r2);
            assert(j + gi < n) by (nonlinear_arith)
                requires
                    j == (2 * gi) * q + r2,
                    q <= hi - 1,
                    r2 < gi,
                    (2 * gi) * hi == n,
                    gi >= 1,
            ;
            assert(0 <= r2 * hi < n / 2) by (nonlinear_arith)
                requires
                    0 <= r2 < gi,
                    hi >= 1,
                    gi * hi == n / 2,
            ;
            assert(tws[r2 * hi] == fp_pow(w, (r2 * hi) as nat));
            lemma_fp_pow_mul(w, h, r2 as nat);
            assert((h * (r2 as nat)) as int == r2 * hi) by (nonlinear_arith)
                requires
                    hi == h as int,
                    r2 >= 0,
            ;
            lemma_rn_butterfly_even(v, w, g, h, kk, q as nat, r2 as nat);
        } else {
            let r = r2 - gi;
            assert(j == (2 * q + 1) * gi + r) by (nonlinear_arith)
                requires
                    j == (2 * gi) * q + r2,
                    r2 == r + gi,
            ;
            assert((2 * q + 1) * gi == (2 * q) * gi + gi) by (nonlinear_arith);
            lemma_fundamental_div_mod_converse(j, gi, 2 * q + 1, r);
            lemma_fundamental_div_mod_converse(j - gi, gi, 2 * q, r);
            assert(0 <= r * hi < n / 2) by (nonlinear_arith)
                requires
                    0 <= r < gi,
                    hi >= 1,
                    gi * hi == n / 2,
            ;
            assert(tws[r * hi] == fp_pow(w, (r * hi) as nat));
            lemma_fp_pow_mul(w, h, r as nat);
            assert((h * (r as nat)) as int == r * hi) by (nonlinear_arith)
                requires
                    hi == h as int,
                    r >= 0,
            ;
            assert(g * (2 * h) == n);
            assert(g * h == (n / 2) as nat);
            lemma_rn_butterfly_odd(v, w, g, h, kk, q as nat, r as nat);
            assert((j - gi) % gi == r && (j - gi) / gi == 2 * q);
            assert(stage[j] == butterfly_hi(mid[j - gi], mid[j], tws[r * hi]));
        }
    }
    assert(stage =~= next);
}

/// Running the stages for group sizes `m` down to one on the mid-state
/// of `m` blocks of `g` elements reaches the final single-block state.
proof fn lemma_rn_stages_compute(v: Seq<Fp>, w: Fp, tws: Seq<Fp>, g: nat, m: nat, kk: nat)
    requires
        g >= 1,
        m >= 1,
        g * m == v.len(),
        pow2(kk) == m,
        v.len() >= 2,
        w.value < MODULUS,
        fp_pow(w, v.len()) == (Fp { value: 1 }),
        fp_pow(w, (v.len() / 2) as nat) == (Fp { value: (MODULUS - 1) as u64 }),
        tws.len() == v.len() / 2,
        forall|i: int| 0 <= i < tws.len() ==> tws[i] == fp_pow(w, i as nat),
    ensures
        rn_fft_rec(rn_mid_state(v, w, g, m, kk), tws, m) == rn_mid_state(v, w, v.len(), 1, 0),
    decreases m,
{
    let n = v.len();
    if m == 1 {
        assert(g * 1 == g) by (nonlinear_arith);
        if kk >= 1 {
            lemma_pow2_unfold(kk);
            lemma_pow2_pos((kk - 1) as nat);
            assert(false);
        }
    } else {
        if kk == 0 {
            lemma2_to64();
            assert(false);
        }
        lemma_pow2_unfold(kk);
        let h = m / 2;
        assert(pow2((kk - 1) as nat) == h);
        assert(m == 2 * h);
        lemma_fundamental_div_mod_converse(n as int, m as int, g as int, 0);
        lemma_rn_stage_advances(v, w, tws, g, h, kk);
        assert((2 * g) * h == n) by (nonlinear_arith)
            requires
                g * m == n,
                m == 2 * h,
        ;
        lemma_rn_stages_compute(v, w, tws, 2 * g, h, (kk - 1) as nat);
    }
}

/// Fed the bit-reversed coefficients and the natural twiddle factors —
/// the powers `w^0 .. w^(n/2 - 1)` of a primitive n-th root of unity `w`
/// — the RN transform computes exactly the direct discrete Fourier
/// transform of the natural-order coefficients: row `i` of the result is
/// the sum of `v[c] * w^((i * c) mod n)` over all columns, which by
/// [`lemma_dft_row_is_polynomial_evaluation`] is the coefficient
/// polynomial evaluated at `w^i`.
pub proof fn lemma_rn_fft_computes_dft(v: Seq<Fp>, w: Fp, tws: Seq<Fp>, k: nat)
    requires
        k >= 1,
        v.len() == pow2(k),
        all_valid(v),
        w.value < MODULUS,
        fp_pow(w, v.len()) == (Fp { value: 1 }),
        fp_pow(w, (v.len() / 2) as nat) == (Fp { value: (MODULUS - 1) as u64 }),
        tws.len() == v.len() / 2,
        forall|i: int| 0 <= i < tws.len() ==> tws[i] == fp_pow(w, i as nat),
    ensures
        rn_fft_spec(bit_reverse_seq(v, k), tws) == Seq::new(
            v.len(),
            |row: int| dft_row_sum(v, w, row as nat, 0),
        ),
{
    let n = v.len();
    lemma_pow2_unfold(k);
    lemma_pow2_pos((k - 1) as nat);
    lemma_rn_mid_state_initial(v, w, k);
    assert(1 * n == n) by (nonlinear_arith);
    lemma_rn_stages_compute(v, w, tws, 1, n, k);
    lemma_rn_mid_state_final(v, w);
}

/// The array between NR stages: `g` contiguous groups of `m` elements
/// (`g * m == v.len()`, `pow2(ss) == g`). Position `r` of group `q`
/// holds the sum of `v[t * m + r] * (w^m)^(bit_reverse(q, ss) * t)` over
/// `t < g` — row `bit_reverse(q, ss)` of the `g`-point DFT of the
/// arithmetic subsequence with stride `m` and offset `r`.
pub open spec fn nr_mid_state(v: Seq<Fp>, w: Fp, g: nat, m: nat, ss: nat) -> Seq<Fp> {
    Seq::new(
        v.len(),
        |j: int|
            geo_sum(
                v,
                m,
                (j % m as int) as nat,
                fp_pow(w, m),
                bit_reverse((j / m as int) as nat, ss),
                0,
                g,
            ),
    )
}

/// Before any stage runs, the one-group mid-state is the input itself.
proof fn lemma_nr_mid_state_initial(v: Seq<Fp>, w: Fp)
    requires
        v.len() >= 1,
        all_valid(v),
    ensures
        nr_mid_state(v, w, 1, v.len(), 0) == v,
{
    let n = v.len();
    let mid = nr_mid_state(v, w, 1, n, 0);
    assert forall|j: int| 0 <= j < n implies mid[j] == v[j] by {
        lemma_fundamental_div_mod_converse(j, n as int, 0, j);
        let x = fp_pow(w, n);
        assert(n * 0 == 0) by (nonlinear_arith);
        assert(bit_reverse(0, 0) == 0);
        assert(mid[j] == geo_sum(v, n, j as nat, x, 0, 0, 1));
        assert(geo_sum(v, n, j as nat, x, 0, 1, 1) == (Fp { value: 0 }));
        assert(fp_pow(x, 0) == (Fp { value: 1 }));
        assert(geo_sum(v, n, j as nat, x, 0, 0, 1) == (v[j].spec_mul(Fp { value: 1 })).spec_add(
            Fp { value: 0 },
        ));
        lemma_fp_mul_one_right(v[j]);
        lemma_fp_add_zero(v[j]);
    }
    assert(mid =~= v);
}

/// After the last stage, position `j` of the single-position-groups
/// mid-state is DFT row `bit_reverse(j, k)`: the result is the DFT read
/// through the bit-reversal permutation.
proof fn lemma_nr_mid_state_final(v: Seq<Fp>, w: Fp, k: nat)
    requires
        v.len() == pow2(k),
        v.len() >= 1,
        w.value < MODULUS,
        fp_pow(w, v.len()) == (Fp { value: 1 }),
    ensures
        nr_mid_state(v, w, v.len(), 1, k) == bit_reverse_seq(
            Seq::new(v.len(), |row: int| dft_row_sum(v, w, row as nat, 0)),
            k,
        ),
{
    let n = v.len();
    let mid = nr_mid_state(v, w, n, 1, k);
    let rows = Seq::new(n, |row: int| dft_row_sum(v, w, row as nat, 0));
    lemma_fp_mul_one_right(w);
    assert(fp_pow(w, 0) == (Fp { value: 1 }));
    assert(fp_pow(w, 1) == w.spec_mul(Fp { value: 1 }));
    assert forall|j: int| 0 <= j < n implies mid[j] == bit_reverse_seq(rows, k)[j] by {
        lemma_fundamental_div_mod_converse(j, 1, j, 0);
        lemma_bit_reverse_bound(j as nat, k);
        assert(mid[j] == geo_sum(v, 1, 0, w, bit_reverse(j as nat, k), 0, n));
        lemma_geo_sum_is_dft_tail(v, w, bit_reverse(j as nat, k), 0);
    }
    assert(mid =~= bit_reverse_seq(rows, k));
}

/// Splitting an NR group, lower half: the new group `2 * q` carries the
/// same bit-reversed row as the old group `q`.
proof fn lemma_nr_butterfly_lower(v: Seq<Fp>, w: Fp, g: nat, hh: nat, ss: nat, q: nat, off: nat)
    requires
        g >= 1,
        hh >= 1,
        pow2(ss) == g,
        w.value < MODULUS,
    ensures
        geo_sum(v, hh, off, fp_pow(w, hh), bit_reverse(2 * q, (ss + 1) as nat), 0, 2 * g)
            == butterfly_lo(
            geo_sum(v, 2 * hh, off, fp_pow(w, 2 * hh), bit_reverse(q, ss), 0, g),
            geo_sum(v, 2 * hh, (off + hh) as nat, fp_pow(w, 2 * hh), bit_reverse(q, ss), 0, g),
            fp_pow(fp_pow(w, hh), bit_reverse(q, ss)),
        ),
{
    let w2 = fp_pow(w, hh);
    let wg = fp_pow(w, 2 * hh);
    let row = bit_reverse(q, ss);
    lemma_fp_pow_valid(w, hh);
    assert((2 * q) % 2 == 0 && (2 * q) / 2 == q);
    assert(bit_reverse(2 * q, (ss + 1) as nat) == ((2 * q) % 2) * pow2(ss) + bit_reverse(q, ss));
    assert(0 * pow2(ss) == 0) by (nonlinear_arith);
    lemma_geo_sum_split(v, hh, off, w2, row, 0, g);
    lemma_fp_pow_adds(w, hh, hh);
    assert(w2.spec_mul(w2) == wg);
}

/// Splitting an NR group, upper half: the new group `2 * q + 1` carries
/// row `g + bit_reverse(q, ss)`; the offset folds away because the old
/// ratio has order `g`, and the sign flips because `(w^hh)^g` is minus
/// one.
proof fn lemma_nr_butterfly_upper(v: Seq<Fp>, w: Fp, g: nat, hh: nat, ss: nat, q: nat, off: nat)
    requires
        g >= 1,
        hh >= 1,
        pow2(ss) == g,
        w.value < MODULUS,
        fp_pow(w, (2 * hh) * g) == (Fp { value: 1 }),
        fp_pow(w, hh * g) == (Fp { value: (MODULUS - 1) as u64 }),
    ensures
        geo_sum(v, hh, off, fp_pow(w, hh), bit_reverse(2 * q + 1, (ss + 1) as nat), 0, 2 * g)
            == butterfly_hi(
            geo_sum(v, 2 * hh, off, fp_pow(w, 2 * hh), bit_reverse(q, ss), 0, g),
            geo_sum(v, 2 * hh, (off + hh) as nat, fp_pow(w, 2 * hh), bit_reverse(q, ss), 0, g),
            fp_pow(fp_pow(w, hh), bit_reverse(q, ss)),
        ),
{
    let w2 = fp_pow(w, hh);
    let wg = fp_pow(w, 2 * hh);
    let row = bit_reverse(q, ss);
    lemma_fp_pow_valid(w, hh);
    assert((2 * q + 1) % 2 == 1 && (2 * q + 1) / 2 == q);
    assert(bit_reverse(2 * q + 1, (ss + 1) as nat) == ((2 * q + 1) % 2) * pow2(ss) + bit_reverse(
        q,
        ss,
    ));
    assert(1 * pow2(ss) == pow2(ss)) by (nonlinear_arith);
    assert(bit_reverse(2 * q + 1, (ss + 1) as nat) == g + row);
    lemma_geo_sum_split(v, hh, off, w2, g + row, 0, g);
    lemma_fp_pow_adds(w, hh, hh);
    assert(w2.spec_mul(w2) == wg);

    lemma_fp_pow_mul(w, 2 * hh, g);
    assert(fp_pow(wg, g) == (Fp { value: 1 }));
    lemma_geo_sum_reduce_row(v, 2 * hh, off, wg, row, g, 0, g);
    lemma_geo_sum_reduce_row(v, 2 * hh, (off + hh) as nat, wg, row, g, 0, g);

    let wr = fp_pow(w2, row);
    lemma_fp_pow_adds(w2, g, row);
    lemma_fp_pow_mul(w, hh, g);
    assert(fp_pow(w2, g) == (Fp { value: (MODULUS - 1) as u64 }));
    lemma_fp_minus_one_mul(wr);
    let odd = geo_sum(v, 2 * hh, (off + hh) as nat, wg, row, 0, g);
    lemma_fp_mul_neg_left(wr, odd);
    lemma_fp_sub_is_add_neg(geo_sum(v, 2 * hh, off, wg, row, 0, g), wr.spec_mul(odd));
}

/// One stage of the NR transform splits every group in two: it turns
/// the mid-state of `g` groups of `2 * hh` elements into the mid-state
/// of `2 * g` groups of `hh` elements. The twiddle list is bit-reversed
/// with width `ss + ee`, so entry `q` is the root power
/// `(w^hh)^bit_reverse(q, ss)`.
#[verifier::rlimit(90)]
proof fn lemma_nr_stage_advances(
    v: Seq<Fp>,
    w: Fp,
    tws: Seq<Fp>,
    g: nat,
    hh: nat,
    ss: nat,
    ee: nat,
)
    requires
        g >= 1,
        hh >= 1,
        g * (2 * hh) == v.len(),
        pow2(ss) == g,
        pow2(ee) == hh,
        w.value < MODULUS,
        fp_pow(w, v.len()) == (Fp { value: 1 }),
        fp_pow(w, (v.len() / 2) as nat) == (Fp { value: (MODULUS - 1) as u64 }),
        tws.len() == v.len() / 2,
        forall|i: int|
            0 <= i < tws.len() ==> tws[i] == fp_pow(w, bit_reverse(i as nat, (ss + ee) as nat)),
    ensures
        nr_stage(nr_mid_state(v, w, g, 2 * hh, ss), tws, (2 * hh) as int) == nr_mid_state(
            v,
            w,
            2 * g,
            hh,
            (ss + 1) as nat,
        ),
{
    let n = v.len();
    let mid = nr_mid_state(v, w, g, 2 * hh, ss);
    let next = nr_mid_state(v, w, 2 * g, hh, (ss + 1) as nat);
    let stage = nr_stage(mid, tws, (2 * hh) as int);
    let w2 = fp_pow(w, hh);

    assert(n == 2 * (g * hh)) by (nonlinear_arith)
        requires
            g * (2 * hh) == n,
    ;
    assert(n / 2 == g * hh);

    assert forall|j: int| 0 <= j < n implies stage[j] == next[j] by {
        let gi = g as int;
        let hi = hh as int;
        let mi = 2 * hi;
        let q = j / mi;
        let pos = j % mi;
        lemma_fundamental_div_mod(j, mi);
        lemma_mod_bound(j, mi);
        assert(mi * gi == n) by (nonlinear_arith)
            requires
                gi == g as int,
                hi == hh as int,
                mi == 2 * hi,
                g * (2 * hh) == n,
        ;
        lemma_multiply_divide_lt(j, mi, gi);
        assert(2 * gi <= n) by (nonlinear_arith)
            requires
                mi * gi == n,
                mi >= 2,
                gi >= 1,
        ;
        assert(0 <= q < tws.len());
        assert(tws[q] == fp_pow(w, bit_reverse(q as nat, (ss + ee) as nat)));
        lemma_bit_reverse_pad(q as nat, ss, ee);
        lemma_fp_pow_mul(w, hh, bit_reverse(q as nat, ss));
        assert(hh * bit_reverse(q as nat, ss) == bit_reverse(q as nat, ss) * pow2(ee))
            by (nonlinear_arith)
            requires
                pow2(ee) == hh,
        ;
        assert(tws[q] == fp_pow(w2, bit_reverse(q as nat, ss)));
        if pos < hi {
            assert(j == (2 * q) * hi + pos) by (nonlinear_arith)
                requires
                    j == mi * q + pos,
                    mi == 2 * hi,
            ;
            lemma_fundamental_div_mod_converse(j, hi, 2 * q, pos);
            assert(j + hi == q * mi + (pos + hi)) by (nonlinear_arith)
                requires
                    j == mi * q + pos,
            ;
            lemma_fundamental_div_mod_converse(j + hi, mi, q, pos + hi);
            assert(j + hi < n) by (nonlinear_arith)
                requires
                    j == mi * q + pos,
                    0 <= q <= gi - 1,
                    0 <= pos < hi,
                    hi >= 1,
                    mi == 2 * hi,
                    mi * gi == n,
            ;
            lemma_nr_butterfly_lower(v, w, g, hh, ss, q as nat, pos as nat);
        } else {
            let r = pos - hi;
            assert(j == (2 * q + 1) * hi + r) by (nonlinear_arith)
                requires
                    j == mi * q + pos,
                    mi == 2 * hi,
                    pos == r + hi,
            ;
            lemma_fundamental_div_mod_converse(j, hi, 2 * q + 1, r);
            assert(j - hi == q * mi + r) by (nonlinear_arith)
                requires
                    j == mi * q + pos,
                    pos == r + hi,
                    mi == 2 * hi,
            ;
            lemma_fundamental_div_mod_converse(j - hi, mi, q, r);
            assert((2 * hh) * g == n) by (nonlinear_arith)
                requires
                    g * (2 * hh) == n,
            ;
            assert(hh * g == (n / 2) as nat) by (nonlinear_arith)
                requires
                    g * hh == n / 2,
            ;
            lemma_nr_butterfly_upper(v, w, g, hh, ss, q as nat, r as nat);
            assert(stage[j] == butterfly_hi(mid[j - hi], mid[j], tws[q]));
        }
    }
    assert(stage =~= next);
}

/// Running the NR stages for group sizes `m` down to one on the
/// mid-state of `g` groups of `m` elements reaches the final state of
/// single-element groups.
proof fn lemma_nr_stages_compute(
    v: Seq<Fp>,
    w: Fp,
    tws: Seq<Fp>,
    g: nat,
    m: nat,
    ss: nat,
    mm: nat,
)
    requires
        g >= 1,
        m >= 1,
        g * m == v.len(),
        pow2(ss) == g,
        pow2(mm) == m,
        v.len() >= 2,
        w.value < MODULUS,
        fp_pow(w, v.len()) == (Fp { value: 1 }),
        fp_pow(w, (v.len() / 2) as nat) == (Fp { value: (MODULUS - 1) as u64 }),
        tws.len() == v.len() / 2,
        ss + mm >= 1,
        forall|i: int|
            0 <= i < tws.len() ==> tws[i] == fp_pow(
                w,
                bit_reverse(i as nat, (ss + mm - 1) as nat),
            ),
    ensures
        nr_fft_rec(nr_mid_state(v, w, g, m, ss), tws, m) == nr_mid_state(
            v,
            w,
            v.len(),
            1,
            (ss + mm) as nat,
        ),
    decreases m,
{
    let n = v.len();
    if m == 1 {
        assert(g * 1 == g) by (nonlinear_arith);
        if mm >= 1 {
            lemma_pow2_unfold(mm);
            lemma_pow2_pos((mm - 1) as nat);
            assert(false);
        }
    } else {
        if mm == 0 {
            lemma2_to64();
            assert(false);
        }
        lemma_pow2_unfold(mm);
        let hh = m / 2;
        assert(pow2((mm - 1) as nat) == hh);
        assert(m == 2 * hh);
        lemma_nr_stage_advances(v, w, tws, g, hh, ss, (mm - 1) as nat);
        assert((2 * g) * hh == n) by (nonlinear_arith)
            requires
                g * m == n,
                m == 2 * hh,
        ;
        lemma_pow2_unfold((ss + 1) as nat);
        lemma_nr_stages_compute(v, w, tws, 2 * g, hh, (ss + 1) as nat, (mm - 1) as nat);
    }
}

/// Fed natural-order coefficients and the bit-reversed twiddle factors —
/// entry `i` being `w` raised to the reversal of the digits of `i`
/// within width `k - 1` — the NR transform computes the direct discrete
/// Fourier transform with its rows in bit-reversed order: permuting the
/// output restores row `i` as the sum of `v[c] * w^((i * c) mod n)` over
/// all columns, which by [`lemma_dft_row_is_polynomial_evaluation`] is
/// the coefficient polynomial evaluated at `w^i`.
pub proof fn lemma_nr_fft_computes_dft(v: Seq<Fp>, w: Fp, tws: Seq<Fp>, k: nat)
    requires
        k >= 1,
        v.len() == pow2(k),
        all_valid(v),
        w.value < MODULUS,
        fp_pow(w, v.len()) == (Fp { value: 1 }),
        fp_pow(w, (v.len() / 2) as nat) == (Fp { value: (MODULUS - 1) as u64 }),
        tws.len() == v.len() / 2,
        forall|i: int|
            0 <= i < tws.len() ==> tws[i] == fp_pow(w, bit_reverse(i as nat, (k - 1) as nat)),
    ensures
        bit_reverse_seq(nr_fft_spec(v, tws), k) == Seq::new(
            v.len(),
            |row: int| dft_row_sum(v, w, row as nat, 0),
        ),
{
    let n = v.len();
    lemma_pow2_unfold(k);
    lemma_pow2_pos((k - 1) as nat);
    lemma2_to64();
    lemma_nr_mid_state_initial(v, w);
    assert(1 * n == n) by (nonlinear_arith);
    lemma_nr_stages_compute(v, w, tws, 1, n, 0, k);
    lemma_nr_mid_state_final(v, w, k);
    let rows = Seq::new(n, |row: int| dft_row_sum(v, w, row as nat, 0));
    assert(nr_fft_spec(v, tws) == bit_reverse_seq(rows, k));
    lemma_bit_reverse_seq_involution(rows, k);
}

} // verus!
