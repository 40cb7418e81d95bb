//! Specification of the direct discrete Fourier transform — the O(n^2)
//! oracle the transforms are validated against — and the law that each
//! of its rows is the evaluation of the coefficient polynomial at the
//! matching power of the primitive root.

use vstd::prelude::*;
use vstd::arithmetic::div_mod::{
    lemma_mod_bound, lemma_mod_sub_multiples_vanish, lemma_mul_mod_noop_left,
    lemma_mul_mod_noop_right, lemma_small_mod,
};
use vstd::arithmetic::mul::lemma_mul_is_associative;
use crate::field::FieldOps;
use crate::goldilocks::{Fp, MODULUS};

verus! {

/// `x` raised to the `e`-th power in the field.
pub open spec fn fp_pow(x: Fp, e: nat) -> Fp
    decreases e,
{
    if e == 0 {
        Fp { value: 1 }
    } else {
        x.spec_mul(fp_pow(x, (e - 1) as nat))
    }
}

/// The tail, from column `col` on, of one row of the DFT matrix applied
/// to `v`: the sum of `v[c] * w^((row * c) mod n)` over the remaining
/// columns, `w` being a primitive n-th root of unity.
pub open spec fn dft_row_sum(v: Seq<Fp>, w: Fp, row: nat, col: nat) -> Fp
    decreases v.len() - col,
{
    if col >= v.len() {
        Fp { value: 0 }
    } else {
        (v[col as int].spec_mul(fp_pow(w, ((row * col) % v.len()) as nat))).spec_add(
            dft_row_sum(v, w, row, col + 1),
        )
    }
}

/// The tail, from term `col` on, of the polynomial with coefficient
/// sequence `v` evaluated at `x`: the sum of `v[c] * x^c` over the
/// remaining terms.
pub open spec fn poly_eval_sum(v: Seq<Fp>, x: Fp, col: nat) -> Fp
    decreases v.len() - col,
{
    if col >= v.len() {
        Fp { value: 0 }
    } else {
        (v[col as int].spec_mul(fp_pow(x, col))).spec_add(poly_eval_sum(v, x, col + 1))
    }
}

/// A power of any element is a canonical representative.
pub proof fn lemma_fp_pow_valid(x: Fp, e: nat)
    ensures
        fp_pow(x, e).value < MODULUS,
    decreases e,
{
    if e == 0 {
    } else {
        lemma_fp_pow_valid(x, (e - 1) as nat);
        lemma_mod_bound(x.value * fp_pow(x, (e - 1) as nat).value, MODULUS as int);
    }
}

/// Field multiplication is associative.
pub proof fn lemma_fp_mul_assoc(a: Fp, b: Fp, c: Fp)
    ensures
        a.spec_mul(b).spec_mul(c) == a.spec_mul(b.spec_mul(c)),
{
    let m = MODULUS as int;
    let x = a.value as int;
    let y = b.value as int;
    let z = c.value as int;
    lemma_mod_bound(x * y, m);
    lemma_mod_bound(y * z, m);
    lemma_mul_mod_noop_left(x * y, z, m);
    lemma_mul_mod_noop_right(x, y * z, m);
    lemma_mul_is_associative(x, y, z);
}

/// Multiplying a canonical representative by one changes nothing.
pub proof fn lemma_fp_mul_one(y: Fp)
    requires
        y.value < MODULUS,
    ensures
        (Fp { value: 1 }).spec_mul(y) == y,
{
    lemma_small_mod(y.value as nat, MODULUS as nat);
}

/// Powers turn sums of exponents into products:
/// `x^(a + b) == x^a * x^b`.
pub proof fn lemma_fp_pow_adds(x: Fp, a: nat, b: nat)
    ensures
        fp_pow(x, a + b) == fp_pow(x, a).spec_mul(fp_pow(x, b)),
    decreases a,
{
    if a == 0 {
        lemma_fp_pow_valid(x, b);
        lemma_fp_mul_one(fp_pow(x, b));
    } else {
        lemma_fp_pow_adds(x, (a - 1) as nat, b);
        assert(fp_pow(x, a + b) == x.spec_mul(fp_pow(x, ((a - 1) + b) as nat)));
        lemma_fp_mul_assoc(x, fp_pow(x, (a - 1) as nat), fp_pow(x, b));
    }
}

/// Powers turn products of exponents into iterated powers:
/// `x^(a * b) == (x^a)^b`.
pub proof fn lemma_fp_pow_mul(x: Fp, a: nat, b: nat)
    ensures
        fp_pow(x, a * b) == fp_pow(fp_pow(x, a), b),
    decreases b,
{
    if b == 0 {
        assert(a * 0 == 0) by (nonlinear_arith);
    } else {
        assert(a * b == a + a * (b - 1)) by (nonlinear_arith)
            requires
                b >= 1,
        ;
        lemma_fp_pow_adds(x, a, (a * (b - 1)) as nat);
        lemma_fp_pow_mul(x, a, (b - 1) as nat);
    }
}

/// For an element of multiplicative order dividing `n`, exponents only
/// matter modulo `n`.
pub proof fn lemma_fp_pow_mod_cycle(x: Fp, e: nat, n: nat)
    requires
        n >= 1,
        fp_pow(x, n) == (Fp { value: 1 }),
    ensures
        fp_pow(x, e) == fp_pow(x, e % n),
    decreases e,
{
    if e < n {
        lemma_small_mod(e, n);
    } else {
        lemma_fp_pow_adds(x, n, (e - n) as nat);
        lemma_fp_pow_valid(x, (e - n) as nat);
        lemma_fp_mul_one(fp_pow(x, (e - n) as nat));
        lemma_mod_sub_multiples_vanish(e as int, n as int);
        lemma_fp_pow_mod_cycle(x, (e - n) as nat, n);
    }
}

/// The sums agree tail by tail: each DFT term `v[c] * w^((row*c) mod n)`
/// is the evaluation term `v[c] * (w^row)^c`.
proof fn lemma_dft_tail_is_eval_tail(v: Seq<Fp>, w: Fp, row: nat, col: nat)
    requires
        v.len() >= 1,
        fp_pow(w, v.len()) == (Fp { value: 1 }),
    ensures
        dft_row_sum(v, w, row, col) == poly_eval_sum(v, fp_pow(w, row), col),
    decreases v.len() - col,
{
    if col >= v.len() {
    } else {
        lemma_fp_pow_mod_cycle(w, row * col, v.len());
        lemma_fp_pow_mul(w, row, col);
        lemma_dft_tail_is_eval_tail(v, w, row, col + 1);
    }
}

/// Row `row` of the direct DFT of the coefficients `v` under a primitive
/// root `w` of order dividing `n == v.len()` equals the coefficient
/// polynomial evaluated at `w^row`.
pub proof fn lemma_dft_row_is_polynomial_evaluation(v: Seq<Fp>, w: Fp, row: nat)
    requires
        v.len() >= 1,
        fp_pow(w, v.len()) == (Fp { value: 1 }),
    ensures
        dft_row_sum(v, w, row, 0) == poly_eval_sum(v, fp_pow(w, row), 0),
{
    lemma_dft_tail_is_eval_tail(v, w, row, 0);
}

} // verus!
