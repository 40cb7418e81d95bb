//! The bit-reversal permutation: reorder a power-of-two-length sequence
//! so that position `i` holds the element whose index is the reversal of
//! the binary digits of `i`.

use vstd::prelude::*;
use vstd::arithmetic::div_mod::lemma_fundamental_div_mod_converse;
use vstd::arithmetic::power2::{
    lemma2_to64, lemma2_to64_rest, lemma_pow2_strictly_increases, lemma_pow2_unfold, pow2,
};

verus! {

/// The number written with the low `k` binary digits of `i` in reverse
/// order: digits are peeled off the bottom of `i` and appended below the
/// previously collected ones.
pub open spec fn bit_reverse(i: nat, k: nat) -> nat
    decreases k,
{
    if k == 0 {
        0
    } else {
        (i % 2) * pow2((k - 1) as nat) + bit_reverse(i / 2, (k - 1) as nat)
    }
}

/// The base-two logarithm of a power of two (the number of halvings that
/// reach one).
pub open spec fn log2(n: nat) -> nat
    decreases n,
{
    if n <= 1 {
        0
    } else {
        1 + log2(n / 2)
    }
}

/// `n` is a power of two.
pub open spec fn is_pow2(n: nat) -> bool
    decreases n,
{
    if n == 0 {
        false
    } else if n == 1 {
        true
    } else {
        n % 2 == 0 && is_pow2(n / 2)
    }
}

/// The sequence read through the bit-reversal permutation of its indices:
/// position `j` holds `v[bit_reverse(j, k)]`.
pub open spec fn bit_reverse_seq<E>(v: Seq<E>, k: nat) -> Seq<E> {
    Seq::new(v.len(), |j: int| v[bit_reverse(j as nat, k) as int])
}

/// A reversed index stays below `pow2(k)`: only the low `k` digits of
/// `i` contribute to it.
pub proof fn lemma_bit_reverse_bound(i: nat, k: nat)
    ensures
        bit_reverse(i, k) < pow2(k),
    decreases k,
{
    if k == 0 {
        lemma2_to64();
    } else {
        lemma_bit_reverse_bound(i / 2, (k - 1) as nat);
        lemma_pow2_unfold(k);
        assert((i % 2) * pow2((k - 1) as nat) <= 1 * pow2((k - 1) as nat)) by (nonlinear_arith)
            requires
                i % 2 <= 1,
                pow2((k - 1) as nat) >= 0,
        ;
    }
}

/// Reversing `k` digits of a number whose top digit (of those `k`) is
/// `b` gives the reversal of the remaining digits with `b` appended at
/// the bottom.
proof fn lemma_bit_reverse_top_digit(b: nat, j: nat, k: nat)
    requires
        1 <= k,
        b < 2,
        j < pow2((k - 1) as nat),
    ensures
        bit_reverse(b * pow2((k - 1) as nat) + j, k) == 2 * bit_reverse(j, (k - 1) as nat) + b,
    decreases k,
{
    let x = b * pow2((k - 1) as nat) + j;
    if k == 1 {
        lemma2_to64();
        assert(j == 0);
        assert(x == b);
        assert(bit_reverse(b, 1) == (b % 2) * pow2(0) + bit_reverse(b / 2, 0));
    } else {
        lemma_pow2_unfold((k - 1) as nat);
        let p_small = pow2((k - 2) as nat);
        assert(b * (2 * p_small) == 2 * (b * p_small)) by (nonlinear_arith);
        assert(x == 2 * (b * p_small + j / 2) + j % 2);
        lemma_fundamental_div_mod_converse(
            x as int,
            2,
            (b * p_small + j / 2) as int,
            (j % 2) as int,
        );
        assert(x % 2 == j % 2);
        assert(x / 2 == b * p_small + j / 2);
        assert(j / 2 < p_small);
        lemma_bit_reverse_top_digit(b, j / 2, (k - 1) as nat);
        assert(bit_reverse(x, k) == (j % 2) * pow2((k - 1) as nat) + 2 * bit_reverse(
            j / 2,
            (k - 2) as nat,
        ) + b);
        assert(bit_reverse(j, (k - 1) as nat) == (j % 2) * p_small + bit_reverse(
            j / 2,
            (k - 2) as nat,
        ));
        assert((j % 2) * (2 * p_small) == 2 * ((j % 2) * p_small)) by (nonlinear_arith);
    }
}

/// Zero reads as zero under any width.
pub proof fn lemma_bit_reverse_zero(k: nat)
    ensures
        bit_reverse(0, k) == 0,
    decreases k,
{
    if k > 0 {
        lemma_bit_reverse_zero((k - 1) as nat);
        assert(bit_reverse(0, k) == (0nat % 2) * pow2((k - 1) as nat) + bit_reverse(
            0,
            (k - 1) as nat,
        ));
    }
}

/// Widening the field by `e` leading zero digits scales the reversal by
/// `pow2(e)`: the extra zeros land at the bottom of the result.
pub proof fn lemma_bit_reverse_pad(q: nat, s: nat, e: nat)
    requires
        q < pow2(s),
    ensures
        bit_reverse(q, s + e) == bit_reverse(q, s) * pow2(e),
    decreases s,
{
    if s == 0 {
        lemma2_to64();
        assert(q == 0);
        lemma_bit_reverse_zero(e);
        assert(bit_reverse(q, s + e) == bit_reverse(0, e));
        assert(bit_reverse(q, s) == 0);
        assert(0 * pow2(e) == 0) by (nonlinear_arith);
        assert(bit_reverse(q, s + e) == bit_reverse(q, s) * pow2(e));
    } else {
        lemma_pow2_unfold(s);
        assert(q / 2 < pow2((s - 1) as nat));
        lemma_bit_reverse_pad(q / 2, (s - 1) as nat, e);
        vstd::arithmetic::power2::lemma_pow2_adds((s - 1) as nat, e);
        assert(bit_reverse(q, s) == (q % 2) * pow2((s - 1) as nat) + bit_reverse(
            q / 2,
            (s - 1) as nat,
        ));
        assert(bit_reverse(q, s + e) == (q % 2) * pow2((s + e - 1) as nat) + bit_reverse(
            q / 2,
            (s - 1 + e) as nat,
        ));
        assert((q % 2) * (pow2((s - 1) as nat) * pow2(e)) == ((q % 2) * pow2((s - 1) as nat))
            * pow2(e)) by (nonlinear_arith);
        assert(((q % 2) * pow2((s - 1) as nat)) * pow2(e) + bit_reverse(q / 2, (s - 1) as nat)
            * pow2(e) == ((q % 2) * pow2((s - 1) as nat) + bit_reverse(q / 2, (s - 1) as nat))
            * pow2(e)) by (nonlinear_arith);
    }
}

/// Reversing the low `k` digits twice restores the original index.
pub proof fn lemma_bit_reverse_involution(i: nat, k: nat)
    requires
        i < pow2(k),
    ensures
        bit_reverse(bit_reverse(i, k), k) == i,
    decreases k,
{
    if k == 0 {
        lemma2_to64();
        assert(i == 0);
    } else {
        lemma_pow2_unfold(k);
        let b = i % 2;
        let rest = bit_reverse(i / 2, (k - 1) as nat);
        lemma_bit_reverse_bound(i / 2, (k - 1) as nat);
        assert(bit_reverse(i, k) == b * pow2((k - 1) as nat) + rest);
        lemma_bit_reverse_top_digit(b, rest, k);
        lemma_bit_reverse_involution(i / 2, (k - 1) as nat);
    }
}

/// Applying the bit-reversal permutation twice to a sequence of length
/// `pow2(k)` restores the original order: the permutation is an
/// involution.
pub proof fn lemma_bit_reverse_seq_involution<E>(v: Seq<E>, k: nat)
    requires
        v.len() == pow2(k),
    ensures
        bit_reverse_seq(bit_reverse_seq(v, k), k) == v,
{
    let twice = bit_reverse_seq(bit_reverse_seq(v, k), k);
    assert forall|j: int| 0 <= j < v.len() implies twice[j] == v[j] by {
        lemma_bit_reverse_bound(j as nat, k);
        lemma_bit_reverse_involution(j as nat, k);
    }
    assert(twice =~= v);
}

/// A power of two is rebuilt from its logarithm: `pow2(log2(n)) == n`.
/// Together with [`lemma_bit_reverse_seq_involution`] this shows that
/// running [`in_place_bit_reverse_permute`] twice restores any
/// power-of-two-length sequence.
pub proof fn lemma_pow2_log2(n: nat)
    requires
        is_pow2(n),
    ensures
        pow2(log2(n)) == n,
    decreases n,
{
    if n == 1 {
        lemma2_to64();
    } else {
        lemma_pow2_log2(n / 2);
        lemma_pow2_unfold((1 + log2(n / 2)) as nat);
    }
}

/// The logarithm is the inverse of the power: `log2(pow2(k)) == k`.
pub proof fn lemma_log2_pow2(k: nat)
    ensures
        log2(pow2(k)) == k,
    decreases k,
{
    if k == 0 {
        lemma2_to64();
    } else {
        lemma_pow2_unfold(k);
        vstd::arithmetic::power2::lemma_pow2_pos((k - 1) as nat);
        lemma_log2_pow2((k - 1) as nat);
    }
}

/// The low `k` binary digits of `value`, reversed.
#[verifier::loop_isolation(false)]
pub fn bit_reverse_index(value: usize, k: usize) -> (r: usize)
    requires
        value < pow2(k as nat),
        pow2(k as nat) <= usize::MAX as nat,
    ensures
        r == bit_reverse(value as nat, k as nat),
        r < pow2(k as nat),
{
    let mut x = value;
    let mut r: usize = 0;
    let mut m: usize = 0;
    proof {
        lemma2_to64();
    }
    while m < k
        invariant
            0 <= m <= k,
            r < pow2(m as nat),
            x < pow2((k - m) as nat),
            bit_reverse(value as nat, k as nat) == r * pow2((k - m) as nat) + bit_reverse(
                x as nat,
                (k - m) as nat,
            ),
        decreases k - m,
    {
        proof {
            lemma_pow2_unfold((k - m) as nat);
            if m + 1 < k {
                lemma_pow2_strictly_increases((m + 1) as nat, k as nat);
            }
            lemma_pow2_unfold((m + 1) as nat);
            assert((2 * r + x % 2) * pow2((k - m - 1) as nat) == r * (2 * pow2(
                (k - m - 1) as nat,
            )) + (x % 2) * pow2((k - m - 1) as nat)) by (nonlinear_arith);
        }
        r = 2 * r + x % 2;
        x = x / 2;
        m = m + 1;
    }
    proof {
        assert(m == k);
        assert(pow2(0) == 1);
        assert(bit_reverse(x as nat, 0) == 0);
        assert(bit_reverse(value as nat, k as nat) == r * 1 + 0);
    }
    r
}

/// Reorder the sequence in place so that position `i` ends up holding
/// the element whose index reads `i` backwards in binary (within
/// `log2(n)` digits). The permutation is its own inverse.
#[verifier::loop_isolation(false)]
pub fn in_place_bit_reverse_permute<E: Copy>(input: &mut Vec<E>)
    requires
        is_pow2(old(input)@.len()),
    ensures
        final(input)@.len() == old(input)@.len(),
        final(input)@ == bit_reverse_seq(old(input)@, log2(old(input)@.len())),
{
    let n = input.len();
    let ghost orig = input@;

    let mut k: usize = 0;
    let mut m: usize = n;
    proof {
        lemma2_to64();
    }
    while m > 1
        invariant
            1 <= m <= n,
            is_pow2(m as nat),
            m as nat * pow2(k as nat) == n as nat,
        decreases m,
    {
        proof {
            if k >= 64 {
                lemma2_to64_rest();
                if k > 64 {
                    lemma_pow2_strictly_increases(64, k as nat);
                }
                assert(m as nat * pow2(k as nat) >= pow2(k as nat)) by (nonlinear_arith)
                    requires
                        m as nat >= 1,
                        pow2(k as nat) >= 0,
                ;
                assert(false);
            }
            lemma_pow2_unfold((k + 1) as nat);
            assert((m as nat / 2) * (2 * pow2(k as nat)) == m as nat * pow2(k as nat))
                by (nonlinear_arith)
                requires
                    m as nat == 2 * (m as nat / 2),
            ;
        }
        m = m / 2;
        k = k + 1;
    }
    proof {
        assert(n as nat == pow2(k as nat));
        lemma_log2_pow2(k as nat);
    }

    let mut idx: usize = 0;
    while idx < n
        invariant
            input@.len() == n,
            0 <= idx <= n,
            forall|j: int|
                0 <= j < n && (j < idx || bit_reverse(j as nat, k as nat) < idx as nat)
                    ==> input@[j] == orig[bit_reverse(j as nat, k as nat) as int],
            forall|j: int|
                0 <= j < n && j >= idx && bit_reverse(j as nat, k as nat) >= idx as nat
                    ==> input@[j] == orig[j],
        decreases n - idx,
    {
        let r = bit_reverse_index(idx, k);
        proof {
            lemma_bit_reverse_involution(idx as nat, k as nat);
        }
        if idx < r {
            let a = input[idx];
            let b = input[r];
            input[idx] = b;
            input[r] = a;
        }
        proof {
            assert forall|j: int|
                0 <= j < n && (j < idx + 1 || bit_reverse(j as nat, k as nat) < idx as nat
                    + 1) implies input@[j] == orig[bit_reverse(j as nat, k as nat) as int] by {
                lemma_bit_reverse_bound(j as nat, k as nat);
                lemma_bit_reverse_involution(j as nat, k as nat);
            }
        }
        idx += 1;
    }
    proof {
        assert(input@ =~= bit_reverse_seq(orig, log2(n as nat)));
    }
}

} // verus!
