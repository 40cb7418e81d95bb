//! The two in-place radix-2 decimation-in-time transforms.

use vstd::prelude::*;
use vstd::arithmetic::div_mod::{
    lemma_fundamental_div_mod, lemma_fundamental_div_mod_converse, lemma_mod_bound,
    lemma_multiply_divide_lt,
};
use crate::field::{FieldOps, all_valid};
use crate::bitrev::is_pow2;

verus! {

/// How a twiddle-factor sequence is ordered. Each transform variant needs
/// one specific ordering; using the other produces well-typed but
/// numerically wrong output, so the ordering travels with the factors and
/// is checked before any butterfly runs.
#[derive(Clone, Copy, PartialEq, Eq, Structural, Debug)]
pub enum TwiddleOrdering {
    /// `factors[i]` is the i-th power of the primitive root.
    Natural,
    /// `factors[group]` is the root power whose exponent is the
    /// bit-reversal of `group` within the current stage's bit width.
    BitReversed,
}

/// A twiddle-factor sequence together with the ordering it was generated
/// in.
pub struct Twiddles<E> {
    pub factors: Vec<E>,
    pub ordering: TwiddleOrdering,
}

/// Why a transform refused its arguments. Every error is detected before
/// the input is touched, so a failed call leaves the caller's data intact.
#[derive(Clone, Copy, PartialEq, Eq, Structural, Debug)]
pub enum FftError {
    /// The input length is zero or not a power of two.
    InvalidLength,
    /// The twiddle sequence does not hold exactly `input.len() / 2`
    /// factors.
    TwiddleLengthMismatch,
    /// The twiddle ordering tag is not the one this variant consumes.
    OrderingMismatch,
}

/// The first butterfly output, `a + w * b`.
pub open spec fn butterfly_lo<E: FieldOps>(a: E, b: E, w: E) -> E {
    a.spec_add(w.spec_mul(b))
}

/// The second butterfly output, `a - w * b`.
pub open spec fn butterfly_hi<E: FieldOps>(a: E, b: E, w: E) -> E {
    a.spec_sub(w.spec_mul(b))
}

/// The elementary two-point combine of the transform:
/// `(a, b)` becomes `(a + w * b, a - w * b)`.
pub fn butterfly<E: FieldOps>(a: E, b: E, w: E) -> (r: (E, E))
    requires
        a.valid(),
        b.valid(),
        w.valid(),
    ensures
        r.0 == butterfly_lo(a, b, w),
        r.1 == butterfly_hi(a, b, w),
        r.0.valid(),
        r.1.valid(),
{
    let t = w.mul(b);
    (a.add(t), a.sub(t))
}

/// Outcome of the argument checks shared by both variants: the input
/// length must be a nonzero power of two, the twiddle count must be half
/// of it, and the twiddle ordering tag must be the one the variant
/// consumes — in that order of precedence.
pub open spec fn fft_precheck(
    n: nat,
    twiddle_count: nat,
    ordering: TwiddleOrdering,
    expected: TwiddleOrdering,
) -> Result<(), FftError> {
    if !is_pow2(n) {
        Err(FftError::InvalidLength)
    } else if twiddle_count != n / 2 {
        Err(FftError::TwiddleLengthMismatch)
    } else if ordering != expected {
        Err(FftError::OrderingMismatch)
    } else {
        Ok(())
    }
}

/// Whether `n` is a power of two, decided by repeated halving.
pub fn is_power_of_two(n: usize) -> (r: bool)
    ensures
        r == is_pow2(n as nat),
    decreases n,
{
    if n == 0 {
        false
    } else if n == 1 {
        true
    } else if n % 2 == 1 {
        false
    } else {
        is_power_of_two(n / 2)
    }
}

/// One stage of the NR transform on groups of `group_size` elements: the
/// two halves of each group are combined pointwise by the butterfly, with
/// the single twiddle factor `tw[group]` shared by the whole group.
pub open spec fn nr_stage<E: FieldOps>(v: Seq<E>, tw: Seq<E>, group_size: int) -> Seq<E> {
    Seq::new(
        v.len(),
        |j: int|
            {
                let group = j / group_size;
                let half = group_size / 2;
                if j % group_size < half {
                    butterfly_lo(v[j], v[j + half], tw[group])
                } else {
                    butterfly_hi(v[j - half], v[j], tw[group])
                }
            },
    )
}

/// The NR stages from group size `group_size` down to groups of one
/// element, the group size halving at every step.
pub open spec fn nr_fft_rec<E: FieldOps>(v: Seq<E>, tw: Seq<E>, group_size: nat) -> Seq<E>
    decreases group_size,
{
    if group_size <= 1 {
        v
    } else {
        nr_fft_rec(nr_stage(v, tw, group_size as int), tw, group_size / 2)
    }
}

/// The complete natural-input, bit-reversed-output transform of `v` under
/// the twiddle factors `tw`: every stage applied, starting from one group
/// spanning the whole input.
pub open spec fn nr_fft_spec<E: FieldOps>(v: Seq<E>, tw: Seq<E>) -> Seq<E> {
    nr_fft_rec(v, tw, v.len())
}

/// A one-element sequence is its own NR transform: with groups of one
/// element there is no stage left to run.
pub proof fn lemma_nr_fft_singleton<E: FieldOps>(v: Seq<E>, tw: Seq<E>)
    requires
        v.len() == 1,
    ensures
        nr_fft_spec(v, tw) == v,
{
}

/// A one-element sequence is its own RN transform.
pub proof fn lemma_rn_fft_singleton<E: FieldOps>(v: Seq<E>, tw: Seq<E>)
    requires
        v.len() == 1,
    ensures
        rn_fft_spec(v, tw) == v,
{
}

/// In-place radix-2 decimation-in-time transform, natural-order input to
/// bit-reversed-order output.
///
/// The twiddle factors must be tagged [`TwiddleOrdering::BitReversed`]: a
/// naturally ordered sequence would type-check but yield numerically
/// wrong output, so the tag is checked and a mismatch rejected. All
/// precondition failures are reported before any element is written; a
/// call that returns an error leaves the input exactly as it was.
#[verifier::loop_isolation(false)]
pub fn in_place_nr_2radix_fft<E: FieldOps>(
    input: &mut Vec<E>,
    twiddles: &Twiddles<E>,
) -> (result: Result<(), FftError>)
    requires
        all_valid(old(input)@),
        all_valid(twiddles.factors@),
    ensures
        result == fft_precheck(
            old(input)@.len(),
            twiddles.factors@.len(),
            twiddles.ordering,
            TwiddleOrdering::BitReversed,
        ),
        result is Ok ==> final(input)@ == nr_fft_spec(old(input)@, twiddles.factors@),
        result is Err ==> final(input)@ == old(input)@,
        final(input)@.len() == old(input)@.len(),
        all_valid(final(input)@),
{
    let n = input.len();
    if !is_power_of_two(n) {
        return Err(FftError::InvalidLength);
    }
    if twiddles.factors.len() != n / 2 {
        return Err(FftError::TwiddleLengthMismatch);
    }
    if twiddles.ordering != TwiddleOrdering::BitReversed {
        return Err(FftError::OrderingMismatch);
    }

    let ghost tw = twiddles.factors@;
    let ghost v0 = input@;

    let mut group_count: usize = 1;
    let mut group_size: usize = n;

    while group_count < n
        invariant
            input@.len() == n,
            v0.len() == n,
            tw == twiddles.factors@,
            tw.len() == n / 2,
            all_valid(input@),
            all_valid(tw),
            1 <= group_count,
            1 <= group_size,
            group_count * group_size == n,
            is_pow2(group_size as nat),
            nr_fft_rec(input@, tw, group_size as nat) == nr_fft_rec(v0, tw, n as nat),
        decreases group_size,
    {
        proof {
            assert(group_size >= 2) by (nonlinear_arith)
                requires
                    group_count * group_size == n,
                    group_count < n,
                    group_size >= 1,
            ;
            assert(group_size % 2 == 0 && is_pow2(group_size as nat / 2));
            assert(2 * group_count <= n) by (nonlinear_arith)
                requires
                    group_count * group_size == n,
                    group_size >= 2,
                    group_count >= 1,
            ;
        }
        let ghost prev = input@;
        let ghost stage = nr_stage(prev, tw, group_size as int);
        let half = group_size / 2;
        let mut group: usize = 0;

        while group < group_count
            invariant
                input@.len() == n,
                0 <= group <= group_count,
                all_valid(input@),
                forall|j: int| 0 <= j < group * group_size ==> input@[j] == stage[j],
                forall|j: int| group * group_size <= j < n ==> input@[j] == prev[j],
            decreases group_count - group,
        {
            proof {
                assert((group + 1) * group_size == group * group_size + group_size)
                    by (nonlinear_arith);
                assert((group + 1) * group_size <= group_count * group_size) by (nonlinear_arith)
                    requires
                        group + 1 <= group_count,
                        group_size >= 0,
                ;
            }
            let first = group * group_size;
            let mid = first + half;
            let w = twiddles.factors[group];
            let mut i = first;

            while i < mid
                invariant
                    input@.len() == n,
                    first <= i <= mid,
                    all_valid(input@),
                    forall|j: int| 0 <= j < first ==> input@[j] == stage[j],
                    forall|j: int| first <= j < i ==> input@[j] == stage[j],
                    forall|j: int| first + half <= j < i + half ==> input@[j] == stage[j],
                    forall|j: int| i <= j < first + half ==> input@[j] == prev[j],
                    forall|j: int| i + half <= j < first + group_size ==> input@[j] == prev[j],
                    forall|j: int| first + group_size <= j < n ==> input@[j] == prev[j],
                decreases mid - i,
            {
                let a = input[i];
                let b = input[i + half];
                let (y0, y1) = butterfly(a, b, w);
                input[i] = y0;
                input[i + half] = y1;
                proof {
                    lemma_fundamental_div_mod_converse(
                        i as int,
                        group_size as int,
                        group as int,
                        i - first,
                    );
                    lemma_fundamental_div_mod_converse(
                        i + half,
                        group_size as int,
                        group as int,
                        i + half - first,
                    );
                    assert(input@[i as int] == stage[i as int]);
                    assert(input@[i + half] == stage[i + half]);
                }
                i += 1;
            }
            group += 1;
        }
        proof {
            assert(group * group_size == n);
            assert(input@ =~= stage);
            assert(nr_fft_rec(prev, tw, group_size as nat) == nr_fft_rec(
                stage,
                tw,
                group_size as nat / 2,
            ));
            assert(group_size == 2 * (group_size / 2));
            assert((2 * group_count) * (group_size / 2) == group_count * group_size)
                by (nonlinear_arith)
                requires
                    group_size == 2 * (group_size / 2),
            ;
        }
        group_count = group_count * 2;
        group_size = group_size / 2;
    }
    proof {
        assert(group_size == 1) by (nonlinear_arith)
            requires
                group_count * group_size == n,
                group_count >= n,
                n >= 1,
                group_size >= 1,
        ;
    }
    Ok(())
}

/// One stage of the RN transform with `group_count` interleaved groups:
/// element `j` belongs to group `j % group_count`, the two butterfly
/// operands sit `group_count` apart, and the whole group shares the
/// twiddle factor `tw[(j % group_count) * half]`, `half` being half the
/// current group size.
pub open spec fn rn_stage<E: FieldOps>(
    v: Seq<E>,
    tw: Seq<E>,
    group_count: int,
    half: int,
) -> Seq<E> {
    Seq::new(
        v.len(),
        |j: int|
            {
                let group = j % group_count;
                let w = tw[group * half];
                if (j / group_count) % 2 == 0 {
                    butterfly_lo(v[j], v[j + group_count], w)
                } else {
                    butterfly_hi(v[j - group_count], v[j], w)
                }
            },
    )
}

/// The RN stages from group size `group_size` down to groups of one
/// element; the group count at each step is the length divided by the
/// group size.
pub open spec fn rn_fft_rec<E: FieldOps>(v: Seq<E>, tw: Seq<E>, group_size: nat) -> Seq<E>
    decreases group_size,
{
    if group_size <= 1 {
        v
    } else {
        rn_fft_rec(
            rn_stage(v, tw, (v.len() / group_size) as int, (group_size / 2) as int),
            tw,
            group_size / 2,
        )
    }
}

/// The complete bit-reversed-input, natural-output transform of `v`
/// under the twiddle factors `tw`.
pub open spec fn rn_fft_spec<E: FieldOps>(v: Seq<E>, tw: Seq<E>) -> Seq<E> {
    rn_fft_rec(v, tw, v.len())
}

/// In-place radix-2 decimation-in-time transform, bit-reversed-order
/// input to natural-order output.
///
/// The twiddle factors must be tagged [`TwiddleOrdering::Natural`]
/// (`factors[i]` the i-th power of the primitive root): a bit-reversed
/// sequence would type-check but yield numerically wrong output, so the
/// tag is checked and a mismatch rejected. All precondition failures are
/// reported before any element is written; a call that returns an error
/// leaves the input exactly as it was.
#[verifier::loop_isolation(false)]
pub fn in_place_rn_2radix_fft<E: FieldOps>(
    input: &mut Vec<E>,
    twiddles: &Twiddles<E>,
) -> (result: Result<(), FftError>)
    requires
        all_valid(old(input)@),
        all_valid(twiddles.factors@),
    ensures
        result == fft_precheck(
            old(input)@.len(),
            twiddles.factors@.len(),
            twiddles.ordering,
            TwiddleOrdering::Natural,
        ),
        result is Ok ==> final(input)@ == rn_fft_spec(old(input)@, twiddles.factors@),
        result is Err ==> final(input)@ == old(input)@,
        final(input)@.len() == old(input)@.len(),
        all_valid(final(input)@),
{
    let n = input.len();
    if !is_power_of_two(n) {
        return Err(FftError::InvalidLength);
    }
    if twiddles.factors.len() != n / 2 {
        return Err(FftError::TwiddleLengthMismatch);
    }
    if twiddles.ordering != TwiddleOrdering::Natural {
        return Err(FftError::OrderingMismatch);
    }

    let ghost tw = twiddles.factors@;
    let ghost v0 = input@;

    let mut group_count: usize = 1;
    let mut group_size: usize = n;

    while group_count < n
        invariant
            input@.len() == n,
            v0.len() == n,
            tw == twiddles.factors@,
            tw.len() == n / 2,
            all_valid(input@),
            all_valid(tw),
            1 <= group_count,
            1 <= group_size,
            group_count * group_size == n,
            is_pow2(group_size as nat),
            rn_fft_rec(input@, tw, group_size as nat) == rn_fft_rec(v0, tw, n as nat),
        decreases group_size,
    {
        proof {
            assert(group_size >= 2) by (nonlinear_arith)
                requires
                    group_count * group_size == n,
                    group_count < n,
                    group_size >= 1,
            ;
            assert(group_size % 2 == 0 && is_pow2(group_size as nat / 2));
            assert(2 * group_count <= n) by (nonlinear_arith)
                requires
                    group_count * group_size == n,
                    group_size >= 2,
                    group_count >= 1,
            ;
        }
        let half = group_size / 2;
        let step = 2 * group_count;
        let ghost prev = input@;
        let ghost stage = rn_stage(prev, tw, group_count as int, half as int);
        proof {
            assert(half * step == n) by (nonlinear_arith)
                requires
                    step == 2 * group_count,
                    group_size == 2 * half,
                    group_count * group_size == n,
            ;
            assert(2 * (group_count * half) == n) by (nonlinear_arith)
                requires
                    group_size == 2 * half,
                    group_count * group_size == n,
            ;
        }
        let mut group: usize = 0;

        while group < group_count
            invariant
                input@.len() == n,
                0 <= group <= group_count,
                all_valid(input@),
                forall|j: int|
                    0 <= j < n && j % (group_count as int) < group ==> input@[j] == stage[j],
                forall|j: int|
                    0 <= j < n && j % (group_count as int) >= group ==> input@[j] == prev[j],
            decreases group_count - group,
        {
            proof {
                assert((group + 1) * half <= group_count * half) by (nonlinear_arith)
                    requires
                        group + 1 <= group_count,
                        half >= 0,
                ;
                assert((group + 1) * half == group * half + half) by (nonlinear_arith);
            }
            let w = twiddles.factors[group * half];
            let mut t: usize = 0;

            while t < half
                invariant
                    input@.len() == n,
                    0 <= t <= half,
                    all_valid(input@),
                    forall|j: int|
                        0 <= j < n && j % (group_count as int) < group ==> input@[j] == stage[j],
                    forall|j: int|
                        0 <= j < n && j % (group_count as int) == group && j / (
                        group_count as int) < 2 * t ==> input@[j] == stage[j],
                    forall|j: int|
                        0 <= j < n && j % (group_count as int) == group && j / (
                        group_count as int) >= 2 * t ==> input@[j] == prev[j],
                    forall|j: int|
                        0 <= j < n && j % (group_count as int) > group ==> input@[j] == prev[j],
                decreases half - t,
            {
                proof {
                    assert(t * step <= (half - 1) * step) by (nonlinear_arith)
                        requires
                            t <= half - 1,
                            step >= 0,
                    ;
                    assert((half - 1) * step + step == half * step) by (nonlinear_arith);
                    assert(t * step == (2 * t) * (group_count as int)) by (nonlinear_arith)
                        requires
                            step == 2 * group_count,
                    ;
                    assert((2 * t + 1) * (group_count as int) == (2 * t) * (group_count as int)
                        + group_count) by (nonlinear_arith);
                }
                let i = group + t * step;
                proof {
                    lemma_fundamental_div_mod_converse(
                        i as int,
                        group_count as int,
                        2 * t,
                        group as int,
                    );
                    lemma_fundamental_div_mod_converse(
                        i + group_count,
                        group_count as int,
                        2 * t + 1,
                        group as int,
                    );
                }
                let a = input[i];
                let b = input[i + group_count];
                let (y0, y1) = butterfly(a, b, w);
                input[i] = y0;
                input[i + group_count] = y1;
                proof {
                    assert(input@[i as int] == stage[i as int]);
                    assert(input@[i + group_count] == stage[i + group_count]);
                    assert forall|j: int|
                        0 <= j < n && j % (group_count as int) == group && j / (
                        group_count as int) < 2 * (t + 1) implies input@[j] == stage[j] by {
                        if j / (group_count as int) >= 2 * t {
                            lemma_fundamental_div_mod(j, group_count as int);
                            if j / (group_count as int) == 2 * t {
                                assert((group_count as int) * (2 * t) == t * step)
                                    by (nonlinear_arith)
                                    requires
                                        step == 2 * group_count,
                                ;
                                assert(j == i);
                            } else {
                                assert((group_count as int) * (2 * t + 1) == t * step
                                    + group_count) by (nonlinear_arith)
                                    requires
                                        step == 2 * group_count,
                                ;
                                assert(j == i + group_count);
                            }
                        }
                    }
                }
                t += 1;
            }
            proof {
                assert forall|j: int|
                    0 <= j < n && j % (group_count as int) == group implies input@[j]
                    == stage[j] by {
                    lemma_multiply_divide_lt(j, group_count as int, group_size as int);
                    assert((group_count as int) * (group_size as int) == n);
                }
            }
            group += 1;
        }
        proof {
            assert forall|j: int| 0 <= j < n implies input@[j] == stage[j] by {
                lemma_mod_bound(j, group_count as int);
            }
            assert(input@ =~= stage);
            lemma_fundamental_div_mod_converse(
                n as int,
                group_size as int,
                group_count as int,
                0,
            );
            assert(rn_fft_rec(prev, tw, group_size as nat) == rn_fft_rec(
                stage,
                tw,
                group_size as nat / 2,
            ));
            assert(group_size == 2 * (group_size / 2));
            assert((2 * group_count) * (group_size / 2) == group_count * group_size)
                by (nonlinear_arith)
                requires
                    group_size == 2 * (group_size / 2),
            ;
        }
        group_count = group_count * 2;
        group_size = group_size / 2;
    }
    proof {
        assert(group_size == 1) by (nonlinear_arith)
            requires
                group_count * group_size == n,
                group_count >= n,
                n >= 1,
                group_size >= 1,
        ;
    }
    Ok(())
}

} // verus!
