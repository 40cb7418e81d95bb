use radix2_fft::bitrev::{bit_reverse_index, in_place_bit_reverse_permute};
use radix2_fft::fft::{
    in_place_nr_2radix_fft, in_place_rn_2radix_fft, FftError, TwiddleOrdering, Twiddles,
};
use radix2_fft::goldilocks::{Fp, MODULUS};

fn modadd(a: u64, b: u64) -> u64 {
    ((a as u128 + b as u128) % MODULUS as u128) as u64
}

fn modsub(a: u64, b: u64) -> u64 {
    modadd(a, MODULUS - b)
}

fn modmul(a: u64, b: u64) -> u64 {
    ((a as u128 * b as u128) % MODULUS as u128) as u64
}

fn modpow(mut base: u64, mut exp: u64) -> u64 {
    let mut acc: u64 = 1;
    while exp > 0 {
        if exp & 1 == 1 {
            acc = modmul(acc, base);
        }
        base = modmul(base, base);
        exp >>= 1;
    }
    acc
}

/// A primitive n-th root of unity of the field, for power-of-two n.
fn primitive_root(n: u64) -> u64 {
    assert!(n.is_power_of_two());
    let root = modpow(7, (MODULUS - 1) / n);
    assert_eq!(modpow(root, n), 1);
    if n > 1 {
        assert_ne!(modpow(root, n / 2), 1);
    }
    root
}

fn reverse_bits(i: usize, k: u32) -> usize {
    let mut r = 0usize;
    let mut x = i;
    for _ in 0..k {
        r = (r << 1) | (x & 1);
        x >>= 1;
    }
    r
}

fn natural_twiddles(n: usize) -> Twiddles<Fp> {
    let w = primitive_root(n as u64);
    let mut factors = Vec::new();
    for i in 0..n / 2 {
        factors.push(Fp { value: modpow(w, i as u64) });
    }
    Twiddles { factors, ordering: TwiddleOrdering::Natural }
}

fn bit_reversed_twiddles(n: usize) -> Twiddles<Fp> {
    let w = primitive_root(n as u64);
    let half = n / 2;
    let k = half.trailing_zeros();
    let mut factors = Vec::new();
    for i in 0..half {
        factors.push(Fp { value: modpow(w, reverse_bits(i, k) as u64) });
    }
    Twiddles { factors, ordering: TwiddleOrdering::BitReversed }
}

/// The O(n^2) reference: direct evaluation through the DFT matrix.
fn naive_dft(input: &[Fp]) -> Vec<Fp> {
    let n = input.len();
    let w = primitive_root(n as u64);
    let mut out = Vec::new();
    for row in 0..n {
        let mut sum: u64 = 0;
        for col in 0..n {
            let e = ((row * col) % n) as u64;
            sum = modadd(sum, modmul(input[col].value, modpow(w, e)));
        }
        out.push(Fp { value: sum });
    }
    out
}

fn horner_eval(coeffs: &[Fp], x: u64) -> Fp {
    let mut acc: u64 = 0;
    for c in coeffs.iter().rev() {
        acc = modadd(modmul(acc, x), c.value);
    }
    Fp { value: acc }
}

/// Deterministic nonzero elements.
fn pseudo_random_elements(n: usize, seed: u64) -> Vec<Fp> {
    let mut state = seed;
    let mut v = Vec::new();
    for _ in 0..n {
        state = state
            .wrapping_mul(6364136223846793005)
            .wrapping_add(1442695040888963407);
        let mut x = state % MODULUS;
        if x == 0 {
            x = 1;
        }
        v.push(Fp { value: x });
    }
    v
}

#[test]
fn nr_fft_matches_naive_dft() {
    for k in 1..=8u32 {
        let n = 1usize << k;
        let coeffs = pseudo_random_elements(n, 11 + k as u64);
        let expected = naive_dft(&coeffs);
        let mut result = coeffs.clone();
        let tw = bit_reversed_twiddles(n);
        assert_eq!(in_place_nr_2radix_fft(&mut result, &tw), Ok(()));
        in_place_bit_reverse_permute(&mut result);
        assert_eq!(result, expected);
    }
}

#[test]
fn rn_fft_matches_naive_dft() {
    for k in 1..=8u32 {
        let n = 1usize << k;
        let coeffs = pseudo_random_elements(n, 77 + k as u64);
        let expected = naive_dft(&coeffs);
        let mut result = coeffs.clone();
        in_place_bit_reverse_permute(&mut result);
        let tw = natural_twiddles(n);
        assert_eq!(in_place_rn_2radix_fft(&mut result, &tw), Ok(()));
        assert_eq!(result, expected);
    }
}

#[test]
fn naive_dft_matches_polynomial_evaluation() {
    for k in [1u32, 2, 3, 5] {
        let n = 1usize << k;
        let coeffs = pseudo_random_elements(n, 1000 + k as u64);
        let spectrum = naive_dft(&coeffs);
        let w = primitive_root(n as u64);
        for i in 0..n {
            assert_eq!(spectrum[i], horner_eval(&coeffs, modpow(w, i as u64)));
        }
    }
}

#[test]
fn bit_reverse_permute_is_involution() {
    for k in 0..=6u32 {
        let n = 1usize << k;
        let original = pseudo_random_elements(n, 5 + k as u64);
        let mut v = original.clone();
        in_place_bit_reverse_permute(&mut v);
        in_place_bit_reverse_permute(&mut v);
        assert_eq!(v, original);
    }
}

#[test]
fn bit_reverse_index_reverses_digits() {
    assert_eq!(bit_reverse_index(0, 3), 0);
    assert_eq!(bit_reverse_index(1, 3), 4);
    assert_eq!(bit_reverse_index(2, 3), 2);
    assert_eq!(bit_reverse_index(3, 3), 6);
    assert_eq!(bit_reverse_index(4, 3), 1);
    assert_eq!(bit_reverse_index(6, 3), 3);
    assert_eq!(bit_reverse_index(5, 4), 10);
}

#[test]
fn single_element_input_is_unchanged() {
    let mut v = vec![Fp { value: 123 }];
    let tw = bit_reversed_twiddles(1);
    assert!(tw.factors.is_empty());
    assert_eq!(in_place_nr_2radix_fft(&mut v, &tw), Ok(()));
    assert_eq!(v[0].value, 123);

    let tw = natural_twiddles(1);
    assert!(tw.factors.is_empty());
    assert_eq!(in_place_rn_2radix_fft(&mut v, &tw), Ok(()));
    assert_eq!(v[0].value, 123);
}

#[test]
fn four_point_transform_formula() {
    let w = primitive_root(4);
    assert_eq!(modmul(w, w), MODULUS - 1);
    let v = [3u64, 14, 15, 926];
    let mut input: Vec<Fp> = v.iter().map(|x| Fp { value: *x }).collect();
    let tw = bit_reversed_twiddles(4);
    assert_eq!(in_place_nr_2radix_fft(&mut input, &tw), Ok(()));
    in_place_bit_reverse_permute(&mut input);
    let wv1 = modmul(w, v[1]);
    let wv3 = modmul(w, v[3]);
    let expected = [
        modadd(modadd(v[0], v[1]), modadd(v[2], v[3])),
        modsub(modadd(v[0], wv1), modadd(v[2], wv3)),
        modsub(modadd(v[0], v[2]), modadd(v[1], v[3])),
        modsub(modadd(v[0], wv3), modadd(wv1, v[2])),
    ];
    for i in 0..4 {
        assert_eq!(input[i].value, expected[i]);
    }
}

#[test]
fn mismatched_ordering_is_rejected() {
    let mut v = pseudo_random_elements(8, 3);
    let before = v.clone();
    let tw = natural_twiddles(8);
    assert_eq!(
        in_place_nr_2radix_fft(&mut v, &tw),
        Err(FftError::OrderingMismatch)
    );
    assert_eq!(v, before);
    let tw = bit_reversed_twiddles(8);
    assert_eq!(
        in_place_rn_2radix_fft(&mut v, &tw),
        Err(FftError::OrderingMismatch)
    );
    assert_eq!(v, before);
}

#[test]
fn forged_ordering_tag_gives_wrong_values() {
    // Natural-order factors smuggled behind a bit-reversed tag pass the
    // structural checks; the output must not be mistaken for the
    // transform.
    let coeffs = pseudo_random_elements(8, 21);
    let expected = naive_dft(&coeffs);
    let mut result = coeffs.clone();
    let forged = Twiddles {
        factors: natural_twiddles(8).factors,
        ordering: TwiddleOrdering::BitReversed,
    };
    assert_eq!(in_place_nr_2radix_fft(&mut result, &forged), Ok(()));
    in_place_bit_reverse_permute(&mut result);
    assert_ne!(result, expected);
}

#[test]
fn invalid_length_is_rejected() {
    let tw = bit_reversed_twiddles(1);
    let mut empty: Vec<Fp> = Vec::new();
    assert_eq!(
        in_place_nr_2radix_fft(&mut empty, &tw),
        Err(FftError::InvalidLength)
    );

    let mut three = pseudo_random_elements(3, 9);
    let before = three.clone();
    assert_eq!(
        in_place_nr_2radix_fft(&mut three, &tw),
        Err(FftError::InvalidLength)
    );
    assert_eq!(three, before);
    assert_eq!(
        in_place_rn_2radix_fft(&mut three, &natural_twiddles(1)),
        Err(FftError::InvalidLength)
    );
}

#[test]
fn twiddle_length_mismatch_is_rejected() {
    let mut v = pseudo_random_elements(8, 13);
    let tw = bit_reversed_twiddles(16);
    assert_eq!(
        in_place_nr_2radix_fft(&mut v, &tw),
        Err(FftError::TwiddleLengthMismatch)
    );
    // The length check comes before the ordering check.
    let tw = natural_twiddles(16);
    assert_eq!(
        in_place_nr_2radix_fft(&mut v, &tw),
        Err(FftError::TwiddleLengthMismatch)
    );
}
