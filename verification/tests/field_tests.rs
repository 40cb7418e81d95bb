use radix2_fft::fft::{butterfly, is_power_of_two};
use radix2_fft::field::FieldOps;
use radix2_fft::goldilocks::{Fp, MODULUS};

#[test]
fn field_add_wraps_at_modulus() {
    let a = Fp { value: MODULUS - 1 };
    let b = Fp { value: 1 };
    assert_eq!(a.add(b).value, 0);
    assert_eq!(Fp { value: 5 }.add(Fp { value: 7 }).value, 12);
}

#[test]
fn field_sub_wraps_below_zero() {
    assert_eq!(Fp { value: 3 }.sub(Fp { value: 5 }).value, MODULUS - 2);
    assert_eq!(Fp { value: 5 }.sub(Fp { value: 3 }).value, 2);
}

#[test]
fn field_mul_reduces() {
    let minus_one = Fp { value: MODULUS - 1 };
    assert_eq!(minus_one.mul(minus_one).value, 1);
    assert_eq!(Fp { value: 6 }.mul(Fp { value: 7 }).value, 42);
}

#[test]
fn field_new_reduces_modulo() {
    assert_eq!(Fp::new(MODULUS).value, 0);
    assert_eq!(Fp::new(MODULUS - 1).value, MODULUS - 1);
    assert_eq!(Fp::new(5).value, 5);
}

#[test]
fn butterfly_combines_pair() {
    let a = Fp { value: 10 };
    let b = Fp { value: 3 };
    let w = Fp { value: 2 };
    let (lo, hi) = butterfly(a, b, w);
    assert_eq!(lo.value, 16);
    assert_eq!(hi.value, 4);
}

#[test]
fn power_of_two_check_accepts_exactly_the_powers() {
    assert!(is_power_of_two(1));
    assert!(is_power_of_two(2));
    assert!(is_power_of_two(256));
    assert!(!is_power_of_two(0));
    assert!(!is_power_of_two(3));
    assert!(!is_power_of_two(6));
    assert!(!is_power_of_two(usize::MAX));
}
