//! A concrete two-adic field: the prime field of order 2^64 - 2^32 + 1.

use vstd::prelude::*;
use crate::field::FieldOps;

verus! {

/// The two-adic prime 2^64 - 2^32 + 1. Its multiplicative group has order
/// 2^32 * (2^32 - 1), so the field holds primitive 2^k-th roots of unity
/// for every k up to 32 — enough for every power-of-two transform size
/// that fits in memory.
pub const MODULUS: u64 = 0xffff_ffff_0000_0001;

/// An element of the prime field of order [`MODULUS`], held as its
/// canonical representative, a machine word below the modulus.
#[derive(Clone, Copy, PartialEq, Eq, Structural, Debug)]
pub struct Fp {
    pub value: u64,
}

impl Fp {
    /// Reduce an arbitrary machine word into the field.
    pub fn new(value: u64) -> (r: Fp)
        ensures
            r.valid(),
            r.value == value as int % MODULUS as int,
    {
        Fp { value: value % MODULUS }
    }
}

impl FieldOps for Fp {
    open spec fn valid(self) -> bool {
        self.value < MODULUS
    }

    open spec fn spec_add(self, rhs: Self) -> Self {
        Fp { value: ((self.value + rhs.value) % (MODULUS as int)) as u64 }
    }

    open spec fn spec_sub(self, rhs: Self) -> Self {
        Fp { value: ((self.value + MODULUS - rhs.value) % (MODULUS as int)) as u64 }
    }

    open spec fn spec_mul(self, rhs: Self) -> Self {
        Fp { value: ((self.value * rhs.value) % (MODULUS as int)) as u64 }
    }

    fn add(self, rhs: Self) -> (r: Self) {
        let s: u128 = self.value as u128 + rhs.value as u128;
        let r: u64 = (s % (MODULUS as u128)) as u64;
        Fp { value: r }
    }

    fn sub(self, rhs: Self) -> (r: Self) {
        let s: u128 = self.value as u128 + (MODULUS - rhs.value) as u128;
        let r: u64 = (s % (MODULUS as u128)) as u64;
        Fp { value: r }
    }

    fn mul(self, rhs: Self) -> (r: Self) {
        proof {
            let a: int = self.value as int;
            let b: int = rhs.value as int;
            assert(a * b < 0x1_0000_0000_0000_0000_0000_0000_0000_0000) by (nonlinear_arith)
                requires
                    0 <= a < 0x1_0000_0000_0000_0000,
                    0 <= b < 0x1_0000_0000_0000_0000,
            ;
        }
        let p: u128 = self.value as u128 * rhs.value as u128;
        let r: u64 = (p % (MODULUS as u128)) as u64;
        Fp { value: r }
    }
}

} // verus!

