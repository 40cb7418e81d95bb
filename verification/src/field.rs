//! The arithmetic capability the transforms are generic over.

use vstd::prelude::*;

verus! {

/// Arithmetic on elements of a two-adic field: total `add`, `sub` and
/// `mul` over well-formed elements, each pinned to a spec-level function
/// so that callers can state exactly what a computation returns.
pub trait FieldOps: Sized + Copy {
    /// The element is a well-formed member of the field.
    spec fn valid(self) -> bool;

    /// The mathematical meaning of `add`.
    spec fn spec_add(self, rhs: Self) -> Self;

    /// The mathematical meaning of `sub`.
    spec fn spec_sub(self, rhs: Self) -> Self;

    /// The mathematical meaning of `mul`.
    spec fn spec_mul(self, rhs: Self) -> Self;

    fn add(self, rhs: Self) -> (r: Self)
        requires
            self.valid(),
            rhs.valid(),
        ensures
            r.valid(),
            r == self.spec_add(rhs),
    ;

    fn sub(self, rhs: Self) -> (r: Self)
        requires
            self.valid(),
            rhs.valid(),
        ensures
            r.valid(),
            r == self.spec_sub(rhs),
    ;

    fn mul(self, rhs: Self) -> (r: Self)
        requires
            self.valid(),
            rhs.valid(),
        ensures
            r.valid(),
            r == self.spec_mul(rhs),
    ;
}

/// Every element of the sequence is a well-formed field element.
pub open spec fn all_valid<E: FieldOps>(s: Seq<E>) -> bool {
    forall|i: int| 0 <= i < s.len() ==> (#[trigger] s[i]).valid()
}

} // verus!
