//! The abstract scalar capability interface.
//!
//! The aggregate value of a metric is a floating-point number in the
//! embedding application, but the aggregation and codec logic here only needs
//! a small capability set from it: addition, subtraction, ordering, and a
//! lossless round trip through the canonical double-precision wire
//! representation (carried as its 64-bit pattern).  The application
//! implements this trait for its numeric representations; the contracts below
//! are the obligations such an implementation takes on.

use vstd::prelude::*;

verus! {

/// Capability set of the aggregate scalar.
///
/// `wire_spec` is the 64-bit pattern of the value's canonical
/// double-precision encoding; `unwire_spec` names the value a wire pattern
/// decodes to.  An implementation must decode every pattern it produces back
/// to the same value (`lemma_wire_roundtrip`), which is what makes the record
/// codec lossless.
pub trait Scalar: Sized + Copy {
    /// The 64-bit wire pattern of this value.
    spec fn wire_spec(self) -> u64;

    /// The value a 64-bit wire pattern decodes to.
    spec fn unwire_spec(b: u64) -> Self;

    /// The sum of two scalars.
    spec fn add_spec(self, other: Self) -> Self;

    /// The difference of two scalars.
    spec fn sub_spec(self, other: Self) -> Self;

    /// The strict order on scalars.
    spec fn gt_spec(self, other: Self) -> bool;

    /// Law: decoding the wire pattern of a value yields that value again.
    proof fn lemma_wire_roundtrip(x: Self)
        ensures
            Self::unwire_spec(x.wire_spec()) == x,
    ;

    /// Encode this value as its 64-bit wire pattern.
    fn to_wire(self) -> (r: u64)
        ensures
            r == self.wire_spec(),
    ;

    /// Decode a 64-bit wire pattern into a value.
    fn from_wire(b: u64) -> (r: Self)
        ensures
            r == Self::unwire_spec(b),
    ;

    /// Add `other` to this value.
    fn add(self, other: Self) -> (r: Self)
        ensures
            r == self.add_spec(other),
    ;

    /// Subtract `other` from this value.
    fn sub(self, other: Self) -> (r: Self)
        ensures
            r == self.sub_spec(other),
    ;

    /// Whether this value is strictly greater than `other`.
    fn gt(self, other: Self) -> (r: bool)
        ensures
            r == self.gt_spec(other),
    ;
}

} // verus!
