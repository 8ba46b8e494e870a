use vstd::prelude::*;

use crate::activations::ActivationFunction;

verus! {

/// The number type a network computes with. Each operation is named by a
/// spec function that the implementing type defines, and returns exactly
/// what that function gives on its operands: the library fixes which
/// operations are applied, to which operands and in which order. An
/// implementation over floats must therefore be deterministic (equal
/// operands give equal results; a NaN result is the one value this can
/// fail on bit for bit).
pub trait Scalar: Copy {
    /// The additive identity, where a sum starts.
    spec fn spec_zero() -> Self;

    spec fn spec_plus(self, rhs: Self) -> Self;

    spec fn spec_minus(self, rhs: Self) -> Self;

    spec fn spec_times(self, rhs: Self) -> Self;

    /// The nonlinearity `f` applied to `self`.
    spec fn spec_activate(self, f: ActivationFunction) -> Self;

    /// The derivative of `f`, evaluated on a value that `f` has already
    /// produced (for the sigmoid, `y * (1 - y)`).
    spec fn spec_derivative(self, f: ActivationFunction) -> Self;

    /// `self` lies in `[0, 1)`.
    spec fn in_unit(self) -> bool;

    /// `self` is greater than zero.
    spec fn is_positive(self) -> bool;

    fn zero() -> (r: Self)
        ensures
            r == Self::spec_zero(),
    ;

    fn plus(self, rhs: Self) -> (r: Self)
        ensures
            r == self.spec_plus(rhs),
    ;

    fn minus(self, rhs: Self) -> (r: Self)
        ensures
            r == self.spec_minus(rhs),
    ;

    fn times(self, rhs: Self) -> (r: Self)
        ensures
            r == self.spec_times(rhs),
    ;

    fn activate(self, f: ActivationFunction) -> (r: Self)
        ensures
            r == self.spec_activate(f),
    ;

    fn derivative(self, f: ActivationFunction) -> (r: Self)
        ensures
            r == self.spec_derivative(f),
    ;

    /// A value drawn uniformly from `[0, 1)`.
    fn random() -> (r: Self)
        ensures
            r.in_unit(),
    ;

    /// Whether `self` is greater than zero.
    fn positive(self) -> (r: bool)
        ensures
            r == self.is_positive(),
    ;
}

} // verus!
