use vstd::prelude::*;

verus! {

/// The numbers a computation graph is built over.
///
/// An implementation supplies the arithmetic. A graph combines numbers
/// through these operations and in no other way, and every statement made
/// about a graph is made over the `*_spec` functions, which say what the
/// operations compute. Each executable operation is bound to its `*_spec`
/// function by an `ensures`.
///
/// Nothing here holds an implementation to those clauses: what is proved of
/// a graph is proved for numbers whose operations are functions of their
/// arguments, and an implementation answers for that itself.
///
/// The operations are total. Where the numbers are floating-point, a
/// division by zero or an overflow gives an infinity or not-a-number, and
/// that value goes through the graph and its gradients like any other.
pub trait Scalar: Sized + Copy {
    /// The additive identity, the gradient of a fresh node.
    spec fn zero_spec() -> Self;

    /// The multiplicative identity, the gradient a backward pass starts from.
    spec fn one_spec() -> Self;

    /// The sum `self + rhs`.
    spec fn add_spec(self, rhs: Self) -> Self;

    /// The difference `self - rhs`.
    spec fn sub_spec(self, rhs: Self) -> Self;

    /// The product `self * rhs`.
    spec fn mul_spec(self, rhs: Self) -> Self;

    /// The quotient `self / rhs`.
    spec fn div_spec(self, rhs: Self) -> Self;

    /// Rectification: the larger of zero and `self`.
    spec fn relu_spec(self) -> Self;

    fn zero() -> (r: Self)
        ensures
            r == Self::zero_spec(),
    ;

    fn one() -> (r: Self)
        ensures
            r == Self::one_spec(),
    ;

    fn add(self, rhs: Self) -> (r: Self)
        ensures
            r == self.add_spec(rhs),
    ;

    fn sub(self, rhs: Self) -> (r: Self)
        ensures
            r == self.sub_spec(rhs),
    ;

    fn mul(self, rhs: Self) -> (r: Self)
        ensures
            r == self.mul_spec(rhs),
    ;

    fn div(self, rhs: Self) -> (r: Self)
        ensures
            r == self.div_spec(rhs),
    ;

    fn relu(self) -> (r: Self)
        ensures
            r == self.relu_spec(),
    ;
}

} // verus!
