//! A differentiable-function pairing: a map together with its derivative
//! map, for the special case where both are the same linear map.

use vstd::prelude::*;

verus! {

/// A function value paired with its derivative. The verifier does not take
/// plain function-pointer types, so the function's type is a parameter and
/// any copyable callable can stand in it.
pub struct D<F> {
    /// The function itself.
    pub f: F,
    /// Its derivative.
    pub df: F,
}

impl<F: Copy> D<F> {
    /// A linear map is its own derivative, so it determines the pair alone.
    pub fn linear_d(f: F) -> (d: D<F>)
        ensures
            d.f == f,
            d.df == f,
    {
        D { f, df: f }
    }
}

/// The structures whose maps compose with an identity.
pub trait Category: Sized {
    /// Rebuilds the value with the derivative replaced by the function
    /// itself.
    fn id(f: Self) -> Self;
}

impl<F: Copy> Category for D<F> {
    fn id(f: Self) -> Self {
        D { f: f.f, df: f.f }
    }
}

} // verus!
