//! Material properties that are either constant over a surface or sampled
//! at the surface point.

use vstd::prelude::*;

verus! {

/// A property of a surface: one value everywhere, or a pure function of the
/// point that is asked for. `F` is the sampling function's type.
#[derive(Debug, PartialEq)]
pub enum PropertyAt<T: Clone, F> {
    Value(T),
    FromFunction(F),
}

impl<T: Clone, F> PropertyAt<T, F> {
    /// The property at `point`: a copy of the constant, or what the sampling
    /// function gives for the point.
    pub fn at<P>(&self, point: P) -> (out: T) where F: Fn(P) -> T
        requires
            self matches PropertyAt::FromFunction(f) ==> f.requires((point,)),
        ensures
            match *self {
                PropertyAt::Value(v) => cloned(v, out),
                PropertyAt::FromFunction(f) => f.ensures((point,), out),
            },
    {
        match self {
            PropertyAt::Value(v) => v.clone(),
            PropertyAt::FromFunction(f) => f(point),
        }
    }
}

} // verus!
