use std::fmt::Debug;
use std::ops::{Add, Div, Mul, Sub};
use vstd::prelude::*;

verus! {

/// The capabilities a value must have to flow through a graph: it is copied
/// from slot to slot, can be printed, and supports the four arithmetic
/// operations with results of its own type.
///
/// A type that lacks one of them cannot instantiate any item of this crate,
/// so a graph over such a type is turned down when the program is compiled.
pub trait ContinuousDomain: 'static + Copy + Debug + Default + Add<Output = Self> + Sub<
    Output = Self,
> + Mul<Output = Self> + Div<Output = Self> {

}

impl<T> ContinuousDomain for T where
    T: 'static + Copy + Debug + Default + Add<Output = T> + Sub<Output = T> + Mul<Output = T> + Div<
        Output = T,
    >,
 {

}

} // verus!
