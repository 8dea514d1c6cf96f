//! Rounding division on the primitive integers, as a trait of its own.
use crate::fpdec_inner::FpdecInner;
use crate::math::{in_range, rounded_div};
use crate::Rounding;
use vstd::prelude::*;

verus! {

/// Rounding division on the primitive integers.
pub trait RoundingDiv: FpdecInner {
    /// Computes `self / b` rounded, ties away from zero; `None` if `b == 0`
    /// or the result overflows.
    fn rounding_div(self, b: Self, rounding: Rounding) -> (r: Option<Self>)
        ensures
            b.spec_val() == 0 ==> r is None,
            b.spec_val() != 0 ==> ((r is Some) <==> in_range(
                rounded_div(self.spec_val(), b.spec_val(), rounding),
                Self::spec_min(),
                Self::spec_max(),
            )) && (r is Some ==> r.unwrap().spec_val() == rounded_div(
                self.spec_val(),
                b.spec_val(),
                rounding,
            )),
    ;
}

impl<T: FpdecInner> RoundingDiv for T {
    fn rounding_div(self, b: Self, rounding: Rounding) -> (r: Option<Self>) {
        FpdecInner::rounding_div(self, b, rounding)
    }
}

} // verus!
