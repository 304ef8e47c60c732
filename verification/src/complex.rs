//! Complex numbers are compared part by part.

use crate::abs_diff_eq::AbsDiffEq;
use crate::relative_eq::RelativeEq;
use num_complex::Complex;
use vstd::prelude::*;

verus! {

/// `num_complex::Complex`: a real and an imaginary part of one type, both
/// public fields.
#[verifier::external_type_specification]
#[verifier::reject_recursive_types(T)]
pub struct ExComplex<T>(Complex<T>);

impl<T: AbsDiffEq> AbsDiffEq for Complex<T> where T::Epsilon: Copy {
    type Epsilon = T::Epsilon;

    open spec fn default_epsilon_spec() -> T::Epsilon {
        T::default_epsilon_spec()
    }

    open spec fn abs_diff_eq_spec(&self, other: &Complex<T>, epsilon: T::Epsilon) -> bool {
        self.re.abs_diff_eq_spec(&other.re, epsilon) && self.im.abs_diff_eq_spec(
            &other.im,
            epsilon,
        )
    }

    fn default_epsilon() -> (r: T::Epsilon) {
        T::default_epsilon()
    }

    fn abs_diff_eq(&self, other: &Complex<T>, epsilon: T::Epsilon) -> (r: bool) {
        T::abs_diff_eq(&self.re, &other.re, epsilon) && T::abs_diff_eq(
            &self.im,
            &other.im,
            epsilon,
        )
    }
}

impl<T: RelativeEq> RelativeEq for Complex<T> where T::Epsilon: Copy {
    open spec fn default_max_relative_spec() -> T::Epsilon {
        T::default_max_relative_spec()
    }

    open spec fn relative_eq_spec(
        &self,
        other: &Complex<T>,
        epsilon: T::Epsilon,
        max_relative: T::Epsilon,
    ) -> bool {
        self.re.relative_eq_spec(&other.re, epsilon, max_relative) && self.im.relative_eq_spec(
            &other.im,
            epsilon,
            max_relative,
        )
    }

    fn default_max_relative() -> (r: T::Epsilon) {
        T::default_max_relative()
    }

    fn relative_eq(
        &self,
        other: &Complex<T>,
        epsilon: T::Epsilon,
        max_relative: T::Epsilon,
    ) -> (r: bool) {
        T::relative_eq(&self.re, &other.re, epsilon, max_relative) && T::relative_eq(
            &self.im,
            &other.im,
            epsilon,
            max_relative,
        )
    }
}

} // verus!
