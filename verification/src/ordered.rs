//! Wrapped numbers are compared as the numbers inside them, with each
//! other and with a bare number.

use crate::abs_diff_eq::AbsDiffEq;
use crate::binary::Float;
use crate::relative_eq::RelativeEq;
use ordered_float::OrderedFloat;
use vstd::prelude::*;

verus! {

/// `ordered_float::OrderedFloat`: a wrapper with one public field, the
/// number that it orders.
#[verifier::external_type_specification]
#[verifier::reject_recursive_types(T)]
pub struct ExOrderedFloat<T>(OrderedFloat<T>);

impl<T: AbsDiffEq + Copy> AbsDiffEq for OrderedFloat<T> {
    type Epsilon = T::Epsilon;

    open spec fn default_epsilon_spec() -> T::Epsilon {
        T::default_epsilon_spec()
    }

    open spec fn abs_diff_eq_spec(&self, other: &OrderedFloat<T>, epsilon: T::Epsilon) -> bool {
        self.0.abs_diff_eq_spec(&other.0, epsilon)
    }

    fn default_epsilon() -> (r: T::Epsilon) {
        T::default_epsilon()
    }

    fn abs_diff_eq(&self, other: &OrderedFloat<T>, epsilon: T::Epsilon) -> (r: bool) {
        T::abs_diff_eq(&self.0, &other.0, epsilon)
    }
}

impl<T: AbsDiffEq + Copy> AbsDiffEq<T> for OrderedFloat<T> {
    type Epsilon = T::Epsilon;

    open spec fn default_epsilon_spec() -> T::Epsilon {
        T::default_epsilon_spec()
    }

    open spec fn abs_diff_eq_spec(&self, other: &T, epsilon: T::Epsilon) -> bool {
        self.0.abs_diff_eq_spec(other, epsilon)
    }

    fn default_epsilon() -> (r: T::Epsilon) {
        T::default_epsilon()
    }

    fn abs_diff_eq(&self, other: &T, epsilon: T::Epsilon) -> (r: bool) {
        T::abs_diff_eq(&self.0, other, epsilon)
    }
}

impl<T: RelativeEq + Copy> RelativeEq for OrderedFloat<T> {
    open spec fn default_max_relative_spec() -> T::Epsilon {
        T::default_max_relative_spec()
    }

    open spec fn relative_eq_spec(
        &self,
        other: &OrderedFloat<T>,
        epsilon: T::Epsilon,
        max_relative: T::Epsilon,
    ) -> bool {
        self.0.relative_eq_spec(&other.0, epsilon, max_relative)
    }

    fn default_max_relative() -> (r: T::Epsilon) {
        T::default_max_relative()
    }

    fn relative_eq(
        &self,
        other: &OrderedFloat<T>,
        epsilon: T::Epsilon,
        max_relative: T::Epsilon,
    ) -> (r: bool) {
        T::relative_eq(&self.0, &other.0, epsilon, max_relative)
    }
}

impl<T: RelativeEq + Copy> RelativeEq<T> for OrderedFloat<T> {
    open spec fn default_max_relative_spec() -> T::Epsilon {
        T::default_max_relative_spec()
    }

    open spec fn relative_eq_spec(
        &self,
        other: &T,
        epsilon: T::Epsilon,
        max_relative: T::Epsilon,
    ) -> bool {
        self.0.relative_eq_spec(other, epsilon, max_relative)
    }

    fn default_max_relative() -> (r: T::Epsilon) {
        T::default_max_relative()
    }

    fn relative_eq(&self, other: &T, epsilon: T::Epsilon, max_relative: T::Epsilon) -> (r: bool) {
        T::relative_eq(&self.0, other, epsilon, max_relative)
    }
}

/// The refusal to make a `NotNan` of a NaN.
#[derive(Clone, Copy, Debug)]
pub struct FloatIsNan;

/// A number that is known not to be a NaN.
#[derive(Debug)]
pub struct NotNan<T: Float> {
    value: T,
}

impl<T: Float> Clone for NotNan<T> {
    fn clone(&self) -> (r: Self)
        ensures
            r == *self,
    {
        *self
    }
}

impl<T: Float> Copy for NotNan<T> {

}

impl<T: Float> NotNan<T> {
    #[verifier::type_invariant]
    spec fn holds_a_number(self) -> bool {
        !self.value.value().is_nan()
    }

    /// The number inside.
    pub closed spec fn inner(self) -> T {
        self.value
    }

    /// Wraps a number, and refuses a NaN.
    pub fn new(value: T) -> (r: Result<NotNan<T>, FloatIsNan>)
        ensures
            value.value().is_nan() <==> r is Err,
            r is Ok ==> r->Ok_0.inner() == value,
    {
        if value.is_nan() {
            Err(FloatIsNan)
        } else {
            Ok(NotNan { value })
        }
    }

    /// The number inside, which is no NaN.
    pub fn into_inner(self) -> (v: T)
        ensures
            v == self.inner(),
            !v.value().is_nan(),
    {
        proof {
            use_type_invariant(self);
        }
        self.value
    }
}

impl<T: AbsDiffEq + Float> AbsDiffEq for NotNan<T> {
    type Epsilon = T::Epsilon;

    open spec fn default_epsilon_spec() -> T::Epsilon {
        T::default_epsilon_spec()
    }

    open spec fn abs_diff_eq_spec(&self, other: &NotNan<T>, epsilon: T::Epsilon) -> bool {
        self.inner().abs_diff_eq_spec(&other.inner(), epsilon)
    }

    fn default_epsilon() -> (r: T::Epsilon) {
        T::default_epsilon()
    }

    fn abs_diff_eq(&self, other: &NotNan<T>, epsilon: T::Epsilon) -> (r: bool) {
        T::abs_diff_eq(&self.into_inner(), &other.into_inner(), epsilon)
    }
}

impl<T: AbsDiffEq + Float> AbsDiffEq<T> for NotNan<T> {
    type Epsilon = T::Epsilon;

    open spec fn default_epsilon_spec() -> T::Epsilon {
        T::default_epsilon_spec()
    }

    open spec fn abs_diff_eq_spec(&self, other: &T, epsilon: T::Epsilon) -> bool {
        self.inner().abs_diff_eq_spec(other, epsilon)
    }

    fn default_epsilon() -> (r: T::Epsilon) {
        T::default_epsilon()
    }

    fn abs_diff_eq(&self, other: &T, epsilon: T::Epsilon) -> (r: bool) {
        T::abs_diff_eq(&self.into_inner(), other, epsilon)
    }
}

impl<T: RelativeEq + Float> RelativeEq for NotNan<T> {
    open spec fn default_max_relative_spec() -> T::Epsilon {
        T::default_max_relative_spec()
    }

    open spec fn relative_eq_spec(
        &self,
        other: &NotNan<T>,
        epsilon: T::Epsilon,
        max_relative: T::Epsilon,
    ) -> bool {
        self.inner().relative_eq_spec(&other.inner(), epsilon, max_relative)
    }

    fn default_max_relative() -> (r: T::Epsilon) {
        T::default_max_relative()
    }

    fn relative_eq(
        &self,
        other: &NotNan<T>,
        epsilon: T::Epsilon,
        max_relative: T::Epsilon,
    ) -> (r: bool) {
        T::relative_eq(&self.into_inner(), &other.into_inner(), epsilon, max_relative)
    }
}

impl<T: RelativeEq + Float> RelativeEq<T> for NotNan<T> {
    open spec fn default_max_relative_spec() -> T::Epsilon {
        T::default_max_relative_spec()
    }

    open spec fn relative_eq_spec(
        &self,
        other: &T,
        epsilon: T::Epsilon,
        max_relative: T::Epsilon,
    ) -> bool {
        self.inner().relative_eq_spec(other, epsilon, max_relative)
    }

    fn default_max_relative() -> (r: T::Epsilon) {
        T::default_max_relative()
    }

    fn relative_eq(&self, other: &T, epsilon: T::Epsilon, max_relative: T::Epsilon) -> (r: bool) {
        T::relative_eq(&self.into_inner(), other, epsilon, max_relative)
    }
}

} // verus!
