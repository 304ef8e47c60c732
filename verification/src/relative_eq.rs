//! Equality within an absolute tolerance or within one relative to the size
//! of the values.

use crate::abs_diff_eq::AbsDiffEq;
use crate::binary::{Binary32, Binary64};
use crate::format::Format;
use vstd::prelude::*;

verus! {

/// Equality of two values that are near each other in absolute terms, or
/// near each other for their size.
///
/// Two numbers `a` and `b` are equal in this sense where they are within
/// `epsilon` of each other, or where `|a - b| <= max_relative * max(|a|, |b|)`.
pub trait RelativeEq<Rhs: ?Sized = Self>: AbsDiffEq<Rhs> {
    /// What `default_max_relative` returns.
    spec fn default_max_relative_spec() -> Self::Epsilon;

    /// What `relative_eq` decides.
    spec fn relative_eq_spec(
        &self,
        other: &Rhs,
        epsilon: Self::Epsilon,
        max_relative: Self::Epsilon,
    ) -> bool;

    /// The relative tolerance to use where the caller names none.
    fn default_max_relative() -> (r: Self::Epsilon)
        ensures
            r == Self::default_max_relative_spec(),
    ;

    /// Whether the two values are equal, within `epsilon` of each other,
    /// or within `max_relative` of each other for their size.
    fn relative_eq(
        &self,
        other: &Rhs,
        epsilon: Self::Epsilon,
        max_relative: Self::Epsilon,
    ) -> (r: bool)
        ensures
            r == self.relative_eq_spec(other, epsilon, max_relative),
    ;

    /// The opposite of `relative_eq`.
    fn relative_ne(
        &self,
        other: &Rhs,
        epsilon: Self::Epsilon,
        max_relative: Self::Epsilon,
    ) -> (r: bool)
        ensures
            r == !self.relative_eq_spec(other, epsilon, max_relative),
    {
        !Self::relative_eq(self, other, epsilon, max_relative)
    }
}

impl RelativeEq for Binary32 {
    open spec fn default_max_relative_spec() -> Binary32 {
        Binary32 { bits: 0x3400_0000 }
    }

    open spec fn relative_eq_spec(
        &self,
        other: &Binary32,
        epsilon: Binary32,
        max_relative: Binary32,
    ) -> bool {
        Format::binary32().relative_eq_values(self@, other@, epsilon@, max_relative@)
    }

    fn default_max_relative() -> (r: Binary32) {
        Binary32::epsilon()
    }

    fn relative_eq(&self, other: &Binary32, epsilon: Binary32, max_relative: Binary32) -> (r:
        bool) {
        proof {
            self.lemma_valid();
            other.lemma_valid();
            epsilon.lemma_valid();
            max_relative.lemma_valid();
        }
        Format::binary32().relative_eq_bits(
            self.bits as u64,
            other.bits as u64,
            epsilon.bits as u64,
            max_relative.bits as u64,
        )
    }
}

impl RelativeEq for Binary64 {
    open spec fn default_max_relative_spec() -> Binary64 {
        Binary64 { bits: 0x3cb0_0000_0000_0000 }
    }

    open spec fn relative_eq_spec(
        &self,
        other: &Binary64,
        epsilon: Binary64,
        max_relative: Binary64,
    ) -> bool {
        Format::binary64().relative_eq_values(self@, other@, epsilon@, max_relative@)
    }

    fn default_max_relative() -> (r: Binary64) {
        Binary64::epsilon()
    }

    fn relative_eq(&self, other: &Binary64, epsilon: Binary64, max_relative: Binary64) -> (r:
        bool) {
        proof {
            self.lemma_valid();
            other.lemma_valid();
            epsilon.lemma_valid();
            max_relative.lemma_valid();
        }
        Format::binary64().relative_eq_bits(
            self.bits,
            other.bits,
            epsilon.bits,
            max_relative.bits,
        )
    }
}

impl<'a, T: RelativeEq + ?Sized> RelativeEq for &'a T {
    open spec fn default_max_relative_spec() -> T::Epsilon {
        T::default_max_relative_spec()
    }

    open spec fn relative_eq_spec(
        &self,
        other: &&'a T,
        epsilon: T::Epsilon,
        max_relative: T::Epsilon,
    ) -> bool {
        (**self).relative_eq_spec(*other, epsilon, max_relative)
    }

    fn default_max_relative() -> (r: T::Epsilon) {
        T::default_max_relative()
    }

    fn relative_eq(&self, other: &&'a T, epsilon: T::Epsilon, max_relative: T::Epsilon) -> (r:
        bool) {
        T::relative_eq(*self, *other, epsilon, max_relative)
    }
}

impl<'a, T: RelativeEq + ?Sized> RelativeEq for &'a mut T {
    open spec fn default_max_relative_spec() -> T::Epsilon {
        T::default_max_relative_spec()
    }

    open spec fn relative_eq_spec(
        &self,
        other: &&'a mut T,
        epsilon: T::Epsilon,
        max_relative: T::Epsilon,
    ) -> bool {
        (**self).relative_eq_spec(&**other, epsilon, max_relative)
    }

    fn default_max_relative() -> (r: T::Epsilon) {
        T::default_max_relative()
    }

    fn relative_eq(
        &self,
        other: &&'a mut T,
        epsilon: T::Epsilon,
        max_relative: T::Epsilon,
    ) -> (r: bool) {
        T::relative_eq(*self, *other, epsilon, max_relative)
    }
}

/// Two sequences are equal in the relative sense where they are of one
/// length and equal in that sense place by place.
pub open spec fn seq_relative_eq<A: RelativeEq<B>, B>(
    left: Seq<A>,
    right: Seq<B>,
    epsilon: A::Epsilon,
    max_relative: A::Epsilon,
) -> bool {
    &&& left.len() == right.len()
    &&& forall|i: int|
        0 <= i < left.len() ==> (#[trigger] left[i]).relative_eq_spec(
            &right[i],
            epsilon,
            max_relative,
        )
}

impl<A, B> RelativeEq<[B]> for [A] where A: RelativeEq<B>, A::Epsilon: Copy {
    open spec fn default_max_relative_spec() -> A::Epsilon {
        A::default_max_relative_spec()
    }

    open spec fn relative_eq_spec(
        &self,
        other: &[B],
        epsilon: A::Epsilon,
        max_relative: A::Epsilon,
    ) -> bool {
        seq_relative_eq(self@, other@, epsilon, max_relative)
    }

    fn default_max_relative() -> (r: A::Epsilon) {
        A::default_max_relative()
    }

    fn relative_eq(&self, other: &[B], epsilon: A::Epsilon, max_relative: A::Epsilon) -> (r:
        bool) {
        if self.len() != other.len() {
            return false;
        }
        let mut i: usize = 0;
        while i < self.len()
            invariant
                self@.len() == other@.len(),
                i <= self@.len(),
                forall|j: int|
                    0 <= j < i ==> (#[trigger] self@[j]).relative_eq_spec(
                        &other@[j],
                        epsilon,
                        max_relative,
                    ),
            decreases self@.len() - i,
        {
            if !A::relative_eq(&self[i], &other[i], epsilon, max_relative) {
                return false;
            }
            i += 1;
        }
        true
    }
}

/// Sequences of different lengths are unequal, whatever the tolerances and
/// whatever they hold.
pub proof fn lemma_length_mismatch<A: RelativeEq<B>, B>(
    left: Seq<A>,
    right: Seq<B>,
    epsilon: A::Epsilon,
    max_relative: A::Epsilon,
)
    requires
        left.len() != right.len(),
    ensures
        !seq_relative_eq(left, right, epsilon, max_relative),
{
}

/// Sequences that differ in the relative sense at one place are unequal.
pub proof fn lemma_element_mismatch<A: RelativeEq<B>, B>(
    left: Seq<A>,
    right: Seq<B>,
    epsilon: A::Epsilon,
    max_relative: A::Epsilon,
    i: int,
)
    requires
        0 <= i < left.len(),
        i < right.len(),
        !left[i].relative_eq_spec(&right[i], epsilon, max_relative),
    ensures
        !seq_relative_eq(left, right, epsilon, max_relative),
{
}

} // verus!
