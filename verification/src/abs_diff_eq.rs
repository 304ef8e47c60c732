//! Equality within an absolute tolerance.

use crate::binary::{Binary32, Binary64};
use crate::format::Format;
use vstd::prelude::*;

verus! {

/// Equality of two values, of which neither is further from the other
/// than a given distance.
pub trait AbsDiffEq<Rhs: ?Sized = Self> {
    /// The type of the tolerance.
    type Epsilon;

    /// What `default_epsilon` returns.
    spec fn default_epsilon_spec() -> Self::Epsilon;

    /// What `abs_diff_eq` decides.
    spec fn abs_diff_eq_spec(&self, other: &Rhs, epsilon: Self::Epsilon) -> bool;

    /// The tolerance to use where the caller names none.
    fn default_epsilon() -> (r: Self::Epsilon)
        ensures
            r == Self::default_epsilon_spec(),
    ;

    /// Whether the two values are within `epsilon` of each other.
    fn abs_diff_eq(&self, other: &Rhs, epsilon: Self::Epsilon) -> (r: bool)
        ensures
            r == self.abs_diff_eq_spec(other, epsilon),
    ;

    /// The opposite of `abs_diff_eq`.
    fn abs_diff_ne(&self, other: &Rhs, epsilon: Self::Epsilon) -> (r: bool)
        ensures
            r == !self.abs_diff_eq_spec(other, epsilon),
    {
        !Self::abs_diff_eq(self, other, epsilon)
    }
}

impl AbsDiffEq for Binary32 {
    type Epsilon = Binary32;

    open spec fn default_epsilon_spec() -> Binary32 {
        Binary32 { bits: 0x3400_0000 }
    }

    open spec fn abs_diff_eq_spec(&self, other: &Binary32, epsilon: Binary32) -> bool {
        Format::binary32().abs_diff_eq_values(self@, other@, epsilon@)
    }

    fn default_epsilon() -> (r: Binary32) {
        Binary32::epsilon()
    }

    fn abs_diff_eq(&self, other: &Binary32, epsilon: Binary32) -> (r: bool) {
        proof {
            self.lemma_valid();
            other.lemma_valid();
            epsilon.lemma_valid();
        }
        Format::binary32().abs_diff_eq_bits(
            self.bits as u64,
            other.bits as u64,
            epsilon.bits as u64,
        )
    }
}

impl AbsDiffEq for Binary64 {
    type Epsilon = Binary64;

    open spec fn default_epsilon_spec() -> Binary64 {
        Binary64 { bits: 0x3cb0_0000_0000_0000 }
    }

    open spec fn abs_diff_eq_spec(&self, other: &Binary64, epsilon: Binary64) -> bool {
        Format::binary64().abs_diff_eq_values(self@, other@, epsilon@)
    }

    fn default_epsilon() -> (r: Binary64) {
        Binary64::epsilon()
    }

    fn abs_diff_eq(&self, other: &Binary64, epsilon: Binary64) -> (r: bool) {
        proof {
            self.lemma_valid();
            other.lemma_valid();
            epsilon.lemma_valid();
        }
        Format::binary64().abs_diff_eq_bits(self.bits, other.bits, epsilon.bits)
    }
}

impl<'a, T: AbsDiffEq + ?Sized> AbsDiffEq for &'a T {
    type Epsilon = T::Epsilon;

    open spec fn default_epsilon_spec() -> T::Epsilon {
        T::default_epsilon_spec()
    }

    open spec fn abs_diff_eq_spec(&self, other: &&'a T, epsilon: T::Epsilon) -> bool {
        (**self).abs_diff_eq_spec(*other, epsilon)
    }

    fn default_epsilon() -> (r: T::Epsilon) {
        T::default_epsilon()
    }

    fn abs_diff_eq(&self, other: &&'a T, epsilon: T::Epsilon) -> (r: bool) {
        T::abs_diff_eq(*self, *other, epsilon)
    }
}

impl<'a, T: AbsDiffEq + ?Sized> AbsDiffEq for &'a mut T {
    type Epsilon = T::Epsilon;

    open spec fn default_epsilon_spec() -> T::Epsilon {
        T::default_epsilon_spec()
    }

    open spec fn abs_diff_eq_spec(&self, other: &&'a mut T, epsilon: T::Epsilon) -> bool {
        (**self).abs_diff_eq_spec(&**other, epsilon)
    }

    fn default_epsilon() -> (r: T::Epsilon) {
        T::default_epsilon()
    }

    fn abs_diff_eq(&self, other: &&'a mut T, epsilon: T::Epsilon) -> (r: bool) {
        T::abs_diff_eq(*self, *other, epsilon)
    }
}

/// Two sequences are equal within a tolerance where they are of one length
/// and equal within it place by place.
pub open spec fn seq_abs_diff_eq<A: AbsDiffEq<B>, B>(
    left: Seq<A>,
    right: Seq<B>,
    epsilon: A::Epsilon,
) -> bool {
    &&& left.len() == right.len()
    &&& forall|i: int|
        0 <= i < left.len() ==> (#[trigger] left[i]).abs_diff_eq_spec(&right[i], epsilon)
}

impl<A, B> AbsDiffEq<[B]> for [A] where A: AbsDiffEq<B>, A::Epsilon: Copy {
    type Epsilon = A::Epsilon;

    open spec fn default_epsilon_spec() -> A::Epsilon {
        A::default_epsilon_spec()
    }

    open spec fn abs_diff_eq_spec(&self, other: &[B], epsilon: A::Epsilon) -> bool {
        seq_abs_diff_eq(self@, other@, epsilon)
    }

    fn default_epsilon() -> (r: A::Epsilon) {
        A::default_epsilon()
    }

    fn abs_diff_eq(&self, other: &[B], epsilon: A::Epsilon) -> (r: bool) {
        if self.len() != other.len() {
            return false;
        }
        let mut i: usize = 0;
        while i < self.len()
            invariant
                self@.len() == other@.len(),
                i <= self@.len(),
                forall|j: int|
                    0 <= j < i ==> (#[trigger] self@[j]).abs_diff_eq_spec(&other@[j], epsilon),
            decreases self@.len() - i,
        {
            if !A::abs_diff_eq(&self[i], &other[i], epsilon) {
                return false;
            }
            i += 1;
        }
        true
    }
}

} // verus!
