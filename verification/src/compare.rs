//! Approximate equality of two numbers of a format: within an absolute
//! tolerance, or within a tolerance relative to the larger of the two.

use crate::format::{Format, Value};
use vstd::arithmetic::power2::*;
use vstd::math::{abs, max};
use vstd::prelude::*;

verus! {

impl Format {
    /// Whether `|a - b|`, as the format computes it, is at most `epsilon`.
    pub open spec fn abs_diff_eq_values(self, a: Value, b: Value, epsilon: Value) -> bool {
        self.sub(a, b).abs().le(epsilon)
    }

    /// Whether `a` and `b` are equal, or finite and close: `|a - b|` at
    /// most `epsilon`, or at most `max_relative` times the larger of `|a|`
    /// and `|b|`.  Difference and product are those that the format
    /// computes, rounded to nearest.  An infinity is close to nothing but
    /// itself, and a NaN to nothing at all.
    pub open spec fn relative_eq_values(
        self,
        a: Value,
        b: Value,
        epsilon: Value,
        max_relative: Value,
    ) -> bool {
        if a.equals(b) {
            true
        } else if a.is_infinite() || b.is_infinite() {
            false
        } else {
            let abs_diff = self.sub(a, b).abs();
            let largest = a.abs().larger(b.abs());
            abs_diff.le(epsilon) || abs_diff.le(self.mul(largest, max_relative))
        }
    }

    /// Whether two patterns denote numbers within `epsilon` of each other.
    pub fn abs_diff_eq_bits(self, a: u64, b: u64, epsilon: u64) -> (r: bool)
        requires
            self.wf(),
            self.valid(a),
            self.valid(b),
            self.valid(epsilon),
        ensures
            r == self.abs_diff_eq_values(self.value(a), self.value(b), self.value(epsilon)),
    {
        let abs_diff = self.abs_diff_bits(a, b);
        self.le_bits(abs_diff, epsilon)
    }

    /// Whether two patterns denote numbers that are equal or close, in
    /// absolute or in relative terms.
    pub fn relative_eq_bits(self, a: u64, b: u64, epsilon: u64, max_relative: u64) -> (r: bool)
        requires
            self.wf(),
            self.valid(a),
            self.valid(b),
            self.valid(epsilon),
            self.valid(max_relative),
        ensures
            r == self.relative_eq_values(
                self.value(a),
                self.value(b),
                self.value(epsilon),
                self.value(max_relative),
            ),
    {
        // Equal numbers, the two zeros and an infinity beside itself among them.
        if self.eq_bits(a, b) {
            return true;
        }
        // An infinity beside anything else.
        if self.is_infinite(a) || self.is_infinite(b) {
            return false;
        }
        let abs_diff = self.abs_diff_bits(a, b);

        // Numbers that are close together whatever their size.
        if self.le_bits(abs_diff, epsilon) {
            return true;
        }
        let abs_a = self.clear_sign(a);
        let abs_b = self.clear_sign(b);
        let largest = if self.gt_bits(abs_b, abs_a) {
            abs_b
        } else {
            abs_a
        };

        self.le_bits(abs_diff, self.mul_bits(largest, max_relative))
    }

    /// Every number but a NaN is close to itself, whatever the tolerances.
    pub proof fn lemma_relative_eq_reflexive(self, a: Value, epsilon: Value, max_relative: Value)
        requires
            !a.is_nan(),
        ensures
            self.relative_eq_values(a, a, epsilon, max_relative),
    {
    }

    /// A NaN is close to nothing, itself included, whatever the
    /// tolerances.
    pub proof fn lemma_relative_eq_nan(
        self,
        a: Value,
        b: Value,
        epsilon: Value,
        max_relative: Value,
    )
        requires
            a.is_nan() || b.is_nan(),
        ensures
            !self.relative_eq_values(a, b, epsilon, max_relative),
            !self.abs_diff_eq_values(a, b, epsilon),
    {
    }

    /// An infinity is close to itself and to nothing else, whatever the
    /// tolerances.
    pub proof fn lemma_relative_eq_infinite(
        self,
        a: Value,
        b: Value,
        epsilon: Value,
        max_relative: Value,
    )
        requires
            a.is_infinite() || b.is_infinite(),
        ensures
            self.relative_eq_values(a, b, epsilon, max_relative) == (a == b),
    {
    }

    /// Closeness does not depend on the order of the two numbers.
    pub proof fn lemma_relative_eq_symmetric(
        self,
        a: Value,
        b: Value,
        epsilon: Value,
        max_relative: Value,
    )
        ensures
            self.relative_eq_values(a, b, epsilon, max_relative) == self.relative_eq_values(
                b,
                a,
                epsilon,
                max_relative,
            ),
            self.abs_diff_eq_values(a, b, epsilon) == self.abs_diff_eq_values(b, a, epsilon),
    {
        if let Value::Finite(x) = a {
            if let Value::Finite(y) = b {
                self.lemma_round_signed_abs(x - y, 0);
                self.lemma_round_signed_abs(y - x, 0);
            }
        }
    }

    /// Numbers within the absolute tolerance are close whatever the
    /// relative one.
    pub proof fn lemma_relative_eq_from_abs_diff(
        self,
        a: Value,
        b: Value,
        epsilon: Value,
        max_relative: Value,
    )
        requires
            a.is_finite(),
            b.is_finite(),
            self.abs_diff_eq_values(a, b, epsilon),
        ensures
            self.relative_eq_values(a, b, epsilon, max_relative),
    {
    }

    /// Rounding does not part what is truly within the tolerance: two
    /// finite numbers whose exact distance is at most a finite `epsilon`
    /// of the format are equal within it.
    pub proof fn lemma_abs_diff_eq_of_exact(self, x: int, y: int, epsilon: u64)
        requires
            self.wf(),
            self.valid(epsilon),
            self.value(epsilon) is Finite,
            abs(x - y) <= self.value(epsilon)->Finite_0,
        ensures
            self.abs_diff_eq_values(Value::Finite(x), Value::Finite(y), self.value(epsilon)),
    {
        let bound = self.abs_bits(epsilon);
        self.lemma_layout();
        self.lemma_value_parts(epsilon);
        self.lemma_magnitude_increases(bound, self.infinity_bits());
        self.lemma_round_signed_abs(x - y, 0);
        lemma2_to64();
        let n = abs(x - y) as nat;
        assert(n * pow2(0) == n && self.magnitude(bound) * pow2(0) == self.magnitude(bound))
            by (nonlinear_arith)
            requires
                pow2(0) == 1,
        ;
        self.lemma_round_keeps_order(n, 0, bound);
    }

    /// Nor does rounding part what is truly within the relative
    /// tolerance: two finite numbers with `|x - y| <= max(|x|, |y|) *
    /// max_relative` in exact terms are close, for a finite `max_relative`
    /// that is not negative.  All three are counted in units, so the
    /// product is in units of a unit, and `unit_shift` makes up for it.
    pub proof fn lemma_relative_eq_of_exact(
        self,
        x: int,
        y: int,
        epsilon: Value,
        max_relative: int,
    )
        requires
            self.wf(),
            max_relative >= 0,
            abs(x - y) * pow2(self.unit_shift()) <= max(abs(x) as int, abs(y) as int) * max_relative,
        ensures
            self.relative_eq_values(
                Value::Finite(x),
                Value::Finite(y),
                epsilon,
                Value::Finite(max_relative),
            ),
    {
        let shift = self.unit_shift();
        let n = abs(x - y) as nat;
        let largest = max(abs(x) as int, abs(y) as int);
        assert(largest * max_relative >= 0) by (nonlinear_arith)
            requires
                largest >= 0,
                max_relative >= 0,
        ;
        let product = (largest * max_relative) as nat;
        self.lemma_round_signed_abs(x - y, 0);
        self.lemma_round_magnitude_scaled(n, shift, -(shift as int));
        self.lemma_round_monotonic(n * pow2(shift), product, -(shift as int));
        assert(Value::Finite(abs(x) as int).larger(Value::Finite(abs(y) as int)) == Value::Finite(
            largest,
        ));
        assert(self.mul(Value::Finite(largest), Value::Finite(max_relative)) == self.round(
            product,
            -(shift as int),
        ));
    }
}

} // verus!
