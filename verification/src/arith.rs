//! Subtraction, multiplication and order on the numbers of a format, each
//! computed on bit patterns and stated on the numbers that they denote.

use crate::format::{Format, Value};
use crate::power::{lemma_bit_length_unique, lemma_pow2_monotonic, pow2_u128};
use crate::rounding::round_half_even;
use vstd::arithmetic::div_mod::*;
use vstd::arithmetic::mul::*;
use vstd::arithmetic::power2::*;
use vstd::prelude::*;

verus! {

impl Value {
    /// Below zero: a negative finite number or negative infinity.
    pub open spec fn is_negative(self) -> bool {
        match self {
            Value::NegInf => true,
            Value::Finite(v) => v < 0,
            _ => false,
        }
    }
}

impl Format {
    /// The number of the format nearest to `v * 2^e` units, for `v` of
    /// either sign.
    pub open spec fn round_signed(self, v: int, e: int) -> Value {
        if v >= 0 {
            self.round(v as nat, e)
        } else {
            self.round((-v) as nat, e).neg()
        }
    }

    /// The difference of two numbers as the format gives it: the exact
    /// difference, rounded.  Infinities of one sign have no difference.
    pub open spec fn sub(self, x: Value, y: Value) -> Value {
        match (x, y) {
            (Value::Nan, _) => Value::Nan,
            (_, Value::Nan) => Value::Nan,
            (Value::Finite(a), Value::Finite(b)) => self.round_signed(a - b, 0),
            (Value::Finite(_), _) => y.neg(),
            (_, Value::Finite(_)) => x,
            _ => if x == y {
                Value::Nan
            } else {
                x
            },
        }
    }

    /// The product of two numbers as the format gives it: the exact
    /// product, rounded.  Zero times an infinity is no number.
    pub open spec fn mul(self, x: Value, y: Value) -> Value {
        match (x, y) {
            (Value::Nan, _) => Value::Nan,
            (_, Value::Nan) => Value::Nan,
            (Value::Finite(a), Value::Finite(b)) => self.round_signed(
                a * b,
                -(self.unit_shift() as int),
            ),
            _ => if x == Value::Finite(0) || y == Value::Finite(0) {
                Value::Nan
            } else if x.is_negative() != y.is_negative() {
                Value::NegInf
            } else {
                Value::PosInf
            },
        }
    }

    /// Where one number is so much larger than the other that the smaller
    /// is under a quarter of its spacing, their sum and their difference
    /// both round back to the larger.
    pub proof fn lemma_round_far_apart(self, m: nat, y: nat, d: nat, e: nat, minus: bool)
        requires
            self.wf(),
            self.hidden() <= m < 2 * self.hidden(),
            y < 2 * self.hidden(),
            d >= self.precision() + 2,
        ensures
            m * pow2(d) >= y,
            self.round_magnitude(
                if minus {
                    (m * pow2(d) - y) as nat
                } else {
                    m * pow2(d) + y
                },
                e as int,
            ) == m * pow2(d) * pow2(e),
    {
        let h = self.hidden();
        let p = self.precision();
        let pd = pow2(d);
        self.lemma_layout();
        lemma_pow2_unfold(p);
        lemma_pow2_unfold(p + 1);
        lemma_pow2_unfold(p + 2);
        lemma_pow2_monotonic(p + 2, d);
        assert(pd >= 8 * h);
        assert(m * pd >= y) by (nonlinear_arith)
            requires
                m >= h,
                h >= 1,
                pd >= 8 * h,
                y < 2 * h,
        ;
        if !minus || y == 0 || m > h {
            let s: nat = if minus {
                (m * pd - y) as nat
            } else {
                m * pd + y
            };
            let q: nat = if minus && y > 0 {
                (m - 1) as nat
            } else {
                m
            };
            let r: nat = if minus && y > 0 {
                (pd - y) as nat
            } else {
                y
            };
            if minus && y > 0 {
                assert(s == q * pd + r) by (nonlinear_arith)
                    requires
                        s == m * pd - y,
                        q == m - 1,
                        r == pd - y,
                ;
            } else {
                assert(s == q * pd + r) by (nonlinear_arith)
                    requires
                        s == m * pd + r,
                        q == m,
                ;
            }
            lemma_fundamental_div_mod_converse(s as int, pd as int, q as int, r as int);
            assert(round_half_even(s, d) == m);
            lemma_pow2_adds(self.frac_bits as nat, d);
            lemma_pow2_adds(p, d);
            assert(h * pd <= s < 2 * h * pd) by (nonlinear_arith)
                requires
                    s == q * pd + r,
                    0 <= r < pd,
                    h <= q < 2 * h,
            ;
            lemma_bit_length_unique(s, p + d);
            assert(self.spacing_exponent(s, e as int) == d + e);
            lemma_pow2_adds(d, e);
            lemma_mul_is_associative(m as int, pd as int, pow2(e) as int);
        } else {
            let pk = pow2((d - 1) as nat);
            lemma_pow2_unfold(d);
            let s: nat = (m * pd - y) as nat;
            let q: nat = (2 * h - 1) as nat;
            let r: nat = (pk - y) as nat;
            assert(s == q * pk + r) by (nonlinear_arith)
                requires
                    s == m * pd - y,
                    m == h,
                    pd == 2 * pk,
                    q == 2 * h - 1,
                    r == pk - y,
            ;
            lemma_fundamental_div_mod_converse(s as int, pk as int, q as int, r as int);
            assert(round_half_even(s, (d - 1) as nat) == 2 * h);
            lemma_pow2_adds(self.frac_bits as nat, (d - 1) as nat);
            lemma_pow2_adds(p, (d - 1) as nat);
            assert(h * pk <= s < 2 * h * pk) by (nonlinear_arith)
                requires
                    s == q * pk + r,
                    0 <= r < pk,
                    q == 2 * h - 1,
                    h >= 1,
            ;
            lemma_bit_length_unique(s, (p + d - 1) as nat);
            assert(self.spacing_exponent(s, e as int) == d + e - 1);
            lemma_pow2_adds(d, e);
            lemma_pow2_unfold(d + e);
            let pt = pow2((d + e - 1) as nat);
            assert((2 * h) * pt == h * pd * pow2(e)) by (nonlinear_arith)
                requires
                    pd * pow2(e) == 2 * pt,
            ;
        }
    }
    /// A pattern is its magnitude bits, plus the sign bit where that is set.
    pub proof fn lemma_value_parts(self, x: u64)
        requires
            self.wf(),
            self.valid(x),
        ensures
            self.abs_bits(x) < self.sign_weight(),
            x == self.abs_bits(x) + (if self.sign_is_set(x) {
                self.sign_weight()
            } else {
                0
            }),
            self.magnitude(0) == 0,
            self.abs_bits(x) > 0 ==> self.magnitude(self.abs_bits(x)) > 0,
    {
        self.lemma_layout();
        if self.abs_bits(x) > 0 {
            self.lemma_magnitude_increases(0, self.abs_bits(x));
        }
    }

    /// Rounding gives nothing below zero, so taking the magnitude after
    /// rounding is rounding the magnitude.
    pub proof fn lemma_round_signed_abs(self, v: int, e: int)
        ensures
            self.round_signed(v, e).abs() == self.round(
                (if v >= 0 {
                    v
                } else {
                    -v
                }) as nat,
                e,
            ),
    {
    }

    /// Setting the sign bit of a pattern negates what it denotes.
    pub proof fn lemma_value_with_sign(self, a: u64)
        requires
            self.wf(),
            a <= self.infinity_bits(),
        ensures
            self.valid(a),
            self.valid((a + self.sign_weight()) as u64),
            self.value(a) == (if a == self.infinity_bits() {
                Value::PosInf
            } else {
                Value::Finite(self.magnitude(a as nat) as int)
            }),
            self.value((a + self.sign_weight()) as u64) == self.value(a).neg(),
    {
        self.lemma_layout();
    }

    /// Equality of the numbers that two patterns denote: the two zeros
    /// are equal, and a NaN equals nothing.
    pub fn eq_bits(self, a: u64, b: u64) -> (r: bool)
        requires
            self.wf(),
            self.valid(a),
            self.valid(b),
        ensures
            r == self.value(a).equals(self.value(b)),
    {
        let aa = self.clear_sign(a);
        let ab = self.clear_sign(b);
        let inf = self.infinity();
        proof {
            self.lemma_layout();
            self.lemma_value_parts(a);
            self.lemma_value_parts(b);
            if aa < ab {
                self.lemma_magnitude_increases(aa as nat, ab as nat);
            } else if ab < aa {
                self.lemma_magnitude_increases(ab as nat, aa as nat);
            }
        }
        aa <= inf && ab <= inf && (a == b || (aa == 0 && ab == 0))
    }

    /// Whether the number of the first pattern is at most that of the
    /// second; false where either is a NaN.
    pub fn le_bits(self, a: u64, b: u64) -> (r: bool)
        requires
            self.wf(),
            self.valid(a),
            self.valid(b),
        ensures
            r == self.value(a).le(self.value(b)),
    {
        let aa = self.clear_sign(a);
        let ab = self.clear_sign(b);
        let inf = self.infinity();
        if aa > inf || ab > inf {
            return false;
        }
        let na = self.is_negative(a);
        let nb = self.is_negative(b);
        proof {
            self.lemma_layout();
            self.lemma_value_parts(a);
            self.lemma_value_parts(b);
            if aa < ab {
                self.lemma_magnitude_increases(aa as nat, ab as nat);
            } else if ab < aa {
                self.lemma_magnitude_increases(ab as nat, aa as nat);
            }
        }
        if na {
            if nb {
                ab <= aa
            } else {
                true
            }
        } else {
            if nb {
                aa == 0 && ab == 0
            } else {
                aa <= ab
            }
        }
    }

    /// Whether the number of the first pattern is strictly greater than
    /// that of the second; false where either is a NaN.
    pub fn gt_bits(self, a: u64, b: u64) -> (r: bool)
        requires
            self.wf(),
            self.valid(a),
            self.valid(b),
        ensures
            r == self.value(a).gt(self.value(b)),
    {
        !self.is_nan(a) && !self.is_nan(b) && !self.le_bits(a, b)
    }

    /// The pattern of the rounded sum or difference of the magnitudes of
    /// two finite patterns without sign, the first no smaller than the
    /// second.
    pub fn combine_magnitudes(self, hi: u64, lo: u64, minus: bool) -> (r: u64)
        requires
            self.wf(),
            lo <= hi < self.infinity_bits(),
        ensures
            r <= self.infinity_bits(),
            self.magnitude(lo as nat) <= self.magnitude(hi as nat),
            self.value(r) == self.round(
                if minus {
                    (self.magnitude(hi as nat) - self.magnitude(lo as nat)) as nat
                } else {
                    self.magnitude(hi as nat) + self.magnitude(lo as nat)
                },
                0,
            ),
    {
        let (mh, eh) = self.decode(hi);
        let (ml, el) = self.decode(lo);
        let ghost h = self.hidden();
        let ghost big_mag = self.magnitude(hi as nat);
        let ghost small_mag = self.magnitude(lo as nat);
        let ghost exact: nat = if minus {
            (big_mag - small_mag) as nat
        } else {
            big_mag + small_mag
        };
        proof {
            self.lemma_layout();
            if lo < hi {
                self.lemma_magnitude_increases(lo as nat, hi as nat);
            }
            assert(eh >= el) by (nonlinear_arith)
                requires
                    hi >= lo,
                    hi == eh * h + mh,
                    lo == el * h + ml,
                    mh < 2 * h,
                    el > 0 ==> ml >= h,
                    ml >= 0,
                    h > 0,
            ;
        }
        let d: u32 = eh - el;
        let p: u32 = self.frac_bits + 1;
        let ghost pd = pow2(d as nat);
        let ghost pe = pow2(el as nat);
        proof {
            lemma_pow2_adds(d as nat, el as nat);
            lemma_pow2_pos(el as nat);
            lemma_pow2_pos(d as nat);
            lemma_mul_is_associative(mh as int, pd as int, pe as int);
            assert(mh * pd >= ml) by (nonlinear_arith)
                requires
                    big_mag == mh * pd * pe,
                    small_mag == ml * pe,
                    big_mag >= small_mag,
                    pe > 0,
            ;
        }
        let ghost s: nat = if minus {
            (mh * pd - ml) as nat
        } else {
            (mh * pd + ml) as nat
        };
        proof {
            if minus {
                assert(exact == s * pe) by (nonlinear_arith)
                    requires
                        big_mag == mh * pd * pe,
                        small_mag == ml * pe,
                        exact == big_mag - small_mag,
                        s == mh * pd - ml,
                ;
            } else {
                assert(exact == s * pe) by (nonlinear_arith)
                    requires
                        big_mag == mh * pd * pe,
                        small_mag == ml * pe,
                        exact == big_mag + small_mag,
                        s == mh * pd + ml,
                ;
            }
            self.lemma_round_magnitude_scaled(s, el as nat, 0);
        }
        if d >= p + 2 {
            proof {
                self.lemma_round_far_apart(mh as nat, ml as nat, d as nat, el as nat, minus);
                self.lemma_magnitude_increases(hi as nat, self.infinity_bits());
                self.lemma_value_with_sign(hi);
            }
            return hi;
        }
        proof {
            lemma2_to64();
            lemma2_to64_rest();
            lemma_pow2_monotonic(d as nat, 54);
            assert(mh * pd < 0x800_0000_0000_0000_0000_0000_0000) by (nonlinear_arith)
                requires
                    mh < 0x20_0000_0000_0000,
                    0 < pd <= 0x40_0000_0000_0000,
            ;
        }
        let big: u128 = (mh as u128) * pow2_u128(d);
        let sum: u128 = if minus {
            big - ml as u128
        } else {
            big + ml as u128
        };
        self.round_to_bits(sum, el as i32)
    }

    /// The pattern of `|a - b|`, computed as the format computes it: the
    /// exact difference rounded to nearest, then its sign dropped.
    pub fn abs_diff_bits(self, a: u64, b: u64) -> (r: u64)
        requires
            self.wf(),
            self.valid(a),
            self.valid(b),
        ensures
            self.valid(r),
            !self.sign_is_set(r),
            self.value(r) == self.sub(self.value(a), self.value(b)).abs(),
    {
        let aa = self.clear_sign(a);
        let ab = self.clear_sign(b);
        let inf = self.infinity();
        let na = self.is_negative(a);
        let nb = self.is_negative(b);
        proof {
            self.lemma_layout();
            self.lemma_value_parts(a);
            self.lemma_value_parts(b);
            self.lemma_value_with_sign(inf);
        }
        if aa > inf || ab > inf {
            return self.nan();
        }
        if aa == inf || ab == inf {
            if aa == inf && ab == inf && na == nb {
                return self.nan();
            }
            return inf;
        }
        let r = if aa >= ab {
            self.combine_magnitudes(aa, ab, na == nb)
        } else {
            self.combine_magnitudes(ab, aa, na == nb)
        };
        proof {
            let va: int = if na {
                -(self.magnitude(aa as nat) as int)
            } else {
                self.magnitude(aa as nat) as int
            };
            let vb: int = if nb {
                -(self.magnitude(ab as nat) as int)
            } else {
                self.magnitude(ab as nat) as int
            };
            assert(self.value(a) == Value::Finite(va));
            assert(self.value(b) == Value::Finite(vb));
            self.lemma_round_signed_abs(va - vb, 0);
            self.lemma_value_with_sign(r);
        }
        r
    }

    /// The least positive subnormal is `2^-unit_exponent()`.
    pub fn unit_exponent(self) -> (b: i32)
        requires
            self.wf(),
        ensures
            b == self.unit_shift(),
    {
        proof {
            self.lemma_layout();
            lemma2_to64();
            lemma_pow2_monotonic((self.exp_bits - 1) as nat, 10);
        }
        pow2_u128(self.exp_bits - 1) as i32 + self.frac_bits as i32 - 2
    }

    /// The pattern of the rounded product of the magnitudes of two finite
    /// patterns without sign.
    pub fn multiply_magnitudes(self, x: u64, y: u64) -> (r: u64)
        requires
            self.wf(),
            x < self.infinity_bits(),
            y < self.infinity_bits(),
        ensures
            r <= self.infinity_bits(),
            self.value(r) == self.round(
                self.magnitude(x as nat) * self.magnitude(y as nat),
                -(self.unit_shift() as int),
            ),
    {
        let (mx, ex) = self.decode(x);
        let (my, ey) = self.decode(y);
        let shift = self.unit_exponent();
        let ghost px = pow2(ex as nat);
        let ghost py = pow2(ey as nat);
        proof {
            self.lemma_layout();
            assert(mx * my < 0x400_0000_0000_0000_0000_0000_0000) by (nonlinear_arith)
                requires
                    mx < 0x20_0000_0000_0000,
                    my < 0x20_0000_0000_0000,
            ;
        }
        let prod: u128 = (mx as u128) * (my as u128);
        let e: i32 = ex as i32 + ey as i32 - shift;
        proof {
            lemma_pow2_adds(ex as nat, ey as nat);
            assert(self.magnitude(x as nat) * self.magnitude(y as nat) == prod * pow2(
                (ex + ey) as nat,
            )) by (nonlinear_arith)
                requires
                    self.magnitude(x as nat) == mx * px,
                    self.magnitude(y as nat) == my * py,
                    prod == mx * my,
                    pow2((ex + ey) as nat) == px * py,
            ;
            self.lemma_round_magnitude_scaled(
                prod as nat,
                (ex + ey) as nat,
                -(self.unit_shift() as int),
            );
        }
        self.round_to_bits(prod, e)
    }

    /// The pattern of `a * b`, computed as the format computes it: the
    /// exact product rounded to nearest.
    pub fn mul_bits(self, a: u64, b: u64) -> (r: u64)
        requires
            self.wf(),
            self.valid(a),
            self.valid(b),
        ensures
            self.valid(r),
            self.value(r) == self.mul(self.value(a), self.value(b)),
            !self.value(r).is_nan() ==> self.sign_is_set(r) == (self.sign_is_set(a)
                != self.sign_is_set(b)),
    {
        let aa = self.clear_sign(a);
        let ab = self.clear_sign(b);
        let inf = self.infinity();
        let na = self.is_negative(a);
        let nb = self.is_negative(b);
        let sign = self.sign_bit();
        proof {
            self.lemma_layout();
            self.lemma_value_parts(a);
            self.lemma_value_parts(b);
            self.lemma_value_with_sign(inf);
        }
        if aa > inf || ab > inf {
            return self.nan();
        }
        if aa == inf || ab == inf {
            if aa == 0 || ab == 0 {
                return self.nan();
            }
            return if na != nb {
                inf + sign
            } else {
                inf
            };
        }
        let r = self.multiply_magnitudes(aa, ab);
        proof {
            let mag_a = self.magnitude(aa as nat);
            let mag_b = self.magnitude(ab as nat);
            let va: int = if na {
                -(mag_a as int)
            } else {
                mag_a as int
            };
            let vb: int = if nb {
                -(mag_b as int)
            } else {
                mag_b as int
            };
            assert(self.value(a) == Value::Finite(va));
            assert(self.value(b) == Value::Finite(vb));
            self.lemma_round_magnitude_zero(-(self.unit_shift() as int));
            if na == nb {
                assert(va * vb == mag_a * mag_b) by (nonlinear_arith)
                    requires
                        (va == mag_a && vb == mag_b) || (va == -mag_a && vb == -mag_b),
                ;
            } else {
                assert(va * vb == -(mag_a * mag_b)) by (nonlinear_arith)
                    requires
                        (va == mag_a && vb == -mag_b) || (va == -mag_a && vb == mag_b),
                ;
                assert(mag_a * mag_b >= 0) by (nonlinear_arith)
                    requires
                        mag_a >= 0,
                        mag_b >= 0,
                ;
            }
            self.lemma_value_with_sign(r);
            let shift = -(self.unit_shift() as int);
            let rounded = self.round(mag_a * mag_b, shift);
            lemma_pow2_pos((self.frac_bits + self.max_biased() - 1) as nat);
            assert(self.mul(self.value(a), self.value(b)) == self.round_signed(va * vb, shift));
            if na == nb {
                assert(self.round_signed(va * vb, shift) == rounded);
            } else if mag_a * mag_b == 0 {
                assert(rounded == Value::Finite(0));
                assert(self.round_signed(va * vb, shift) == rounded.neg());
            } else {
                assert(self.round_signed(va * vb, shift) == rounded.neg());
            }
        }
        if na != nb {
            r + sign
        } else {
            r
        }
    }
}

} // verus!
