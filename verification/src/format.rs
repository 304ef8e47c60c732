//! Binary interchange formats and the numbers that their bit patterns denote.
//!
//! A bit pattern holds, from the top, a sign bit, a biased exponent and a
//! fraction.  Every finite number of a format is a whole multiple of its
//! least positive subnormal, so the model counts in that unit: the finite
//! values are integers, and no fractions are needed anywhere.

use crate::power::{lemma_pow2_monotonic, pow2_u128};
use vstd::arithmetic::div_mod::*;
use vstd::arithmetic::mul::*;
use vstd::arithmetic::power2::*;
use vstd::prelude::*;

verus! {

/// What a bit pattern denotes.  A finite value is counted in units of the
/// least positive subnormal of its format; both zeros denote `Finite(0)`.
pub enum Value {
    Nan,
    NegInf,
    Finite(int),
    PosInf,
}

impl Value {
    pub open spec fn is_nan(self) -> bool {
        self is Nan
    }

    pub open spec fn is_infinite(self) -> bool {
        self is PosInf || self is NegInf
    }

    pub open spec fn is_finite(self) -> bool {
        self is Finite
    }

    /// Equality of numbers: a NaN equals nothing, itself included.
    pub open spec fn equals(self, other: Value) -> bool {
        !self.is_nan() && self == other
    }

    /// The order of the extended reals; false whenever a NaN takes part.
    pub open spec fn le(self, other: Value) -> bool {
        match (self, other) {
            (Value::Nan, _) => false,
            (_, Value::Nan) => false,
            (Value::NegInf, _) => true,
            (_, Value::PosInf) => true,
            (Value::Finite(a), Value::Finite(b)) => a <= b,
            _ => false,
        }
    }

    /// Strictly greater; false whenever a NaN takes part.
    pub open spec fn gt(self, other: Value) -> bool {
        !self.is_nan() && !other.is_nan() && !self.le(other)
    }

    pub open spec fn neg(self) -> Value {
        match self {
            Value::Nan => Value::Nan,
            Value::NegInf => Value::PosInf,
            Value::Finite(v) => Value::Finite(-v),
            Value::PosInf => Value::NegInf,
        }
    }

    pub open spec fn abs(self) -> Value {
        match self {
            Value::Nan => Value::Nan,
            Value::NegInf => Value::PosInf,
            Value::Finite(v) => Value::Finite(
                if v < 0 {
                    -v
                } else {
                    v
                },
            ),
            Value::PosInf => Value::PosInf,
        }
    }

    /// `other` where it is strictly greater, and `self` otherwise (so also
    /// where a NaN takes part).
    pub open spec fn larger(self, other: Value) -> Value {
        if other.gt(self) {
            other
        } else {
            self
        }
    }
}

/// A binary interchange format: the widths of the fraction and of the
/// biased exponent.  One sign bit comes on top.
#[derive(Clone, Copy, Debug)]
pub struct Format {
    pub frac_bits: u32,
    pub exp_bits: u32,
}

impl Format {
    /// The formats that this library computes in: patterns of at most 64
    /// bits.
    pub open spec fn wf(self) -> bool {
        1 <= self.frac_bits <= 52 && 2 <= self.exp_bits <= 11
    }

    /// The number of significant bits, the implicit one included.
    pub open spec fn precision(self) -> nat {
        (self.frac_bits + 1) as nat
    }

    /// The weight of the implicit bit: the least normal significand.
    pub open spec fn hidden(self) -> nat {
        pow2(self.frac_bits as nat)
    }

    /// The weight of the sign bit in a pattern.
    pub open spec fn sign_weight(self) -> nat {
        pow2((self.frac_bits + self.exp_bits) as nat)
    }

    /// The biased exponent of infinities and NaNs: all ones.
    pub open spec fn max_biased(self) -> nat {
        (pow2(self.exp_bits as nat) - 1) as nat
    }

    /// The pattern of positive infinity.
    pub open spec fn infinity_bits(self) -> nat {
        self.max_biased() * self.hidden()
    }

    /// The least positive subnormal is `2^-unit_shift()`.
    pub open spec fn unit_shift(self) -> nat {
        (pow2((self.exp_bits - 1) as nat) + self.frac_bits - 2) as nat
    }

    /// The patterns of the format: those that fit its width.
    pub open spec fn valid(self, x: u64) -> bool {
        x < 2 * self.sign_weight()
    }

    /// A pattern with its sign bit cleared.
    pub open spec fn abs_bits(self, x: u64) -> nat {
        if x >= self.sign_weight() {
            (x - self.sign_weight()) as nat
        } else {
            x as nat
        }
    }

    /// Whether the sign bit of a pattern is set.
    pub open spec fn sign_is_set(self, x: u64) -> bool {
        x >= self.sign_weight()
    }

    /// The number, in units, that a pattern without sign denotes when read
    /// as a finite one: the fraction itself while the biased exponent is
    /// zero, and else the significand doubled once for each step of the
    /// biased exponent above one.
    pub open spec fn magnitude(self, a: nat) -> nat {
        let h = self.hidden();
        if a < h {
            a
        } else {
            (h + a % h) * pow2((a / h - 1) as nat)
        }
    }

    /// What a pattern denotes.
    pub open spec fn value(self, x: u64) -> Value {
        let a = self.abs_bits(x);
        if a > self.infinity_bits() {
            Value::Nan
        } else if a == self.infinity_bits() {
            if self.sign_is_set(x) {
                Value::NegInf
            } else {
                Value::PosInf
            }
        } else if self.sign_is_set(x) {
            Value::Finite(-(self.magnitude(a) as int))
        } else {
            Value::Finite(self.magnitude(a) as int)
        }
    }

    /// The least magnitude, in units, that is too large to be finite: what
    /// the pattern of infinity would denote if it were read as a number.
    pub open spec fn overflow_threshold(self) -> nat {
        pow2((self.frac_bits + self.max_biased() - 1) as nat)
    }

    /// What `binary32` returns.
    pub open spec fn spec_binary32() -> Format {
        Format { frac_bits: 23, exp_bits: 8 }
    }

    /// What `binary64` returns.
    pub open spec fn spec_binary64() -> Format {
        Format { frac_bits: 52, exp_bits: 11 }
    }

    /// The format of 32 bits: 8 of exponent, 23 of fraction.
    #[verifier::when_used_as_spec(spec_binary32)]
    pub fn binary32() -> (f: Format)
        ensures
            f == Format::spec_binary32(),
            f.wf(),
    {
        Format { frac_bits: 23, exp_bits: 8 }
    }

    /// The format of 64 bits: 11 of exponent, 52 of fraction.
    #[verifier::when_used_as_spec(spec_binary64)]
    pub fn binary64() -> (f: Format)
        ensures
            f == Format::spec_binary64(),
            f.wf(),
    {
        Format { frac_bits: 52, exp_bits: 11 }
    }

    /// The implicit bit of a normal significand.
    pub fn hidden_bit(self) -> (h: u64)
        requires
            self.wf(),
        ensures
            h == self.hidden(),
    {
        proof {
            self.lemma_layout();
        }
        pow2_u128(self.frac_bits) as u64
    }

    /// The sign bit: the pattern of negative zero.
    pub fn sign_bit(self) -> (s: u64)
        requires
            self.wf(),
        ensures
            s == self.sign_weight(),
    {
        proof {
            self.lemma_layout();
        }
        pow2_u128(self.frac_bits + self.exp_bits) as u64
    }

    /// The pattern of positive infinity.
    pub fn infinity(self) -> (i: u64)
        requires
            self.wf(),
        ensures
            i == self.infinity_bits(),
    {
        proof {
            self.lemma_layout();
        }
        self.sign_bit() - self.hidden_bit()
    }

    /// The pattern of a NaN: the exponent all ones, the top fraction bit set.
    pub fn nan(self) -> (n: u64)
        requires
            self.wf(),
        ensures
            n == self.infinity_bits() + self.hidden() / 2,
            self.valid(n),
            self.value(n) is Nan,
    {
        proof {
            self.lemma_layout();
        }
        self.infinity() + self.hidden_bit() / 2
    }

    /// Whether the sign bit of a pattern is set.
    pub fn is_negative(self, x: u64) -> (r: bool)
        requires
            self.wf(),
        ensures
            r == self.sign_is_set(x),
    {
        x >= self.sign_bit()
    }

    /// A pattern with its sign bit cleared.
    pub fn clear_sign(self, x: u64) -> (a: u64)
        requires
            self.wf(),
            self.valid(x),
        ensures
            a == self.abs_bits(x),
            a < self.sign_weight(),
            self.valid(a),
            self.value(a) == self.value(x).abs(),
    {
        let s = self.sign_bit();
        let a = if x >= s {
            x - s
        } else {
            x
        };
        proof {
            self.lemma_layout();
        }
        a
    }

    /// Whether a pattern is a NaN.
    pub fn is_nan(self, x: u64) -> (r: bool)
        requires
            self.wf(),
            self.valid(x),
        ensures
            r == self.value(x).is_nan(),
    {
        self.clear_sign(x) > self.infinity()
    }

    /// Whether a pattern is one of the two infinities.
    pub fn is_infinite(self, x: u64) -> (r: bool)
        requires
            self.wf(),
            self.valid(x),
        ensures
            r == self.value(x).is_infinite(),
    {
        self.clear_sign(x) == self.infinity()
    }

    /// The significand and the scale of a finite pattern without sign: the
    /// pattern denotes `m * 2^e` units.
    pub fn decode(self, a: u64) -> (parts: (u64, u32))
        requires
            self.wf(),
            a < self.infinity_bits(),
        ensures
            parts.0 * pow2(parts.1 as nat) == self.magnitude(a as nat),
            a == parts.1 * self.hidden() + parts.0,
            parts.0 < 2 * self.hidden(),
            parts.1 > 0 ==> parts.0 >= self.hidden(),
            parts.1 + 2 <= self.max_biased(),
    {
        let h = self.hidden_bit();
        proof {
            self.lemma_layout();
            lemma2_to64();
            lemma_fundamental_div_mod(a as int, h as int);
            lemma_mod_bound(a as int, h as int);
        }
        if a < h {
            proof {
                assert(a * pow2(0) == a);
            }
            (a, 0)
        } else {
            let e = a / h;
            let f = a % h;
            proof {
                let mb = self.max_biased();
                assert(e < mb) by (nonlinear_arith)
                    requires
                        a == h * e + f,
                        a < mb * h,
                        f >= 0,
                        h > 0,
                ;
                assert(e >= 1) by (nonlinear_arith)
                    requires
                        a == h * e + f,
                        a >= h,
                        f < h,
                        h > 0,
                ;
                assert(a == (e - 1) * h + (h + f)) by (nonlinear_arith)
                    requires
                        a == h * e + f,
                ;
                assert(self.magnitude(a as nat) == (h + f) * pow2((e - 1) as nat));
            }
            (h + f, (e - 1) as u32)
        }
    }

    /// The sizes of the parts of a pattern, as far as the proofs need them.
    pub proof fn lemma_layout(self)
        requires
            self.wf(),
        ensures
            1 < self.hidden() <= 0x10_0000_0000_0000,
            3 <= self.max_biased() <= 2047,
            self.sign_weight() == (self.max_biased() + 1) * self.hidden(),
            self.infinity_bits() + self.hidden() == self.sign_weight(),
            self.infinity_bits() >= 3 * self.hidden(),
            self.sign_weight() <= 0x8000_0000_0000_0000,
            1 <= self.unit_shift() <= 1074,
            self.magnitude(self.infinity_bits()) == self.overflow_threshold(),
    {
        let f = self.frac_bits as nat;
        let w = self.exp_bits as nat;
        lemma2_to64();
        lemma2_to64_rest();
        lemma_pow2_monotonic(1, f);
        lemma_pow2_monotonic(f, 52);
        lemma_pow2_monotonic(2, w);
        lemma_pow2_monotonic(w, 11);
        lemma_pow2_monotonic(1, (w - 1) as nat);
        lemma_pow2_monotonic((w - 1) as nat, 10);
        lemma_pow2_adds(w, f);
        lemma_pow2_monotonic(f + w, 63);
        let h = self.hidden();
        let mb = self.max_biased();
        assert((mb + 1) * h == mb * h + h) by (nonlinear_arith);
        assert(mb * h >= 3 * h) by (nonlinear_arith)
            requires
                mb >= 3,
                h >= 0,
        ;
        assert(pow2(w) * pow2(f) == pow2(f + w)) by {
            lemma_mul_is_commutative(pow2(w) as int, pow2(f) as int);
        }
        assert(self.magnitude(self.infinity_bits()) == self.overflow_threshold()) by {
            let a = self.infinity_bits();
            assert(a >= h) by (nonlinear_arith)
                requires
                    a == mb * h,
                    mb >= 3,
                    h > 0,
            ;
            lemma_fundamental_div_mod_converse(a as int, h as int, mb as int, 0);
            lemma_pow2_adds(f, (mb - 1) as nat);
        }
    }

    /// Larger patterns denote larger magnitudes.
    pub proof fn lemma_magnitude_increases(self, a: nat, b: nat)
        requires
            a < b,
        ensures
            self.magnitude(a) < self.magnitude(b),
    {
        let h = self.hidden();
        lemma_pow2_pos(self.frac_bits as nat);
        let ea = a / h;
        let fa = a % h;
        let eb = b / h;
        let fb = b % h;
        lemma_fundamental_div_mod(a as int, h as int);
        lemma_fundamental_div_mod(b as int, h as int);
        lemma_div_is_ordered(a as int, b as int, h as int);
        if b < h {
        } else {
            assert(eb >= 1) by {
                lemma_div_is_ordered(h as int, b as int, h as int);
                lemma_div_basics(h as int);
            }
            let pb = pow2((eb - 1) as nat);
            lemma_pow2_pos((eb - 1) as nat);
            if a < h {
                assert((h + fb) * pb >= h) by (nonlinear_arith)
                    requires
                        pb >= 1,
                        fb >= 0,
                        h > 0,
                ;
            } else {
                assert(ea >= 1) by {
                    lemma_div_is_ordered(h as int, a as int, h as int);
                    lemma_div_basics(h as int);
                }
                let pa = pow2((ea - 1) as nat);
                lemma_pow2_pos((ea - 1) as nat);
                if ea == eb {
                    assert(fa < fb) by (nonlinear_arith)
                        requires
                            a < b,
                            a == h * ea + fa,
                            b == h * ea + fb,
                    ;
                    assert((h + fa) * pa < (h + fb) * pa) by (nonlinear_arith)
                        requires
                            fa < fb,
                            pa > 0,
                    ;
                } else {
                    lemma_pow2_unfold(ea);
                    lemma_pow2_monotonic(ea, (eb - 1) as nat);
                    let pm = pow2(ea);
                    assert((h + fa) * pa < h * pm) by (nonlinear_arith)
                        requires
                            fa < h,
                            pa > 0,
                            pm == 2 * pa,
                    ;
                    assert(h * pm <= (h + fb) * pb) by (nonlinear_arith)
                        requires
                            pm <= pb,
                            fb >= 0,
                            h > 0,
                    ;
                }
            }
        }
    }

    /// The pattern `t * hidden + q` denotes `q * 2^t`, for a significand
    /// `q` that is normal or has just been rounded up out of its binade,
    /// and for any `q` up to there on the lowest scale.
    pub proof fn lemma_magnitude_of_parts(self, t: nat, q: nat)
        requires
            q <= 2 * self.hidden(),
            t == 0 || self.hidden() <= q,
        ensures
            self.magnitude(t * self.hidden() + q) == q * pow2(t),
    {
        let h = self.hidden();
        lemma_pow2_pos(self.frac_bits as nat);
        lemma2_to64();
        let a = t * h + q;
        if q < h {
            assert(t * h == 0) by (nonlinear_arith)
                requires
                    t == 0,
            ;
        } else if q < 2 * h {
            assert(a == h * (t + 1) + (q - h)) by (nonlinear_arith)
                requires
                    a == t * h + q,
            ;
            lemma_fundamental_div_mod_converse(a as int, h as int, (t + 1) as int, (q - h) as int);
            assert(a >= h) by (nonlinear_arith)
                requires
                    a == t * h + q,
                    q >= h,
                    t >= 0,
                    h > 0,
            ;
        } else {
            assert(a == h * (t + 2) + 0) by (nonlinear_arith)
                requires
                    a == t * h + q,
                    q == 2 * h,
            ;
            lemma_fundamental_div_mod_converse(a as int, h as int, (t + 2) as int, 0);
            assert(a >= h) by (nonlinear_arith)
                requires
                    a == h * (t + 2),
                    t >= 0,
                    h > 0,
            ;
            lemma_pow2_unfold(t + 1);
            let p = pow2(t);
            assert(h * (2 * p) == (2 * h) * p) by (nonlinear_arith);
        }
    }
}

} // verus!
