//! Rounding to nearest, ties to even, onto the numbers of a format.
//!
//! The number to round is given exactly, as `n * 2^e` units with a natural
//! `n` and an integer `e`; sums, differences and products of finite numbers
//! of a format all have that shape.

use crate::format::{Format, Value};
use crate::power::{
    bit_length, bit_length_u128, lemma_bit_length_below, lemma_bit_length_bounds,
    lemma_bit_length_scaled, lemma_pow2_monotonic, pow2_u128,
};
use vstd::arithmetic::div_mod::*;
use vstd::arithmetic::mul::*;
use vstd::arithmetic::power2::*;
use vstd::prelude::*;

verus! {

/// `n / 2^k` rounded to the nearest integer; halfway between two integers
/// the even one is taken.
pub open spec fn round_half_even(n: nat, k: nat) -> nat {
    let q = n / pow2(k);
    let r = n % pow2(k);
    if 2 * r > pow2(k) || (2 * r == pow2(k) && q % 2 == 1) {
        q + 1
    } else {
        q
    }
}

/// Scaling the number and the divisor alike does not change the rounding.
pub proof fn lemma_round_half_even_scaled(n: nat, j: nat, k: nat)
    ensures
        round_half_even(n * pow2(j), k + j) == round_half_even(n, k),
{
    let pj = pow2(j);
    let pk = pow2(k);
    lemma_pow2_pos(j);
    lemma_pow2_pos(k);
    lemma_pow2_adds(k, j);
    lemma_mul_is_commutative(pk as int, pj as int);
    lemma_mul_is_commutative(n as int, pj as int);
    lemma_div_multiples_vanish_quotient(pj as int, n as int, pk as int);
    lemma_truncate_middle(n as int, pj as int, pk as int);
    let r = n % pk;
    assert((n * pj) % (pj * pk) == pj * r);
    assert((2 * (pj * r) > pj * pk) == (2 * r > pk)) by (nonlinear_arith)
        requires
            pj > 0,
    ;
    assert((2 * (pj * r) == pj * pk) == (2 * r == pk)) by (nonlinear_arith)
        requires
            pj > 0,
    ;
}

/// A multiple of the divisor is divided exactly.
pub proof fn lemma_round_half_even_exact(n: nat, j: nat, k: nat)
    requires
        k <= j,
    ensures
        round_half_even(n * pow2(j), k) == n * pow2((j - k) as nat),
{
    let pk = pow2(k);
    let pd = pow2((j - k) as nat);
    lemma_pow2_pos(k);
    lemma_pow2_adds((j - k) as nat, k);
    assert(n * pow2(j) == (n * pd) * pk + 0) by (nonlinear_arith)
        requires
            pow2(j) == pd * pk,
    ;
    lemma_fundamental_div_mod_converse((n * pow2(j)) as int, pk as int, (n * pd) as int, 0);
}

/// Rounding does not take a number below the multiple of the divisor under
/// it, nor above the one over it.
pub proof fn lemma_round_half_even_bounds(n: nat, k: nat)
    ensures
        n / pow2(k) <= round_half_even(n, k) <= n / pow2(k) + 1,
        n < pow2(k) && 2 * n < pow2(k) ==> round_half_even(n, k) == 0,
{
    lemma_pow2_pos(k);
    if n < pow2(k) {
        lemma_small_mod(n, pow2(k));
        lemma_basic_div(n as int, pow2(k) as int);
    }
}

impl Format {
    /// The scale on which `n * 2^e` is rounded: representable numbers near
    /// it are the multiples of `2^spacing_exponent` units.  It leaves the
    /// number as many significant bits as the format has, and is zero
    /// where the number is in the range of the subnormals.
    pub open spec fn spacing_exponent(self, n: nat, e: int) -> int {
        let t = bit_length(n) + e - self.precision();
        if t > 0 {
            t
        } else {
            0
        }
    }

    /// `n * 2^e` units, rounded to the nearest multiple of its spacing, a
    /// tie going to the even multiple.  The result is in units.
    pub open spec fn round_magnitude(self, n: nat, e: int) -> nat {
        let t = self.spacing_exponent(n, e);
        if t <= e {
            n * pow2(e as nat)
        } else {
            round_half_even(n, (t - e) as nat) * pow2(t as nat)
        }
    }

    /// The number of the format nearest to `n * 2^e` units: infinite where
    /// the rounded magnitude is too large to be finite.
    pub open spec fn round(self, n: nat, e: int) -> Value {
        let m = self.round_magnitude(n, e);
        if m >= self.overflow_threshold() {
            Value::PosInf
        } else {
            Value::Finite(m as int)
        }
    }

    /// The rounded number counted in spacings instead of units: the
    /// significand of the result.
    pub open spec fn round_significand(self, n: nat, e: int) -> nat {
        let t = self.spacing_exponent(n, e);
        if t <= e {
            n * pow2((e - t) as nat)
        } else {
            round_half_even(n, (t - e) as nat)
        }
    }

    /// The pattern that denotes the rounded magnitude, were there no
    /// largest exponent.
    pub open spec fn round_pattern(self, n: nat, e: int) -> nat {
        if n == 0 {
            0
        } else {
            (self.spacing_exponent(n, e) * self.hidden() + self.round_significand(n, e)) as nat
        }
    }

    /// How far `m` units are from `n * 2^e` units.  Where `e` is negative
    /// the distance is counted in units of `2^e`, so that it is whole.
    pub open spec fn distance(m: nat, n: nat, e: int) -> nat {
        let d = m * pow2(Self::down(e)) - n * pow2(Self::up(e));
        if d >= 0 {
            d as nat
        } else {
            (-d) as nat
        }
    }

    /// `e` where it is positive, and zero otherwise.
    pub open spec fn up(e: int) -> nat {
        if e >= 0 {
            e as nat
        } else {
            0
        }
    }

    /// `-e` where `e` is negative, and zero otherwise.
    pub open spec fn down(e: int) -> nat {
        if e < 0 {
            (-e) as nat
        } else {
            0
        }
    }

    /// Zero rounds to zero.
    pub proof fn lemma_round_magnitude_zero(self, e: int)
        ensures
            self.round_magnitude(0, e) == 0,
    {
        assert(bit_length(0) == 0);
        let t = self.spacing_exponent(0, e);
        if t > e {
            lemma_round_half_even_bounds(0, (t - e) as nat);
            lemma_pow2_pos((t - e) as nat);
        }
        assert(self.round_magnitude(0, e) == 0) by (nonlinear_arith)
            requires
                self.round_magnitude(0, e) == 0 * pow2(e as nat) || self.round_magnitude(0, e) == 0
                    * pow2(t as nat),
        ;
    }

    /// Rounding sees the number, not the way it is written: moving a
    /// power of two between `n` and the exponent changes nothing.
    pub proof fn lemma_round_magnitude_scaled(self, n: nat, j: nat, e: int)
        ensures
            self.round_magnitude(n * pow2(j), e) == self.round_magnitude(n, e + j),
    {
        let pj = pow2(j);
        lemma_pow2_pos(j);
        if n == 0 {
            assert(n * pj == 0) by (nonlinear_arith)
                requires
                    n == 0,
            ;
            self.lemma_round_magnitude_zero(e);
            self.lemma_round_magnitude_zero(e + j);
        } else {
            lemma_bit_length_scaled(n, j);
            let t = self.spacing_exponent(n, e + j);
            assert(t == self.spacing_exponent(n * pj, e));
            if t <= e {
                lemma_pow2_adds(j, e as nat);
                lemma_mul_is_associative(n as int, pj as int, pow2(e as nat) as int);
            } else if t <= e + j {
                let k = (t - e) as nat;
                lemma_round_half_even_exact(n, j, k);
                lemma_pow2_adds((j - k) as nat, t as nat);
                lemma_mul_is_associative(
                    n as int,
                    pow2((j - k) as nat) as int,
                    pow2(t as nat) as int,
                );
            } else {
                lemma_round_half_even_scaled(n, j, (t - e - j) as nat);
            }
        }
    }

    /// The rounded magnitude is its significand on the scale of the
    /// spacing, and that significand is one of the format: it has no more
    /// bits than the precision, and is normal above the lowest scale.  So
    /// the rounded magnitude is what `round_pattern` denotes.
    pub proof fn lemma_round_parts(self, n: nat, e: int)
        requires
            self.wf(),
            n > 0,
        ensures
            self.round_magnitude(n, e) == self.round_significand(n, e) * pow2(
                self.spacing_exponent(n, e) as nat,
            ),
            self.round_significand(n, e) <= 2 * self.hidden(),
            self.spacing_exponent(n, e) == 0 || self.hidden() <= self.round_significand(n, e),
            self.spacing_exponent(n, e) > e ==> n / pow2((self.spacing_exponent(n, e) - e) as nat)
                < 2 * self.hidden(),
            self.spacing_exponent(n, e) > e && self.spacing_exponent(n, e) > 0 ==> self.hidden()
                <= n / pow2((self.spacing_exponent(n, e) - e) as nat),
            self.magnitude(self.round_pattern(n, e)) == self.round_magnitude(n, e),
    {
        let h = self.hidden();
        let p = self.precision();
        let l = bit_length(n);
        let t = self.spacing_exponent(n, e);
        let q = self.round_significand(n, e);
        self.lemma_layout();
        lemma_bit_length_bounds(n);
        lemma_pow2_unfold(p);
        if t <= e {
            let sh = (e - t) as nat;
            let ps = pow2(sh);
            lemma_pow2_pos(sh);
            lemma_pow2_adds(l, sh);
            lemma_pow2_monotonic(l + sh, p);
            lemma_mul_strict_inequality(n as int, pow2(l) as int, ps as int);
            lemma_pow2_adds(sh, t as nat);
            lemma_mul_is_associative(n as int, ps as int, pow2(t as nat) as int);
            if t > 0 {
                lemma_pow2_adds((l - 1) as nat, sh);
                lemma_mul_inequality(pow2((l - 1) as nat) as int, n as int, ps as int);
            }
        } else {
            let k = (t - e) as nat;
            let pk = pow2(k);
            let quo = n / pk;
            let rem = n % pk;
            lemma_pow2_pos(k);
            lemma_fundamental_div_mod(n as int, pk as int);
            lemma_mod_bound(n as int, pk as int);
            lemma_pow2_monotonic(l, p + k);
            lemma_pow2_adds(p, k);
            let pp = pow2(p);
            assert(quo < pp) by (nonlinear_arith)
                requires
                    n == pk * quo + rem,
                    n < pp * pk,
                    rem >= 0,
                    pk > 0,
            ;
            if t > 0 {
                lemma_pow2_adds(self.frac_bits as nat, k);
                assert(quo >= h) by (nonlinear_arith)
                    requires
                        n == pk * quo + rem,
                        n >= h * pk,
                        rem < pk,
                        pk > 0,
                ;
            }
        }
        self.lemma_magnitude_of_parts(t as nat, q);
    }

    /// No number of the format is nearer to `n * 2^e` than the rounded
    /// one: not the number that any pattern `a` denotes.
    pub proof fn lemma_round_is_nearest(self, n: nat, e: int, a: nat)
        requires
            self.wf(),
        ensures
            Self::distance(self.round_magnitude(n, e), n, e) <= Self::distance(
                self.magnitude(a),
                n,
                e,
            ),
    {
        self.lemma_round_distances(n, e, a);
    }

    /// Where another number of the format is as near to `n * 2^e` as the
    /// rounded one, the rounded one is the even of the two: the last bit
    /// of its pattern is zero.
    pub proof fn lemma_round_ties_to_even(self, n: nat, e: int, a: nat)
        requires
            self.wf(),
            self.magnitude(a) != self.round_magnitude(n, e),
            Self::distance(self.magnitude(a), n, e) == Self::distance(
                self.round_magnitude(n, e),
                n,
                e,
            ),
        ensures
            self.round_pattern(n, e) % 2 == 0,
    {
        self.lemma_round_distances(n, e, a);
    }

    /// Rounding does not step over a number of the format: what is at
    /// most such a number stays at most it, and what is at least such a
    /// number stays at least it.
    pub proof fn lemma_round_keeps_order(self, n: nat, e: int, a: nat)
        requires
            self.wf(),
        ensures
            n * pow2(Self::up(e)) <= self.magnitude(a) * pow2(Self::down(e))
                ==> self.round_magnitude(n, e) <= self.magnitude(a),
            n * pow2(Self::up(e)) >= self.magnitude(a) * pow2(Self::down(e))
                ==> self.round_magnitude(n, e) >= self.magnitude(a),
    {
        let s = pow2(Self::down(e));
        let rounded = self.round_magnitude(n, e);
        let other = self.magnitude(a);
        lemma_pow2_pos(Self::down(e));
        self.lemma_round_is_nearest(n, e, a);
        assert((rounded > other ==> rounded * s > other * s) && (rounded < other ==> rounded * s
            < other * s)) by (nonlinear_arith)
            requires
                s > 0,
        ;
    }

    /// Rounding keeps the order of what it is given.
    pub proof fn lemma_round_monotonic(self, n1: nat, n2: nat, e: int)
        requires
            self.wf(),
            n1 <= n2,
        ensures
            self.round_magnitude(n1, e) <= self.round_magnitude(n2, e),
    {
        let r1 = self.round_magnitude(n1, e);
        let r2 = self.round_magnitude(n2, e);
        let c = pow2(Self::up(e));
        let s = pow2(Self::down(e));
        lemma_pow2_pos(Self::up(e));
        lemma_pow2_pos(Self::down(e));
        if n1 == 0 {
            self.lemma_round_magnitude_zero(e);
        } else {
            self.lemma_round_parts(n1, e);
            self.lemma_round_parts(n2, e);
            self.lemma_round_is_nearest(n1, e, self.round_pattern(n2, e));
            self.lemma_round_is_nearest(n2, e, self.round_pattern(n1, e));
            if r1 > r2 {
                assert(r1 * s > r2 * s) by (nonlinear_arith)
                    requires
                        r1 > r2,
                        s > 0,
                ;
                assert(n1 * c <= n2 * c) by (nonlinear_arith)
                    requires
                        n1 <= n2,
                        c > 0,
                ;
                assert(n1 * c == n2 * c ==> n1 == n2) by (nonlinear_arith)
                    requires
                        c > 0,
                ;
            }
        }
    }

    /// Where `n * 2^e` is not a number of the format, it lies from the
    /// number `q * 2^t` up to, and short of, the next one, `(q + 1) * 2^t`,
    /// for the spacing `2^t` and the whole part `q` of `n * 2^e / 2^t`; and
    /// it is rounded to one of the two.
    proof fn lemma_neighbours(self, n: nat, e: int)
        requires
            self.wf(),
            n > 0,
            self.spacing_exponent(n, e) > e,
        ensures
            ({
                let t = self.spacing_exponent(n, e) as nat;
                let q = n / pow2((t - e) as nat);
                let sig = self.round_significand(n, e);
                let below = t * self.hidden() + q;
                &&& self.magnitude(below) == q * pow2(t)
                &&& self.magnitude(below + 1) == (q + 1) * pow2(t)
                &&& sig == q || sig == q + 1
                &&& self.round_magnitude(n, e) == sig * pow2(t)
                &&& self.round_pattern(n, e) == t * self.hidden() + sig
                &&& self.round_pattern(n, e) % 2 == sig % 2
            }),
    {
        let h = self.hidden();
        let t = self.spacing_exponent(n, e) as nat;
        let q = n / pow2((t - e) as nat);
        let sig = self.round_significand(n, e);
        self.lemma_round_parts(n, e);
        self.lemma_magnitude_of_parts(t, q);
        self.lemma_magnitude_of_parts(t, q + 1);
        // The pattern is even exactly where the significand is.
        lemma_pow2_unfold(self.frac_bits as nat);
        let half_h = pow2((self.frac_bits - 1) as nat);
        let pairs = t * half_h;
        assert(t * h == 2 * pairs && pairs >= 0) by (nonlinear_arith)
            requires
                h == 2 * half_h,
                pairs == t * half_h,
                half_h >= 0,
        ;
        assert((2 * pairs + sig) % 2 == sig % 2);
        let below = (2 * pairs + q) as nat;
        assert(t * h + q == below && t * h + (q + 1) == below + 1) by (nonlinear_arith)
            requires
                t * h == 2 * pairs,
                below == 2 * pairs + q,
        ;
        assert(self.magnitude((below + 1) as nat) == (q + 1) * pow2(t));
        assert(self.round_pattern(n, e) == 2 * pairs + sig);
    }

    /// Of two neighbouring multiples of a spacing `w`, the one that
    /// rounding to nearest picks for a number between them, ties to the
    /// even multiple, is no further from the number than anything outside
    /// the two, and is the even one where something else is as near.
    proof fn lemma_nearer_of_two(q: int, w: int, down: int, up: int, picked: int, other: int)
        requires
            w == down + up,
            0 <= down,
            0 < up,
            picked == q || picked == q + 1,
            picked == q + 1 <==> (down > up || (down == up && q % 2 == 1)),
            other <= q * w || other >= (q + 1) * w,
        ensures
            ({
                let exact = q * w + down;
                let near = if picked * w >= exact {
                    picked * w - exact
                } else {
                    exact - picked * w
                };
                let far = if other >= exact {
                    other - exact
                } else {
                    exact - other
                };
                &&& near <= far
                &&& near == far && other != picked * w ==> picked % 2 == 0
            }),
    {
        assert((q + 1) * w == q * w + w) by (nonlinear_arith);
    }

    proof fn lemma_round_distances(self, n: nat, e: int, a: nat)
        requires
            self.wf(),
        ensures
            Self::distance(self.round_magnitude(n, e), n, e) <= Self::distance(
                self.magnitude(a),
                n,
                e,
            ),
            self.magnitude(a) != self.round_magnitude(n, e) && Self::distance(
                self.magnitude(a),
                n,
                e,
            ) == Self::distance(self.round_magnitude(n, e), n, e) ==> self.round_pattern(n, e) % 2
                == 0,
    {
        let t = self.spacing_exponent(n, e);
        let rounded = self.round_magnitude(n, e);
        let other = self.magnitude(a);
        // The number and the distances, on the finer of the two scales.
        let c = pow2(Self::up(e));
        let s = pow2(Self::down(e));
        lemma2_to64();
        lemma_pow2_pos(Self::up(e));
        lemma_pow2_pos(Self::down(e));
        assert(other * s == rounded * s ==> other == rounded) by (nonlinear_arith)
            requires
                s > 0,
        ;
        if n == 0 {
            self.lemma_round_magnitude_zero(e);
            assert(rounded * s - n * c == 0) by (nonlinear_arith)
                requires
                    rounded == 0,
                    n == 0,
            ;
        } else if t <= e {
            assert(rounded * s - n * c == 0) by (nonlinear_arith)
                requires
                    rounded == n * c,
                    s == 1,
            ;
        } else {
            self.lemma_neighbours(n, e);
            let k = (t - e) as nat;
            let pk = pow2(k);
            let g = pow2(t as nat);
            let q = n / pk;
            let r = n % pk;
            let sig = self.round_significand(n, e);
            let below = t * self.hidden() + q;
            lemma_pow2_pos(k);
            lemma_fundamental_div_mod(n as int, pk as int);
            lemma_mod_bound(n as int, pk as int);
            // One spacing, on the scale of the distances.
            let w = g * s;
            assert(w == pk * c) by {
                if e >= 0 {
                    lemma_pow2_adds(k, e as nat);
                } else {
                    lemma_pow2_adds(t as nat, (-e) as nat);
                }
            }
            if a < below {
                self.lemma_magnitude_increases(a, below as nat);
            } else if a > below + 1 {
                self.lemma_magnitude_increases((below + 1) as nat, a);
            }
            let down = r * c;
            let up = (pk - r) * c;
            assert(n * c == q * w + down && w == down + up && down >= 0 && up > 0)
                by (nonlinear_arith)
                requires
                    n == pk * q + r,
                    w == pk * c,
                    down == r * c,
                    up == (pk - r) * c,
                    0 <= r < pk,
                    c > 0,
            ;
            assert((2 * r > pk) == (down > up) && (2 * r == pk) == (down == up))
                by (nonlinear_arith)
                requires
                    down == r * c,
                    up == (pk - r) * c,
                    c > 0,
            ;
            assert(other * s <= q * w || other * s >= (q + 1) * w) by (nonlinear_arith)
                requires
                    other <= q * g || other >= (q + 1) * g,
                    w == g * s,
                    s > 0,
            ;
            assert(rounded * s == sig * w) by (nonlinear_arith)
                requires
                    rounded == sig * g,
                    w == g * s,
            ;
            Self::lemma_nearer_of_two(
                q as int,
                w as int,
                down as int,
                up as int,
                sig as int,
                (other * s) as int,
            );
        }
    }

    /// The pattern, without sign, of the number of the format nearest to
    /// `n * 2^e` units: that of infinity where the number is too large.
    pub fn round_to_bits(self, n: u128, e: i32) -> (r: u64)
        requires
            self.wf(),
            n < 0x1_0000_0000_0000_0000_0000_0000_0000,
            -8192 <= e <= 8192,
        ensures
            r == (if self.round_pattern(n as nat, e as int) >= self.infinity_bits() {
                self.infinity_bits()
            } else {
                self.round_pattern(n as nat, e as int)
            }),
            self.value(r) == self.round(n as nat, e as int),
    {
        let h = self.hidden_bit() as u128;
        let inf = self.infinity() as u128;
        proof {
            self.lemma_layout();
            lemma2_to64();
            lemma2_to64_rest();
            lemma_pow2_adds(64, 48);
            lemma_bit_length_below(n as nat, 112);
        }
        if n == 0 {
            proof {
                self.lemma_round_magnitude_zero(e as int);
                lemma_pow2_pos((self.frac_bits + self.max_biased() - 1) as nat);
            }
            return 0;
        }
        let p: i32 = (self.frac_bits + 1) as i32;
        let l: i32 = bit_length_u128(n) as i32;
        let t0: i32 = l + e - p;
        let t: i32 = if t0 > 0 {
            t0
        } else {
            0
        };
        let q: u128;
        proof {
            self.lemma_round_parts(n as nat, e as int);
            lemma_bit_length_bounds(n as nat);
        }
        if t <= e {
            q = n * pow2_u128((e - t) as u32);
        } else {
            let k: i32 = t - e;
            if k > l {
                proof {
                    lemma_pow2_monotonic(l as nat, (k - 1) as nat);
                    lemma_pow2_unfold(k as nat);
                    lemma_round_half_even_bounds(n as nat, k as nat);
                }
                q = 0;
            } else {
                let pk = pow2_u128(k as u32);
                let quo = n / pk;
                let rem = n % pk;
                let half = pk / 2;
                proof {
                    lemma_pow2_unfold(k as nat);
                }
                q = if rem > half || (rem == half && quo % 2 == 1) {
                    quo + 1
                } else {
                    quo
                };
            }
        }
        proof {
            assert(q == self.round_significand(n as nat, e as int));
            assert((t as u128) * h <= 8400 * h) by (nonlinear_arith)
                requires
                    0 <= t <= 8400,
                    h >= 0,
            ;
        }
        let bits = (t as u128) * h + q;
        proof {
            if bits > inf {
                self.lemma_magnitude_increases(inf as nat, bits as nat);
            } else if bits < inf {
                self.lemma_magnitude_increases(bits as nat, inf as nat);
            }
        }
        if bits >= inf {
            inf as u64
        } else {
            bits as u64
        }
    }
}

} // verus!
