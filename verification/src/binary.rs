//! The two common formats as types: a number is held as its bit pattern,
//! and seen in contracts as the value that the pattern denotes.

use crate::format::{Format, Value};
use vstd::arithmetic::div_mod::*;
use vstd::arithmetic::power2::*;
use vstd::prelude::*;

verus! {

/// A number of an interchange format whose arithmetic this library has.
pub trait Float: Copy {
    /// What the number is.
    spec fn value(&self) -> Value;

    fn is_nan(&self) -> (r: bool)
        ensures
            r == self.value().is_nan(),
    ;

    fn is_infinite(&self) -> (r: bool)
        ensures
            r == self.value().is_infinite(),
    ;
}

/// A number in the format of 32 bits.
#[derive(Clone, Copy, Debug)]
pub struct Binary32 {
    pub bits: u32,
}

/// A number in the format of 64 bits.
#[derive(Clone, Copy, Debug)]
pub struct Binary64 {
    pub bits: u64,
}

impl View for Binary32 {
    type V = Value;

    open spec fn view(&self) -> Value {
        Format::binary32().value(self.bits as u64)
    }
}

impl View for Binary64 {
    type V = Value;

    open spec fn view(&self) -> Value {
        Format::binary64().value(self.bits)
    }
}

impl Binary32 {
    /// Every pattern of 32 bits is one of the format.
    pub proof fn lemma_valid(self)
        ensures
            Format::binary32().wf(),
            Format::binary32().valid(self.bits as u64),
    {
        lemma2_to64();
    }

    pub fn from_bits(bits: u32) -> (r: Binary32)
        ensures
            r.bits == bits,
    {
        Binary32 { bits }
    }

    pub fn to_bits(self) -> (bits: u32)
        ensures
            bits == self.bits,
    {
        self.bits
    }

    /// The distance from one to the next larger number: `2^-23`, which is
    /// `2^126` units.
    pub fn epsilon() -> (r: Binary32)
        ensures
            r.bits == 0x3400_0000,
            r@ == Value::Finite(pow2(126) as int),
    {
        proof {
            Self::lemma_epsilon_is_the_step_at_one();
        }
        Binary32 { bits: 0x3400_0000 }
    }

    /// `epsilon` is the step from one to the number next above it: one
    /// is `2^149` units, and the next pattern denotes `2^126` units more.
    pub proof fn lemma_epsilon_is_the_step_at_one()
        ensures
            Format::binary32().value(0x3f80_0000) == Value::Finite(pow2(149) as int),
            Format::binary32().value(0x3f80_0001) == Value::Finite((pow2(149) + pow2(126)) as int),
            Format::binary32().value(0x3400_0000) == Value::Finite(pow2(126) as int),
    {
        let fmt = Format::binary32();
        let h = fmt.hidden();
        fmt.lemma_layout();
        lemma2_to64();
        lemma_fundamental_div_mod_converse(0x3f80_0000, h as int, 127, 0);
        lemma_fundamental_div_mod_converse(0x3f80_0001, h as int, 127, 1);
        lemma_fundamental_div_mod_converse(0x3400_0000, h as int, 104, 0);
        lemma_pow2_adds(23, 126);
        lemma_pow2_adds(23, 103);
        let step = pow2(126);
        assert((h + 1) * step == h * step + step) by (nonlinear_arith);
    }

    /// The magnitude: the same pattern with the sign bit cleared.
    pub fn abs(self) -> (r: Binary32)
        ensures
            r.bits == Format::binary32().abs_bits(self.bits as u64),
            r@ == self@.abs(),
    {
        proof {
            self.lemma_valid();
            lemma2_to64();
        }
        Binary32 { bits: Format::binary32().clear_sign(self.bits as u64) as u32 }
    }
}

impl Float for Binary32 {
    open spec fn value(&self) -> Value {
        self@
    }

    fn is_nan(&self) -> (r: bool) {
        proof {
            self.lemma_valid();
        }
        Format::binary32().is_nan(self.bits as u64)
    }

    fn is_infinite(&self) -> (r: bool) {
        proof {
            self.lemma_valid();
        }
        Format::binary32().is_infinite(self.bits as u64)
    }
}

impl Binary64 {
    /// Every pattern of 64 bits is one of the format.
    pub proof fn lemma_valid(self)
        ensures
            Format::binary64().wf(),
            Format::binary64().valid(self.bits),
    {
        lemma2_to64();
        lemma2_to64_rest();
    }

    pub fn from_bits(bits: u64) -> (r: Binary64)
        ensures
            r.bits == bits,
    {
        Binary64 { bits }
    }

    pub fn to_bits(self) -> (bits: u64)
        ensures
            bits == self.bits,
    {
        self.bits
    }

    /// The distance from one to the next larger number: `2^-52`, which is
    /// `2^1022` units.
    pub fn epsilon() -> (r: Binary64)
        ensures
            r.bits == 0x3cb0_0000_0000_0000,
            r@ == Value::Finite(pow2(1022) as int),
    {
        proof {
            Self::lemma_epsilon_is_the_step_at_one();
        }
        Binary64 { bits: 0x3cb0_0000_0000_0000 }
    }

    /// `epsilon` is the step from one to the number next above it: one
    /// is `2^1074` units, and the next pattern denotes `2^1022` units more.
    pub proof fn lemma_epsilon_is_the_step_at_one()
        ensures
            Format::binary64().value(0x3ff0_0000_0000_0000) == Value::Finite(pow2(1074) as int),
            Format::binary64().value(0x3ff0_0000_0000_0001) == Value::Finite(
                (pow2(1074) + pow2(1022)) as int,
            ),
            Format::binary64().value(0x3cb0_0000_0000_0000) == Value::Finite(pow2(1022) as int),
    {
        let fmt = Format::binary64();
        let h = fmt.hidden();
        fmt.lemma_layout();
        lemma2_to64();
        lemma2_to64_rest();
        lemma_fundamental_div_mod_converse(0x3ff0_0000_0000_0000, h as int, 1023, 0);
        lemma_fundamental_div_mod_converse(0x3ff0_0000_0000_0001, h as int, 1023, 1);
        lemma_fundamental_div_mod_converse(0x3cb0_0000_0000_0000, h as int, 971, 0);
        lemma_pow2_adds(52, 1022);
        lemma_pow2_adds(52, 970);
        let step = pow2(1022);
        assert((h + 1) * step == h * step + step) by (nonlinear_arith);
    }

    /// The magnitude: the same pattern with the sign bit cleared.
    pub fn abs(self) -> (r: Binary64)
        ensures
            r.bits == Format::binary64().abs_bits(self.bits),
            r@ == self@.abs(),
    {
        proof {
            self.lemma_valid();
        }
        Binary64 { bits: Format::binary64().clear_sign(self.bits) }
    }
}

impl Float for Binary64 {
    open spec fn value(&self) -> Value {
        self@
    }

    fn is_nan(&self) -> (r: bool) {
        proof {
            self.lemma_valid();
        }
        Format::binary64().is_nan(self.bits)
    }

    fn is_infinite(&self) -> (r: bool) {
        proof {
            self.lemma_valid();
        }
        Format::binary64().is_infinite(self.bits)
    }
}

} // verus!
