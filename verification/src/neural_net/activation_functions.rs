//! Activation functions.
//!
//! The library never computes with real numbers. A weight or an activation
//! value is carried as the bit pattern of an IEEE 754 single-precision
//! number, and whoever evaluates a network applies the function named by
//! the tag.

use crate::chance::random_below;
use vstd::prelude::*;

verus! {

/// The function a node applies to the weighted sum of its inputs.
#[derive(Copy, Clone, PartialEq, Eq, Debug, Structural)]
pub enum ActivationFunction {
    /// The identity.
    Identity,
    /// `1 / (1 + exp(-x))`.
    Sigmoid,
    /// `x` above zero, zero elsewhere.
    ReLU,
    /// `x` from zero up, a tenth of `x` below.
    LReLU,
    /// The hyperbolic tangent.
    Tanh,
}

/// The bits of the single-precision number 1.
pub const BITS_OF_ONE: u32 = 0x3F80_0000;

/// The bits of the single-precision number 4.
pub const BITS_OF_FOUR: u32 = 0x4080_0000;

/// The bits of the single-precision number nearest to 2.37.
pub const BITS_OF_TANH_NEUTRAL: u32 = 0x4017_AE14;

impl ActivationFunction {
    /// The five functions in their fixed order.
    pub open spec fn at(i: int) -> ActivationFunction {
        if i == 0 {
            ActivationFunction::Identity
        } else if i == 1 {
            ActivationFunction::Sigmoid
        } else if i == 2 {
            ActivationFunction::ReLU
        } else if i == 3 {
            ActivationFunction::LReLU
        } else {
            ActivationFunction::Tanh
        }
    }

    /// The bits of the neutral value: the argument at which the function is
    /// 1 or close to it. It is 1 for the identity and both rectifiers, 4 for
    /// the sigmoid and 2.37 for the hyperbolic tangent.
    pub open spec fn neutral_bits(self) -> u32 {
        match self {
            ActivationFunction::Identity => BITS_OF_ONE,
            ActivationFunction::Sigmoid => BITS_OF_FOUR,
            ActivationFunction::ReLU => BITS_OF_ONE,
            ActivationFunction::LReLU => BITS_OF_ONE,
            ActivationFunction::Tanh => BITS_OF_TANH_NEUTRAL,
        }
    }

    pub fn get_neutral_value(&self) -> (bits: u32)
        ensures
            bits == self.neutral_bits(),
    {
        match self {
            ActivationFunction::Identity => BITS_OF_ONE,
            ActivationFunction::Sigmoid => BITS_OF_FOUR,
            ActivationFunction::ReLU => BITS_OF_ONE,
            ActivationFunction::LReLU => BITS_OF_ONE,
            ActivationFunction::Tanh => BITS_OF_TANH_NEUTRAL,
        }
    }

    /// The function at a position of the fixed order.
    pub fn from_index(i: usize) -> (f: ActivationFunction)
        requires
            i < 5,
        ensures
            f == Self::at(i as int),
    {
        if i == 0 {
            ActivationFunction::Identity
        } else if i == 1 {
            ActivationFunction::Sigmoid
        } else if i == 2 {
            ActivationFunction::ReLU
        } else if i == 3 {
            ActivationFunction::LReLU
        } else {
            ActivationFunction::Tanh
        }
    }

    /// The position of the function in the fixed order.
    pub fn to_index(self) -> (i: usize)
        ensures
            i < 5,
            Self::at(i as int) == self,
    {
        match self {
            ActivationFunction::Identity => 0,
            ActivationFunction::Sigmoid => 1,
            ActivationFunction::ReLU => 2,
            ActivationFunction::LReLU => 3,
            ActivationFunction::Tanh => 4,
        }
    }

    /// One of the five functions, drawn evenly.
    pub fn choose_random() -> (f: ActivationFunction)
        ensures
            exists|i: int| 0 <= i < 5 && f == Self::at(i),
    {
        let i = random_below(5);
        Self::from_index(i)
    }
}

} // verus!
