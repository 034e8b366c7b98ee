//! Numbers taken apart into sign, significand and exponent.
use crate::float::model::{Format, Value};
use vstd::arithmetic::power2;
use vstd::prelude::*;

verus! {

/// A number in parts. A finite one is its significand times two to the
/// exponent, in multiples of the smallest positive number of its format.
#[derive(Clone, Copy, Debug, PartialEq, Eq, Structural)]
pub enum Unpacked {
    Nan,
    Infinite { negative: bool },
    Finite { negative: bool, significand: u64, exponent: u32 },
}

impl View for Unpacked {
    type V = Value;

    open spec fn view(&self) -> Value {
        match *self {
            Unpacked::Nan => Value::Nan,
            Unpacked::Infinite { negative } => Value::Infinite { negative },
            Unpacked::Finite { negative, significand, exponent } => Value::Finite {
                negative,
                magnitude: significand as nat * power2::pow2(exponent as nat),
            },
        }
    }
}

impl Unpacked {
    /// The parts are those of a number of format `f`: the significand has at
    /// most as many bits as the format holds, and exactly as many unless the
    /// exponent is zero.
    pub open spec fn wf(self, f: Format) -> bool {
        match self {
            Unpacked::Finite { significand, exponent, .. } => {
                &&& significand < power2::pow2(f.precision() as nat)
                &&& exponent <= f.max_exponent()
                &&& exponent > 0 ==> significand >= power2::pow2((f.precision() - 1) as nat)
            },
            _ => true,
        }
    }
}

} // verus!
