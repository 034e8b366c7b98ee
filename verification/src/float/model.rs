//! What the numbers of a binary interchange format are, and what arithmetic on
//! them gives: the exact result, rounded to nearest with ties to even.
use vstd::arithmetic::power2;
use vstd::prelude::*;

verus! {

/// The two formats that audio data is held in: samples are single precision,
/// sample rates and positions double precision.
#[derive(Clone, Copy, Debug, PartialEq, Eq, Structural)]
pub enum Format {
    Single,
    Double,
}

impl Format {
    /// The number of bits in a significand.
    #[verifier::allow_in_spec]
    pub fn precision(self) -> u32
        returns
            (match self {
                Format::Single => 24u32,
                Format::Double => 53u32,
            }),
    {
        match self {
            Format::Single => 24,
            Format::Double => 53,
        }
    }

    /// The largest power of two that scales a significand, counted from the
    /// smallest positive number of the format.
    #[verifier::allow_in_spec]
    pub fn max_exponent(self) -> u32
        returns
            (match self {
                Format::Single => 253u32,
                Format::Double => 2045u32,
            }),
    {
        match self {
            Format::Single => 253,
            Format::Double => 2045,
        }
    }

    /// The smallest positive number of the format is two to the minus this.
    #[verifier::allow_in_spec]
    pub fn unit(self) -> u32
        returns
            (match self {
                Format::Single => 149u32,
                Format::Double => 1074u32,
            }),
    {
        match self {
            Format::Single => 149,
            Format::Double => 1074,
        }
    }
}

/// The number that a bit pattern stands for. Every finite number of a format is
/// a whole multiple of its smallest positive number, and `magnitude` counts
/// those multiples.
pub enum Value {
    Nan,
    Infinite { negative: bool },
    Finite { negative: bool, magnitude: nat },
}

/// How many of the smallest positive number of `f` make up one.
pub open spec fn one(f: Format) -> nat {
    power2::pow2(f.unit() as nat)
}

/// `k` is the exponent at which `num / den` fits a significand of `f`: the least
/// one for which the quotient by two to the `k` is below two to the precision.
pub open spec fn is_quantum(f: Format, num: nat, den: nat, k: nat) -> bool {
    &&& num < power2::pow2(f.precision() as nat + k) * den
    &&& k > 0 ==> num >= power2::pow2((f.precision() + k - 1) as nat) * den
}

/// The exponent at which `num / den` fits a significand of `f`.
pub open spec fn quantum(f: Format, num: nat, den: nat) -> nat {
    choose|k: nat| is_quantum(f, num, den, k)
}

/// The whole number nearest to `num / step`, the even one of two equally near.
pub open spec fn nearest_even(num: nat, step: nat) -> nat {
    let below = num / step;
    let rest = num % step;
    if 2 * rest < step || (2 * rest == step && below % 2 == 0) {
        below
    } else {
        below + 1
    }
}

/// The number of format `f` nearest to `num / den` times its smallest positive
/// number, ties to even, infinite where that exceeds the finite range.
pub open spec fn round(f: Format, negative: bool, num: nat, den: nat) -> Value {
    let scale = power2::pow2(quantum(f, num, den));
    let magnitude = nearest_even(num, den * scale) * scale;
    if magnitude < power2::pow2((f.precision() + f.max_exponent()) as nat) {
        Value::Finite { negative, magnitude }
    } else {
        Value::Infinite { negative }
    }
}

/// The whole number `n`, rounded to format `f`.
pub open spec fn whole(f: Format, n: nat) -> Value {
    round(f, false, n * one(f), 1)
}

/// A finite number with its sign, in multiples of the smallest positive number.
pub open spec fn signed(negative: bool, magnitude: nat) -> int {
    if negative {
        -(magnitude as int)
    } else {
        magnitude as int
    }
}

/// `a + b`. An exact zero is negative only where both terms are.
pub open spec fn sum(f: Format, a: Value, b: Value) -> Value {
    match (a, b) {
        (Value::Nan, _) => Value::Nan,
        (_, Value::Nan) => Value::Nan,
        (Value::Infinite { negative: x }, Value::Infinite { negative: y }) => if x == y {
            a
        } else {
            Value::Nan
        },
        (Value::Infinite { .. }, _) => a,
        (_, Value::Infinite { .. }) => b,
        (
            Value::Finite { negative: x, magnitude: m },
            Value::Finite { negative: y, magnitude: n },
        ) => {
            let s = signed(x, m) + signed(y, n);
            if s < 0 {
                round(f, true, (-s) as nat, 1)
            } else {
                round(f, s == 0 && x && y, s as nat, 1)
            }
        },
    }
}

/// `-a`.
pub open spec fn negated(a: Value) -> Value {
    match a {
        Value::Nan => Value::Nan,
        Value::Infinite { negative } => Value::Infinite { negative: !negative },
        Value::Finite { negative, magnitude } => Value::Finite { negative: !negative, magnitude },
    }
}

/// `a - b`.
pub open spec fn difference(f: Format, a: Value, b: Value) -> Value {
    sum(f, a, negated(b))
}

/// `a * b`.
pub open spec fn product(f: Format, a: Value, b: Value) -> Value {
    match (a, b) {
        (Value::Nan, _) => Value::Nan,
        (_, Value::Nan) => Value::Nan,
        (Value::Infinite { negative: x }, Value::Infinite { negative: y }) => Value::Infinite {
            negative: x != y,
        },
        (Value::Infinite { negative: x }, Value::Finite { negative: y, magnitude }) => if magnitude
            == 0 {
            Value::Nan
        } else {
            Value::Infinite { negative: x != y }
        },
        (Value::Finite { negative: x, magnitude }, Value::Infinite { negative: y }) => if magnitude
            == 0 {
            Value::Nan
        } else {
            Value::Infinite { negative: x != y }
        },
        (
            Value::Finite { negative: x, magnitude: m },
            Value::Finite { negative: y, magnitude: n },
        ) => round(f, x != y, m * n, one(f)),
    }
}

/// `a / b`.
pub open spec fn quotient(f: Format, a: Value, b: Value) -> Value {
    match (a, b) {
        (Value::Nan, _) => Value::Nan,
        (_, Value::Nan) => Value::Nan,
        (Value::Infinite { .. }, Value::Infinite { .. }) => Value::Nan,
        (Value::Infinite { negative: x }, Value::Finite { negative: y, .. }) => Value::Infinite {
            negative: x != y,
        },
        (Value::Finite { negative: x, .. }, Value::Infinite { negative: y }) => Value::Finite {
            negative: x != y,
            magnitude: 0,
        },
        (
            Value::Finite { negative: x, magnitude: m },
            Value::Finite { negative: y, magnitude: n },
        ) => if n != 0 {
            round(f, x != y, m * one(f), n)
        } else if m != 0 {
            Value::Infinite { negative: x != y }
        } else {
            Value::Nan
        },
    }
}

/// The number `a` of format `from`, rounded to format `to`.
pub open spec fn converted(from: Format, to: Format, a: Value) -> Value {
    match a {
        Value::Finite { negative, magnitude } => round(
            to,
            negative,
            magnitude * one(to),
            one(from),
        ),
        _ => a,
    }
}

/// `a == b`: nothing equals a NaN, and the two zeros are equal.
pub open spec fn equal(a: Value, b: Value) -> bool {
    match (a, b) {
        (Value::Infinite { negative: x }, Value::Infinite { negative: y }) => x == y,
        (
            Value::Finite { negative: x, magnitude: m },
            Value::Finite { negative: y, magnitude: n },
        ) => signed(x, m) == signed(y, n),
        _ => false,
    }
}

/// `n`, or the largest `usize` where `n` exceeds it.
pub open spec fn saturated(n: nat) -> usize {
    if n <= usize::MAX {
        n as usize
    } else {
        usize::MAX
    }
}

/// The whole number that is `a` rounded down, as an index: zero for a NaN and
/// below zero, the largest index above the range.
pub open spec fn floor_index(f: Format, a: Value) -> usize {
    match a {
        Value::Nan => 0,
        Value::Infinite { negative } => if negative {
            0
        } else {
            usize::MAX
        },
        Value::Finite { negative, magnitude } => if negative {
            0
        } else {
            saturated(magnitude / one(f))
        },
    }
}

/// The whole number nearest to `a`, a half rounded up, as a length of at least
/// one: one for a NaN, the largest length above the range.
pub open spec fn rounded_length(f: Format, a: Value) -> usize {
    match a {
        Value::Nan => 1,
        Value::Infinite { negative } => if negative {
            1
        } else {
            usize::MAX
        },
        Value::Finite { negative, magnitude } => {
            let nearest = (2 * magnitude + one(f)) / (2 * one(f));
            if negative || nearest == 0 {
                1
            } else {
                saturated(nearest)
            }
        },
    }
}

} // verus!
