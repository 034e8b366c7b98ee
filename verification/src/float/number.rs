//! Single- and double-precision numbers as their bit patterns.
use crate::float::arith;
use crate::float::laws;
use crate::float::model;
use crate::float::model::{Format, Value};
use crate::float::rounding;
use crate::float::unpacked::Unpacked;
use vstd::arithmetic::power2;
use vstd::prelude::*;

verus! {

/// The number that the bit pattern `bits` stands for in format `f`: a sign, an
/// exponent field and a fraction, from the high bits to the low ones.
pub open spec fn decoded(f: Format, bits: nat) -> Value {
    let fraction_range = power2::pow2((f.precision() - 1) as nat);
    let fields = (f.max_exponent() + 3) as nat;
    let fraction = bits % fraction_range;
    let field = (bits / fraction_range) % fields;
    let negative = bits / fraction_range / fields == 1;
    if field == fields - 1 {
        if fraction == 0 {
            Value::Infinite { negative }
        } else {
            Value::Nan
        }
    } else if field == 0 {
        Value::Finite { negative, magnitude: fraction }
    } else {
        Value::Finite {
            negative,
            magnitude: (fraction_range + fraction) * power2::pow2((field - 1) as nat),
        }
    }
}

/// A single-precision number.
#[derive(Clone, Copy, Debug, PartialEq, Eq, Structural)]
pub struct Single {
    pub bits: u32,
}

impl View for Single {
    type V = Value;

    open spec fn view(&self) -> Value {
        decoded(Format::Single, self.bits as nat)
    }
}

/// A double-precision number.
#[derive(Clone, Copy, Debug, PartialEq, Eq, Structural)]
pub struct Double {
    pub bits: u64,
}

impl View for Double {
    type V = Value;

    open spec fn view(&self) -> Value {
        decoded(Format::Double, self.bits as nat)
    }
}

/// The number of fractions that share one sign and exponent field.
fn fraction_range(f: Format) -> (r: u64)
    ensures
        r == power2::pow2((f.precision() - 1) as nat),
        f is Single ==> r == 0x80_0000,
        f is Double ==> r == 0x10_0000_0000_0000,
{
    proof {
        power2::lemma2_to64();
        power2::lemma2_to64_rest();
    }
    match f {
        Format::Single => 0x80_0000,
        Format::Double => 0x10_0000_0000_0000,
    }
}

/// A bit pattern put together from its fields.
pub proof fn lemma_fields(range: nat, fields: nat, sign: nat, field: nat, fraction: nat)
    requires
        fraction < range,
        field < fields,
    ensures
        ({
            let bits = (sign * fields + field) * range + fraction;
            &&& bits % range == fraction
            &&& (bits / range) % fields == field
            &&& bits / range / fields == sign
        }),
{
    let upper = sign * fields + field;
    let bits = upper * range + fraction;
    vstd::arithmetic::div_mod::lemma_fundamental_div_mod_converse(
        bits as int,
        range as int,
        upper as int,
        fraction as int,
    );
    vstd::arithmetic::div_mod::lemma_fundamental_div_mod_converse(
        upper as int,
        fields as int,
        sign as int,
        field as int,
    );
}

/// The number of bit patterns of format `f`.
pub open spec fn patterns(f: Format) -> nat {
    2 * ((f.max_exponent() + 3) as nat * power2::pow2((f.precision() - 1) as nat))
}

/// But for a NaN, a number has one bit pattern: what its value is settles its
/// bits.
pub proof fn law_number_has_one_pattern(f: Format, a: nat, b: nat)
    requires
        a < patterns(f),
        b < patterns(f),
        decoded(f, a) == decoded(f, b),
        decoded(f, a) !is Nan,
    ensures
        a == b,
{
    let range = power2::pow2((f.precision() - 1) as nat);
    let fields = (f.max_exponent() + 3) as nat;
    power2::lemma_pow2_pos((f.precision() - 1) as nat);
    power2::lemma_pow2_unfold(f.precision() as nat);
    power2::lemma2_to64();
    lemma_pattern_fields(range, fields, a);
    lemma_pattern_fields(range, fields, b);
    let (x, y) = ((a / range) % fields, (b / range) % fields);
    let (u, v) = (a % range, b % range);
    if x != fields - 1 {
        let (m, i) = if x == 0 {
            (u, 0nat)
        } else {
            (range + u, (x - 1) as nat)
        };
        let (n, j) = if y == 0 {
            (v, 0nat)
        } else {
            (range + v, (y - 1) as nat)
        };
        assert(u * power2::pow2(0) == u && v * power2::pow2(0) == v) by (nonlinear_arith)
            requires
                power2::pow2(0) == 1,
        ;
        lemma_parts_order(range, m, i, n, j);
        lemma_parts_order(range, n, j, m, i);
    }
}

/// A larger exponent makes a larger magnitude.
proof fn lemma_parts_order(half: nat, m: nat, i: nat, n: nat, j: nat)
    requires
        half > 0,
        m < 2 * half,
        j > 0 ==> n >= half,
        m * power2::pow2(i) == n * power2::pow2(j),
    ensures
        i >= j,
        i == j ==> m == n,
{
    let x = power2::pow2(i);
    let y = power2::pow2(j);
    power2::lemma_pow2_pos(i);
    power2::lemma_pow2_pos(j);
    if i < j {
        power2::lemma_pow2_unfold(i + 1);
        rounding::lemma_pow2_monotone(i + 1, j);
        assert(m * x < n * y) by {
            assert(m * x < (2 * half) * x) by (nonlinear_arith)
                requires
                    m < 2 * half,
                    x > 0,
            ;
            assert((2 * half) * x <= n * y) by (nonlinear_arith)
                requires
                    half <= n,
                    2 * x <= y,
            ;
        }
    }
    if i == j {
        assert(m == n) by (nonlinear_arith)
            requires
                m * x == n * x,
                x > 0,
        ;
    }
}

/// A bit pattern is its fields put together.
proof fn lemma_pattern_fields(range: nat, fields: nat, bits: nat)
    requires
        range > 0,
        fields > 0,
        bits < 2 * (fields * range),
    ensures
        bits == ((bits / range / fields) * fields + (bits / range) % fields) * range + bits % range,
        bits / range / fields < 2,
        bits % range < range,
        (bits / range) % fields < fields,
{
    let upper = bits / range;
    vstd::arithmetic::div_mod::lemma_fundamental_div_mod(bits as int, range as int);
    vstd::arithmetic::div_mod::lemma_fundamental_div_mod(upper as int, fields as int);
    let sign = upper / fields;
    assert(upper == sign * fields + upper % fields) by (nonlinear_arith)
        requires
            upper == fields * sign + upper % fields,
    ;
    assert(bits == upper * range + bits % range) by (nonlinear_arith)
        requires
            bits == range * upper + bits % range,
    ;
    assert(sign < 2) by (nonlinear_arith)
        requires
            upper == sign * fields + upper % fields,
            upper % fields >= 0,
            bits == upper * range + bits % range,
            bits % range >= 0,
            bits < 2 * (fields * range),
            range > 0,
            fields > 0,
    {
        if sign >= 2 {
            assert(upper >= 2 * fields);
            assert(upper * range >= (2 * fields) * range);
        }
    }
}

/// The magnitude of a finite number is one that the format holds.
pub proof fn lemma_finite_is_representable(f: Format, bits: nat)
    requires
        decoded(f, bits) is Finite,
    ensures
        laws::representable(f, decoded(f, bits)->magnitude),
{
    let range = power2::pow2((f.precision() - 1) as nat);
    let fields = (f.max_exponent() + 3) as nat;
    let fraction = bits % range;
    let field = (bits / range) % fields;
    power2::lemma_pow2_pos((f.precision() - 1) as nat);
    power2::lemma_pow2_unfold(f.precision() as nat);
    power2::lemma2_to64();
    if field == 0 {
        assert(fraction * power2::pow2(0) == fraction) by (nonlinear_arith)
            requires
                power2::pow2(0) == 1,
        ;
        assert(laws::is_parts(f, fraction, fraction, 0));
    } else {
        assert(laws::is_parts(
            f,
            decoded(f, bits)->magnitude,
            range + fraction,
            (field - 1) as nat,
        ));
    }
}

/// Takes a bit pattern of format `f` apart.
pub fn unpack(f: Format, bits: u64) -> (r: Unpacked)
    ensures
        r.wf(f),
        r@ == decoded(f, bits as nat),
{
    let range = fraction_range(f);
    let fields = f.max_exponent() as u64 + 3;
    let fraction = bits % range;
    let field = (bits / range) % fields;
    let negative = bits / range / fields == 1;
    proof {
        power2::lemma2_to64();
        power2::lemma_pow2_unfold(f.precision() as nat);
        assert(fraction * power2::pow2(0) == fraction) by (nonlinear_arith)
            requires
                power2::pow2(0) == 1,
        ;
    }
    if field == fields - 1 {
        if fraction == 0 {
            Unpacked::Infinite { negative }
        } else {
            Unpacked::Nan
        }
    } else if field == 0 {
        Unpacked::Finite { negative, significand: fraction, exponent: 0 }
    } else {
        Unpacked::Finite { negative, significand: range + fraction, exponent: (field - 1) as u32 }
    }
}

/// Puts the bit pattern of a number of format `f` together. Every NaN becomes
/// the quiet one without a payload.
pub fn pack(f: Format, parts: Unpacked) -> (bits: u64)
    requires
        parts.wf(f),
    ensures
        decoded(f, bits as nat) == parts@,
        f is Single ==> bits <= u32::MAX,
{
    let range = fraction_range(f);
    let fields = f.max_exponent() as u64 + 3;
    proof {
        power2::lemma2_to64();
        power2::lemma_pow2_unfold(f.precision() as nat);
    }
    match parts {
        Unpacked::Nan => {
            proof {
                lemma_fields(range as nat, fields as nat, 0, (fields - 1) as nat, (range / 2) as nat);
            }
            (fields - 1) * range + range / 2
        },
        Unpacked::Infinite { negative } => {
            let sign: u64 = if negative { 1 } else { 0 };
            proof {
                lemma_fields(range as nat, fields as nat, sign as nat, (fields - 1) as nat, 0);
            }
            (sign * fields + (fields - 1)) * range
        },
        Unpacked::Finite { negative, significand, exponent } => {
            let sign: u64 = if negative { 1 } else { 0 };
            if significand < range {
                proof {
                    lemma_fields(range as nat, fields as nat, sign as nat, 0, significand as nat);
                    assert(significand * power2::pow2(0) == significand) by (nonlinear_arith)
                        requires
                            power2::pow2(0) == 1,
                    ;
                }
                sign * fields * range + significand
            } else {
                let field = exponent as u64 + 1;
                let fraction = significand - range;
                proof {
                    lemma_fields(
                        range as nat,
                        fields as nat,
                        sign as nat,
                        field as nat,
                        fraction as nat,
                    );
                }
                (sign * fields + field) * range + fraction
            }
        },
    }
}

impl Single {
    /// The number with this bit pattern.
    pub fn from_bits(bits: u32) -> (r: Single)
        ensures
            r.bits == bits,
    {
        Single { bits }
    }

    /// The bit pattern.
    pub fn to_bits(self) -> (bits: u32)
        ensures
            bits == self.bits,
    {
        self.bits
    }

    fn unpack(self) -> (r: Unpacked)
        ensures
            r.wf(Format::Single),
            r@ == self@,
    {
        unpack(Format::Single, self.bits as u64)
    }

    fn pack(parts: Unpacked) -> (r: Single)
        requires
            parts.wf(Format::Single),
        ensures
            r@ == parts@,
    {
        Single { bits: pack(Format::Single, parts) as u32 }
    }

    /// The number nearest to `m` times two to the `up`, divided by two to the
    /// `down`, with the given sign.
    pub fn scaled(negative: bool, m: u32, up: u16, down: u16) -> (r: Single)
        ensures
            r@ == model::round(
                Format::Single,
                negative,
                m as nat * power2::pow2((up + Format::Single.unit()) as nat),
                power2::pow2(down as nat),
            ),
    {
        proof {
            power2::lemma2_to64();
            power2::lemma2_to64_rest();
            rounding::lemma_pow2_monotone(64, 127);
        }
        Single::pack(
            arith::scaled(
                Format::Single,
                negative,
                m as u128,
                up as u32 + Format::Single.unit(),
                down as u32,
            ),
        )
    }

    /// `self + other`.
    pub fn plus(self, other: Single) -> (r: Single)
        ensures
            r@ == model::sum(Format::Single, self@, other@),
    {
        Single::pack(arith::sum(Format::Single, self.unpack(), other.unpack()))
    }

    /// `self - other`.
    pub fn minus(self, other: Single) -> (r: Single)
        ensures
            r@ == model::difference(Format::Single, self@, other@),
    {
        Single::pack(arith::difference(Format::Single, self.unpack(), other.unpack()))
    }

    /// `self * other`.
    pub fn times(self, other: Single) -> (r: Single)
        ensures
            r@ == model::product(Format::Single, self@, other@),
    {
        Single::pack(arith::product(Format::Single, self.unpack(), other.unpack()))
    }
}

impl Double {
    /// The number with this bit pattern.
    pub fn from_bits(bits: u64) -> (r: Double)
        ensures
            r.bits == bits,
    {
        Double { bits }
    }

    /// The bit pattern.
    pub fn to_bits(self) -> (bits: u64)
        ensures
            bits == self.bits,
    {
        self.bits
    }

    fn unpack(self) -> (r: Unpacked)
        ensures
            r.wf(Format::Double),
            r@ == self@,
    {
        unpack(Format::Double, self.bits)
    }

    fn pack(parts: Unpacked) -> (r: Double)
        requires
            parts.wf(Format::Double),
        ensures
            r@ == parts@,
    {
        Double { bits: pack(Format::Double, parts) }
    }

    /// The whole number `n`, rounded where it takes more than 53 bits.
    pub fn from_whole(n: u64) -> (r: Double)
        ensures
            r@ == model::whole(Format::Double, n as nat),
    {
        Double::pack(arith::whole(Format::Double, n))
    }

    /// `self - other`.
    pub fn minus(self, other: Double) -> (r: Double)
        ensures
            r@ == model::difference(Format::Double, self@, other@),
    {
        Double::pack(arith::difference(Format::Double, self.unpack(), other.unpack()))
    }

    /// `self * other`.
    pub fn times(self, other: Double) -> (r: Double)
        ensures
            r@ == model::product(Format::Double, self@, other@),
    {
        Double::pack(arith::product(Format::Double, self.unpack(), other.unpack()))
    }

    /// `self / other`.
    pub fn over(self, other: Double) -> (r: Double)
        ensures
            r@ == model::quotient(Format::Double, self@, other@),
    {
        Double::pack(arith::quotient(Format::Double, self.unpack(), other.unpack()))
    }

    /// `self == other` as numbers: a NaN differs from everything.
    pub fn equals(self, other: Double) -> (r: bool)
        ensures
            r == model::equal(self@, other@),
    {
        arith::equal(Format::Double, self.unpack(), other.unpack())
    }

    /// The nearest single-precision number.
    pub fn to_single(self) -> (r: Single)
        ensures
            r@ == model::converted(Format::Double, Format::Single, self@),
    {
        Single::pack(arith::converted(Format::Double, Format::Single, self.unpack()))
    }

    /// `self` rounded down, as an index.
    pub fn floor_index(self) -> (r: usize)
        ensures
            r == model::floor_index(Format::Double, self@),
    {
        arith::floor_index(Format::Double, self.unpack())
    }

    /// `self` rounded to the nearest whole number, as a length of at least one.
    pub fn rounded_length(self) -> (r: usize)
        ensures
            r == model::rounded_length(Format::Double, self@),
    {
        arith::rounded_length(Format::Double, self.unpack())
    }
}

} // verus!
