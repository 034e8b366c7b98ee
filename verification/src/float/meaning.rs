//! What arithmetic and bit patterns promise.
use crate::float::laws;
use crate::float::model;
use crate::float::model::{Format, Value};
use crate::float::number;
use crate::float::rounding;
use vstd::arithmetic::power2;
use vstd::prelude::*;

verus! {

/// The distance of two numbers.
pub open spec fn apart(a: int, b: int) -> int {
    if a < b {
        b - a
    } else {
        a - b
    }
}

/// Two numbers are equal where both are the same infinity, or both are finite and
/// have one magnitude and one sign, which does not matter for zero. A NaN equals
/// nothing.
pub proof fn law_equality_is_that_of_numbers(a: Value, b: Value)
    ensures
        model::equal(a, b) <==> match (a, b) {
            (Value::Infinite { negative: x }, Value::Infinite { negative: y }) => x == y,
            (
                Value::Finite { negative: x, magnitude: m },
                Value::Finite { negative: y, magnitude: n },
            ) => m == n && (x == y || m == 0),
            _ => false,
        },
{
}

/// A NaN makes every result one.
pub proof fn law_nan_spreads(f: Format, a: Value)
    ensures
        model::sum(f, a, Value::Nan) is Nan,
        model::sum(f, Value::Nan, a) is Nan,
        model::difference(f, a, Value::Nan) is Nan,
        model::difference(f, Value::Nan, a) is Nan,
        model::product(f, a, Value::Nan) is Nan,
        model::product(f, Value::Nan, a) is Nan,
        model::quotient(f, a, Value::Nan) is Nan,
        model::quotient(f, Value::Nan, a) is Nan,
{
}

/// What infinities and zeros give.
pub proof fn law_infinities_and_zeros(f: Format, x: bool, y: bool, m: nat)
    ensures
        ({
            let far = Value::Infinite { negative: x };
            let other = Value::Infinite { negative: y };
            let finite = Value::Finite { negative: y, magnitude: m };
            let zero = Value::Finite { negative: y, magnitude: 0 };
            let signed = Value::Infinite { negative: x != y };
            &&& model::sum(f, far, finite) == far
            &&& model::sum(f, finite, far) == far
            &&& x == y ==> model::sum(f, far, other) == far
            &&& x != y ==> model::sum(f, far, other) is Nan
            &&& model::product(f, far, other) == signed
            &&& m > 0 ==> model::product(f, far, finite) == signed
            &&& m > 0 ==> model::product(f, finite, far) == signed
            &&& model::product(f, far, zero) is Nan
            &&& model::product(f, zero, far) is Nan
            &&& model::quotient(f, far, other) is Nan
            &&& model::quotient(f, far, finite) == signed
            &&& model::quotient(f, finite, far) == (Value::Finite { negative: x != y, magnitude: 0 })
            &&& m > 0 ==> model::quotient(
                f,
                finite,
                Value::Finite { negative: x, magnitude: 0 },
            ) == signed
            &&& model::quotient(f, zero, Value::Finite { negative: x, magnitude: 0 }) is Nan
        }),
{
}

/// A sum is the number nearest to the exact one, with its sign; an exact zero is
/// negative only where both terms are.
pub proof fn law_sum_is_nearest(f: Format, x: bool, m: nat, y: bool, n: nat, sign: bool, other: nat)
    requires
        laws::representable(f, other),
    ensures
        ({
            let exact = model::signed(x, m) + model::signed(y, n);
            model::sum(
                f,
                Value::Finite { negative: x, magnitude: m },
                Value::Finite { negative: y, magnitude: n },
            ) matches Value::Finite { negative, magnitude } ==> {
                &&& exact < 0 ==> negative
                &&& exact > 0 ==> !negative
                &&& exact == 0 ==> magnitude == 0 && negative == (x && y)
                &&& apart(model::signed(negative, magnitude), exact) <= apart(
                    model::signed(sign, other),
                    exact,
                )
            }
        }),
        model::signed(x, m) + model::signed(y, n) <= other && -(model::signed(x, m) + model::signed(
            y,
            n,
        )) <= other ==> model::sum(
            f,
            Value::Finite { negative: x, magnitude: m },
            Value::Finite { negative: y, magnitude: n },
        ) is Finite,
{
    let exact = model::signed(x, m) + model::signed(y, n);
    let size = (if exact < 0 {
        -exact
    } else {
        exact
    }) as nat;
    let negative = exact < 0 || (exact == 0 && x && y);
    let r = model::round(f, negative, size, 1);
    lemma_zero_is_representable(f);
    if size <= other {
        laws::law_rounding_stays_below(f, negative, size, 1, other);
    }
    if r is Finite {
        laws::law_rounded_is_nearest(f, negative, size, 1, other);
        laws::law_rounded_is_nearest(f, negative, size, 1, 0);
    }
}

proof fn lemma_zero_is_representable(f: Format)
    ensures
        laws::representable(f, 0),
{
    power2::lemma2_to64();
    power2::lemma_pow2_pos(f.precision() as nat);
    assert(0 * power2::pow2(0) == 0) by (nonlinear_arith);
    assert(laws::is_parts(f, 0, 0, 0));
}

/// The difference is the sum with the opposite, and the opposite has the other
/// sign alone.
pub proof fn law_difference_is_the_sum_with_the_opposite(f: Format, a: Value, x: bool, m: nat)
    ensures
        model::difference(f, a, Value::Finite { negative: x, magnitude: m }) == model::sum(
            f,
            a,
            Value::Finite { negative: !x, magnitude: m },
        ),
        model::difference(f, a, Value::Infinite { negative: x }) == model::sum(
            f,
            a,
            Value::Infinite { negative: !x },
        ),
{
}

/// A product is the number nearest to the exact one, infinite beyond the range,
/// and negative where one factor is.
pub proof fn law_product_is_nearest(f: Format, x: bool, m: nat, y: bool, n: nat, other: nat)
    requires
        laws::representable(f, other),
    ensures
        ({
            let r = model::product(
                f,
                Value::Finite { negative: x, magnitude: m },
                Value::Finite { negative: y, magnitude: n },
            );
            let one = power2::pow2(f.unit() as nat);
            &&& r matches Value::Finite { negative, magnitude } ==> negative == (x != y)
                && laws::distance(m * n, one, magnitude) <= laws::distance(m * n, one, other)
            &&& m * n <= other * one ==> r is Finite
            &&& m * n >= power2::pow2((f.precision() + f.max_exponent()) as nat) * one ==> r == (
            Value::Infinite { negative: x != y })
        }),
{
    let one = power2::pow2(f.unit() as nat);
    let negative = x != y;
    power2::lemma_pow2_pos(f.unit() as nat);
    lemma_rounded(f, negative, m * n, one, other);
}

proof fn lemma_rounded(f: Format, negative: bool, num: nat, den: nat, other: nat)
    requires
        den > 0,
        laws::representable(f, other),
    ensures
        model::round(f, negative, num, den) matches Value::Finite { negative: sign, magnitude }
            ==> sign == negative && laws::distance(num, den, magnitude) <= laws::distance(
            num,
            den,
            other,
        ),
        num <= other * den ==> model::round(f, negative, num, den) is Finite,
        num >= power2::pow2((f.precision() + f.max_exponent()) as nat) * den ==> model::round(
            f,
            negative,
            num,
            den,
        ) == (Value::Infinite { negative }),
{
    if num <= other * den {
        laws::law_rounding_stays_below(f, negative, num, den, other);
    }
    if model::round(f, negative, num, den) is Finite {
        laws::law_rounded_is_nearest(f, negative, num, den, other);
    }
    if num >= power2::pow2((f.precision() + f.max_exponent()) as nat) * den {
        laws::law_overflow_is_infinite(f, negative, num, den);
    }
}

/// A whole number becomes the number nearest to it.
pub proof fn law_whole_is_nearest(f: Format, n: nat, other: nat)
    requires
        laws::representable(f, other),
    ensures
        ({
            let exact = n * power2::pow2(f.unit() as nat);
            &&& model::whole(f, n) matches Value::Finite { negative, magnitude } ==> !negative
                && apart(magnitude as int, exact as int) <= apart(other as int, exact as int)
            &&& exact <= other ==> model::whole(f, n) is Finite
        }),
{
    lemma_rounded(f, false, n * power2::pow2(f.unit() as nat), 1, other);
}

/// A quotient by another number than zero is the number nearest to the exact one,
/// infinite beyond the range, and negative where one term is.
pub proof fn law_quotient_is_nearest(f: Format, x: bool, m: nat, y: bool, n: nat, other: nat)
    requires
        n > 0,
        laws::representable(f, other),
    ensures
        ({
            let r = model::quotient(
                f,
                Value::Finite { negative: x, magnitude: m },
                Value::Finite { negative: y, magnitude: n },
            );
            let num = m * power2::pow2(f.unit() as nat);
            &&& r matches Value::Finite { negative, magnitude } ==> negative == (x != y)
                && laws::distance(num, n, magnitude) <= laws::distance(num, n, other)
            &&& num <= other * n ==> r is Finite
            &&& num >= power2::pow2((f.precision() + f.max_exponent()) as nat) * n ==> r == (
            Value::Infinite { negative: x != y })
        }),
{
    lemma_rounded(f, x != y, m * power2::pow2(f.unit() as nat), n, other);
}

/// A number of double precision becomes the nearest one of single precision,
/// infinite beyond its range, and keeps its sign. What is not finite stays.
pub proof fn law_conversion_is_nearest(x: bool, m: nat, other: nat)
    requires
        laws::representable(Format::Single, other),
    ensures
        ({
            let r = model::converted(
                Format::Double,
                Format::Single,
                Value::Finite { negative: x, magnitude: m },
            );
            let (num, den) = (m * power2::pow2(149), power2::pow2(1074));
            &&& r matches Value::Finite { negative, magnitude } ==> negative == x && laws::distance(
                num,
                den,
                magnitude,
            ) <= laws::distance(num, den, other)
            &&& num <= other * den ==> r is Finite
            &&& num >= power2::pow2(277) * den ==> r == (Value::Infinite { negative: x })
        }),
        model::converted(Format::Double, Format::Single, Value::Nan) is Nan,
        model::converted(Format::Double, Format::Single, Value::Infinite { negative: x }) == (
        Value::Infinite { negative: x }),
{
    power2::lemma_pow2_pos(1074);
    lemma_rounded(Format::Single, x, m * power2::pow2(149), power2::pow2(1074), other);
}

/// As an index, a number is the largest whole one that it reaches; zero where it
/// is negative or a NaN, and the largest index beyond the range.
pub proof fn law_index_is_rounded_down(f: Format, a: Value)
    ensures
        ({
            let index = model::floor_index(f, a);
            let one = power2::pow2(f.unit() as nat);
            match a {
                Value::Nan => index == 0,
                Value::Infinite { negative } => index == if negative {
                    0
                } else {
                    usize::MAX
                },
                Value::Finite { negative, magnitude } => if negative {
                    index == 0
                } else {
                    &&& index * one <= magnitude
                    &&& index < usize::MAX ==> magnitude < (index + 1) * one
                },
            }
        }),
{
    let one = power2::pow2(f.unit() as nat);
    power2::lemma_pow2_pos(f.unit() as nat);
    if let Value::Finite { magnitude, .. } = a {
        let q = magnitude / one;
        let index = model::saturated(q) as nat;
        vstd::arithmetic::div_mod::lemma_fundamental_div_mod(magnitude as int, one as int);
        let rest = magnitude % one;
        assert(index * one <= magnitude) by (nonlinear_arith)
            requires
                magnitude == one * q + rest,
                rest >= 0,
                index <= q,
        ;
        assert(index == q ==> magnitude < (index + 1) * one) by (nonlinear_arith)
            requires
                magnitude == one * q + rest,
                rest < one,
        ;
    }
}

/// As a length, a number is the nearest whole one, a half rounded up, and at least
/// one; the largest length beyond the range.
pub proof fn law_length_is_rounded_to_nearest(f: Format, a: Value)
    ensures
        ({
            let length = model::rounded_length(f, a);
            let one = power2::pow2(f.unit() as nat);
            match a {
                Value::Nan => length == 1,
                Value::Infinite { negative } => length == if negative {
                    1
                } else {
                    usize::MAX
                },
                Value::Finite { negative, magnitude } => if negative || 2 * magnitude < one {
                    length == 1
                } else {
                    &&& length >= 1
                    &&& 2 * (length * one) <= 2 * magnitude + one
                    &&& length < usize::MAX ==> 2 * magnitude < 2 * (length * one) + one
                },
            }
        }),
{
    let one = power2::pow2(f.unit() as nat);
    power2::lemma_pow2_pos(f.unit() as nat);
    if let Value::Finite { negative, magnitude } = a {
        let q = (2 * magnitude + one) / (2 * one);
        vstd::arithmetic::div_mod::lemma_fundamental_div_mod(
            (2 * magnitude + one) as int,
            (2 * one) as int,
        );
        let rest = (2 * magnitude + one) % (2 * one);
        let x = one * q;
        assert((2 * one) * q == 2 * x) by (nonlinear_arith)
            requires
                x == one * q,
        ;
        if 2 * magnitude < one {
            assert(q == 0) by (nonlinear_arith)
                requires
                    2 * (one * q) <= 2 * magnitude + one,
                    2 * magnitude < one,
                    one > 0,
                    q >= 0,
            ;
        } else {
            assert(q >= 1) by (nonlinear_arith)
                requires
                    2 * magnitude + one == 2 * (one * q) + rest,
                    rest < 2 * one,
                    2 * magnitude >= one,
                    one > 0,
            ;
            let length = model::saturated(q) as nat;
            assert(length * one <= x && (length == q ==> length * one == x)) by (nonlinear_arith)
                requires
                    x == one * q,
                    length <= q,
            ;
        }
    }
}

/// How many bit patterns share one sign and exponent field.
pub open spec fn range(f: Format) -> nat {
    power2::pow2((f.precision() - 1) as nat)
}

/// The bit pattern of the positive infinity, above those of the positive numbers.
pub open spec fn top_pattern(f: Format) -> nat {
    (f.max_exponent() + 2) as nat * range(f)
}

/// The patterns below that of infinity are those of zero and the positive numbers,
/// in their order.
pub proof fn law_patterns_are_in_order(f: Format, a: nat, b: nat)
    requires
        a < b < top_pattern(f),
    ensures
        number::decoded(f, a) matches Value::Finite { negative: x, magnitude: m } && !x && (
        number::decoded(f, b) matches Value::Finite { negative: y, magnitude: n } && !y && m < n),
        number::decoded(f, 0) == (Value::Finite { negative: false, magnitude: 0 }),
{
    let r = range(f);
    let fields = (f.max_exponent() + 3) as nat;
    power2::lemma_pow2_pos((f.precision() - 1) as nat);
    power2::lemma2_to64();
    let (x, u) = lemma_below_top(f, a);
    let (y, v) = lemma_below_top(f, b);
    let (zero, none) = lemma_below_top(f, 0);
    assert(zero == 0 && none == 0) by (nonlinear_arith)
        requires
            0 == zero * r + none,
            zero >= 0,
            none >= 0,
            r > 0,
    ;
    assert(x <= y && (x == y ==> u < v)) by (nonlinear_arith)
        requires
            x * r + u < y * r + v,
            u < r,
            v < r,
            u >= 0,
            v >= 0,
    {
        if x > y {
            assert(x * r >= y * r + r);
        }
    }
    if x == y {
        if x > 0 {
            let scale = power2::pow2((x - 1) as nat);
            power2::lemma_pow2_pos((x - 1) as nat);
            assert((r + u) * scale < (r + v) * scale) by (nonlinear_arith)
                requires
                    u < v,
                    scale > 0,
            ;
        }
    } else {
        let scale = power2::pow2((y - 1) as nat);
        power2::lemma_pow2_pos((y - 1) as nat);
        assert((r + v) * scale >= r * scale && r * scale >= r) by (nonlinear_arith)
            requires
                v >= 0,
                scale >= 1,
        ;
        if x > 0 {
            let small = power2::pow2((x - 1) as nat);
            power2::lemma_pow2_pos((x - 1) as nat);
            power2::lemma_pow2_unfold(x);
            rounding::lemma_pow2_monotone(x, (y - 1) as nat);
            assert((r + u) * small < r * scale) by (nonlinear_arith)
                requires
                    u < r,
                    2 * small <= scale,
                    small > 0,
            {
                assert((r + u) * small < (2 * r) * small);
                assert((2 * r) * small <= r * scale);
            }
        }
    }
}

/// The fields of a pattern below that of infinity.
proof fn lemma_below_top(f: Format, bits: nat) -> (r: (nat, nat))
    requires
        bits < top_pattern(f),
    ensures
        bits == r.0 * range(f) + r.1,
        r.1 < range(f),
        r.0 < f.max_exponent() + 2,
        number::decoded(f, bits) == (Value::Finite {
            negative: false,
            magnitude: if r.0 == 0 {
                r.1
            } else {
                (range(f) + r.1) * power2::pow2((r.0 - 1) as nat)
            },
        }),
{
    let r = range(f);
    let fields = (f.max_exponent() + 3) as nat;
    power2::lemma_pow2_pos((f.precision() - 1) as nat);
    let (x, u) = (bits / r, bits % r);
    vstd::arithmetic::div_mod::lemma_fundamental_div_mod(bits as int, r as int);
    let limit = (f.max_exponent() + 2) as nat;
    assert(x < limit && bits == x * r + u) by (nonlinear_arith)
        requires
            bits == r * x + u,
            u >= 0,
            bits < limit * r,
            r > 0,
    ;
    vstd::arithmetic::div_mod::lemma_small_mod(x, fields);
    vstd::arithmetic::div_mod::lemma_basic_div(x as int, fields as int);
    (x, u)
}

/// Every number of the format has a pattern.
pub proof fn law_every_number_has_a_pattern(f: Format, magnitude: nat)
    requires
        laws::representable(f, magnitude),
    ensures
        exists|bits: nat|
            bits < top_pattern(f) && #[trigger] number::decoded(f, bits) == (Value::Finite {
                negative: false,
                magnitude,
            }),
{
    let r = range(f);
    let (m0, k0) = choose|m: nat, k: nat| #[trigger] laws::is_parts(f, magnitude, m, k);
    let (m, k) = lemma_normal_parts(f, magnitude, m0, k0);
    power2::lemma_pow2_pos((f.precision() - 1) as nat);
    power2::lemma_pow2_unfold(f.precision() as nat);
    power2::lemma2_to64();
    let limit = (f.max_exponent() + 2) as nat;
    let (field, fraction) = if m < r {
        (0nat, m)
    } else {
        (k + 1, (m - r) as nat)
    };
    let bits = field * r + fraction;
    assert(bits < limit * r) by (nonlinear_arith)
        requires
            bits == field * r + fraction,
            fraction < r,
            field + 1 <= limit,
    ;
    let (x, u) = lemma_below_top(f, bits);
    assert(x == field && u == fraction) by (nonlinear_arith)
        requires
            x * r + u == field * r + fraction,
            0 <= u < r,
            0 <= fraction < r,
    {
        if x > field {
            assert(x * r >= field * r + r);
        }
        if x < field {
            assert(field * r >= x * r + r);
        }
    }
    if m < r {
        assert(m * power2::pow2(0) == m) by (nonlinear_arith)
            requires
                power2::pow2(0) == 1,
        ;
    }
    assert(number::decoded(f, bits) == (Value::Finite { negative: false, magnitude }));
}

proof fn lemma_normal_parts(f: Format, magnitude: nat, m: nat, k: nat) -> (r: (nat, nat))
    requires
        laws::is_parts(f, magnitude, m, k),
    ensures
        laws::is_parts(f, magnitude, r.0, r.1),
        r.1 > 0 ==> r.0 >= power2::pow2((f.precision() - 1) as nat),
    decreases k,
{
    let half = power2::pow2((f.precision() - 1) as nat);
    if k > 0 && m < half {
        power2::lemma_pow2_unfold(f.precision() as nat);
        power2::lemma_pow2_unfold(k);
        let scale = power2::pow2((k - 1) as nat);
        assert(m * (2 * scale) == (2 * m) * scale) by (nonlinear_arith);
        lemma_normal_parts(f, magnitude, 2 * m, (k - 1) as nat)
    } else {
        (m, k)
    }
}

/// The patterns from that of infinity on: infinity, then the NaNs. Another half of
/// the patterns stands for the opposites.
pub proof fn law_other_patterns(f: Format, bits: nat, fraction: nat)
    requires
        bits < top_pattern(f) + range(f),
        0 < fraction < range(f),
    ensures
        number::decoded(f, top_pattern(f)) == (Value::Infinite { negative: false }),
        number::decoded(f, top_pattern(f) + fraction) is Nan,
        number::decoded(f, bits + top_pattern(f) + range(f)) == model::negated(
            number::decoded(f, bits),
        ),
{
    let r = range(f);
    let fields = (f.max_exponent() + 3) as nat;
    let limit = (fields - 1) as nat;
    power2::lemma_pow2_pos((f.precision() - 1) as nat);
    assert((0 * fields + limit) * r + 0 == top_pattern(f));
    number::lemma_fields(r, fields, 0, limit, 0);
    number::lemma_fields(r, fields, 0, limit, fraction);
    let (x, u) = (bits / r, bits % r);
    vstd::arithmetic::div_mod::lemma_fundamental_div_mod(bits as int, r as int);
    assert(x < fields && bits == x * r + u) by (nonlinear_arith)
        requires
            bits == r * x + u,
            u >= 0,
            bits < (fields - 1) * r + r,
            r > 0,
    {
        if x >= fields {
            assert(r * x >= r * fields);
            assert((fields - 1) * r + r == r * fields);
        }
    }
    number::lemma_fields(r, fields, 0, x, u);
    number::lemma_fields(r, fields, 1, x, u);
    assert((0 * fields + x) * r + u == bits);
    assert((1 * fields + x) * r + u == bits + top_pattern(f) + r) by (nonlinear_arith)
        requires
            bits == x * r + u,
            top_pattern(f) == (fields - 1) * r,
    ;
}

} // verus!
