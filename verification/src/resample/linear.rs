//! What lies between the samples: a straight line, and after the last one the
//! last one.
use crate::audio::Audio;
use crate::float::laws as rounding_laws;
use crate::float::model;
use crate::float::model::{Format, Value};
use crate::float::Single;
use crate::resample;
use crate::resample::laws;
use vstd::arithmetic::power2;
use vstd::prelude::*;

verus! {

/// A finite number with its sign.
pub open spec fn value(a: Value) -> int {
    model::signed(a->Finite_negative, a->magnitude)
}

/// A number without its sign.
pub open spec fn size(x: int) -> int {
    if x < 0 {
        -x
    } else {
        x
    }
}

/// A quotient that is at least a number of the format is rounded to no less.
proof fn lemma_rounding_stays_above(f: Format, num: nat, den: nat, bound: nat)
    requires
        den > 0,
        rounding_laws::representable(f, bound),
        bound * den <= num,
        model::round(f, false, num, den) is Finite,
    ensures
        model::round(f, false, num, den)->magnitude >= bound,
{
    rounding_laws::law_representable_is_kept(f, false, bound * den, den, bound);
    rounding_laws::law_rounding_keeps_order(f, false, bound * den, num, den);
}

/// How far rounding to single precision is off.
proof fn lemma_single_off(negative: bool, num: nat, den: nat)
    requires
        den > 0,
        model::round(Format::Single, negative, num, den) is Finite,
    ensures
        0x100_0000 * rounding_laws::distance(
            num,
            den,
            model::round(Format::Single, negative, num, den)->magnitude,
        ) <= num + 0x80_0000 * den,
{
    let off = rounding_laws::distance(
        num,
        den,
        model::round(Format::Single, negative, num, den)->magnitude,
    );
    let half = power2::pow2(23);
    power2::lemma2_to64();
    rounding_laws::law_rounding_error_everywhere(Format::Single, negative, num, den);
    assert(2 * off * half == 0x100_0000 * off && half * den == 0x80_0000 * den) by (nonlinear_arith)
        requires
            half == 0x80_0000,
    ;
}

/// How far rounding to double precision is off.
proof fn lemma_double_off(num: nat, den: nat)
    requires
        den > 0,
        model::round(Format::Double, false, num, den) is Finite,
    ensures
        0x20_0000_0000_0000 * rounding_laws::distance(
            num,
            den,
            model::round(Format::Double, false, num, den)->magnitude,
        ) <= num + 0x10_0000_0000_0000 * den,
{
    let off = rounding_laws::distance(
        num,
        den,
        model::round(Format::Double, false, num, den)->magnitude,
    );
    let half = power2::pow2(52);
    power2::lemma2_to64_rest();
    rounding_laws::law_rounding_error_everywhere(Format::Double, false, num, den);
    assert(2 * off * half == 0x20_0000_0000_0000 * off && half * den == 0x10_0000_0000_0000 * den)
        by (nonlinear_arith)
        requires
            half == 0x10_0000_0000_0000,
    ;
}

/// How far a sum of single precision is off.
proof fn lemma_sum_off(a: Value, b: Value)
    requires
        a is Finite,
        b is Finite,
        model::sum(Format::Single, a, b) is Finite,
    ensures
        0x100_0000 * size(value(model::sum(Format::Single, a, b)) - (value(a) + value(b))) <= size(
            value(a) + value(b),
        ) + 0x80_0000,
{
    let s = value(a) + value(b);
    let num = size(s) as nat;
    let negative = s < 0 || (s == 0 && a->Finite_negative && b->Finite_negative);
    assert(model::sum(Format::Single, a, b) == model::round(Format::Single, negative, num, 1));
    lemma_single_off(negative, num, 1);
}

/// How far a product of single precision is off.
proof fn lemma_product_off(a: Value, b: Value)
    requires
        a is Finite,
        b is Finite,
        model::product(Format::Single, a, b) is Finite,
    ensures
        0x100_0000 * size(
            value(model::product(Format::Single, a, b)) * model::one(Format::Single) - value(a)
                * value(b),
        ) <= size(value(a) * value(b)) + 0x80_0000 * model::one(Format::Single),
{
    let one = model::one(Format::Single);
    let (m, n) = (a->magnitude, b->magnitude);
    let negative = a->Finite_negative != b->Finite_negative;
    let p = model::product(Format::Single, a, b)->magnitude;
    power2::lemma_pow2_pos(Format::Single.unit() as nat);
    lemma_single_off(negative, m * n, one);
    assert(m * n == -((-(m as int)) * n) && m * n == (-(m as int)) * (-(n as int)) && m * n == -(m
        * (-(n as int)))) by (nonlinear_arith);
    assert((-(p as int)) * one == -(p * one)) by (nonlinear_arith);
    assert(m * n >= 0) by (nonlinear_arith)
        requires
            m >= 0,
            n >= 0,
    ;
    assert(value(a) * value(b) == if negative {
        -(m * n)
    } else {
        (m * n) as int
    });
}

/// Where an output sample lies that is to be between input samples `k` and
/// `k + 1`: there, off by at most one part in two to the 53 of the position and of
/// a sample.
proof fn lemma_position_between(ratio: nat, i: nat, k: nat) -> (position: nat)
    requires
        ratio > 0,
        i < 0x20_0000_0000_0000,
        k < 0x20_0000_0000_0000,
        k * ratio <= i * model::one(Format::Double) <= (k + 1) * ratio,
    ensures
        resample::source_position(i, laws::positive(ratio)) == laws::positive(position),
        k * model::one(Format::Double) <= position <= (k + 1) * model::one(Format::Double),
        0x20_0000_0000_0000 * size(
            position * ratio - i * model::one(Format::Double) * model::one(Format::Double),
        ) <= (i * model::one(Format::Double) + ratio) * model::one(Format::Double),
{
    let d = Format::Double;
    let one = model::one(d);
    let place = i * one;
    let num = place * one;
    power2::lemma2_to64();
    power2::lemma2_to64_rest();
    power2::lemma_pow2_pos(d.unit() as nat);
    power2::lemma_pow2_adds(52, (d.unit() - 52) as nat);
    power2::lemma_pow2_pos((d.unit() - 52) as nat);
    let rest = power2::pow2((d.unit() - 52) as nat);
    assert(one >= 0x10_0000_0000_0000) by (nonlinear_arith)
        requires
            one == 0x10_0000_0000_0000 * rest,
            rest >= 1,
    ;
    laws::lemma_index_is_exact(i);
    laws::lemma_index_is_exact(k);
    laws::lemma_index_is_exact(k + 1);
    let (low, high) = (k * one, (k + 1) * one);
    assert(low * ratio <= num <= high * ratio) by (nonlinear_arith)
        requires
            low == k * one,
            high == (k + 1) * one,
            k * ratio <= place <= (k + 1) * ratio,
            num == place * one,
    ;
    rounding_laws::law_rounding_stays_below(d, false, num, ratio, high);
    lemma_rounding_stays_above(d, num, ratio, low);
    lemma_double_off(num, ratio);
    assert(0x10_0000_0000_0000 * ratio <= ratio * one) by (nonlinear_arith)
        requires
            one >= 0x10_0000_0000_0000,
    ;
    assert((place + ratio) * one == num + ratio * one) by (nonlinear_arith)
        requires
            num == place * one,
    ;
    model::round(d, false, num, ratio)->magnitude
}

/// How far past input sample `k` such an output sample lies: its distance in
/// samples, off by a little of the position and one part in two to the 23.
proof fn lemma_fraction_between(len: nat, ratio: nat, i: nat, k: nat, position: nat)
    requires
        ratio > 0,
        k < 0x20_0000_0000_0000,
        k < len <= usize::MAX,
        resample::source_position(i, laws::positive(ratio)) == laws::positive(position),
        k * model::one(Format::Double) <= position < (k + 1) * model::one(Format::Double),
        0x20_0000_0000_0000 * size(
            position * ratio - i * model::one(Format::Double) * model::one(Format::Double),
        ) <= (i * model::one(Format::Double) + ratio) * model::one(Format::Double),
    ensures
        resample::source_index(len, i, laws::positive(ratio)) == k,
        resample::source_fraction(k, i, laws::positive(ratio)) matches Value::Finite {
            negative,
            magnitude,
        } && !negative && magnitude <= model::one(Format::Single) && 0x20_0000_0000_0000 * size(
            magnitude * ratio - (i * model::one(Format::Double) - k * ratio) * model::one(
                Format::Single,
            ),
        ) <= model::one(Format::Single) * (i * model::one(Format::Double) + 0x4000_0003 * ratio),
{
    let d = Format::Double;
    let s = Format::Single;
    let one = model::one(d);
    let ones = model::one(s);
    let place = i * one;
    power2::lemma2_to64();
    power2::lemma2_to64_rest();
    power2::lemma_pow2_pos(d.unit() as nat);
    power2::lemma_pow2_pos(s.unit() as nat);
    power2::lemma_pow2_adds(52, (d.unit() - 52) as nat);
    power2::lemma_pow2_pos((d.unit() - 52) as nat);
    power2::lemma_pow2_adds(23, (s.unit() - 23) as nat);
    power2::lemma_pow2_pos((s.unit() - 23) as nat);
    let (x, y) = (power2::pow2((d.unit() - 52) as nat), power2::pow2((s.unit() - 23) as nat));
    assert(one >= 0x10_0000_0000_0000 && ones >= 0x80_0000) by (nonlinear_arith)
        requires
            one == 0x10_0000_0000_0000 * x,
            ones == 0x80_0000 * y,
            x >= 1,
            y >= 1,
    ;
    laws::lemma_index_is_exact(k);
    let start = k * one;
    let rest = (position - start) as nat;
    assert(position == k * one + rest && 0 <= rest < one) by (nonlinear_arith)
        requires
            start == k * one,
            start <= position < (k + 1) * one,
            rest == position - start,
    ;
    vstd::arithmetic::div_mod::lemma_fundamental_div_mod_converse(
        position as int,
        one as int,
        k as int,
        rest as int,
    );
    let difference = model::difference(d, laws::positive(position), laws::positive(start));
    assert(difference == model::round(d, false, rest, 1));
    rounding_laws::lemma_power_is_representable(d, d.unit() as nat);
    rounding_laws::law_rounding_stays_below(d, false, rest, 1, one);
    lemma_double_off(rest, 1);
    let q = difference->magnitude;
    let d2 = q - rest;
    assert(0x20_0000_0000_0000 * size(d2) <= 2 * one);

    rounding_laws::lemma_power_is_representable(s, s.unit() as nat);
    assert(q * ones <= ones * one) by (nonlinear_arith)
        requires
            q <= one,
    ;
    rounding_laws::law_rounding_stays_below(s, false, q * ones, one, ones);
    lemma_single_off(false, q * ones, one);
    let fraction = model::round(s, false, q * ones, one)->magnitude;
    assert(resample::source_fraction(k, i, laws::positive(ratio)) == laws::positive(fraction));
    let d3 = fraction * one - q * ones;
    let cell = one * ones;
    assert(0x80_0000 * one <= cell) by (nonlinear_arith)
        requires
            ones >= 0x80_0000,
            cell == one * ones,
    ;
    assert(ones * one == cell) by (nonlinear_arith)
        requires
            cell == one * ones,
    ;
    assert(0x20_0000_0000_0000 * size(d3) <= 0x4000_0000 * cell);

    let d1 = position * ratio - place * one;
    let t = place - k * ratio;
    let off = fraction * ratio - t * ones;
    let u = ones * ratio;
    assert(off * one == ones * d1 + u * d2 + ratio * d3) by {
        assert(off * one == ratio * (fraction * one) - ones * (t * one)) by (nonlinear_arith)
            requires
                off == fraction * ratio - t * ones,
        ;
        assert(ratio * (q * ones + d3) == u * q + ratio * d3) by (nonlinear_arith)
            requires
                u == ones * ratio,
        ;
        assert(u * (rest + d2) == ones * (ratio * rest) + u * d2) by (nonlinear_arith)
            requires
                u == ones * ratio,
        ;
        assert(ratio * rest == place * one + d1 - (k * ratio) * one) by (nonlinear_arith)
            requires
                d1 == position * ratio - place * one,
                position == k * one + rest,
        ;
        assert(t * one == place * one - (k * ratio) * one) by (nonlinear_arith)
            requires
                t == place - k * ratio,
        ;
        assert(ones * (t * one + d1) == ones * (t * one) + ones * d1) by (nonlinear_arith);
        assert(ratio * (fraction * one) == ratio * (q * ones + d3));
        assert(u * q == u * (rest + d2));
        assert(ones * (ratio * rest) == ones * (t * one + d1));
    }
    let all = u * one;
    lemma_scaled(d1, ones as int, 0x20_0000_0000_0000, ((place + ratio) * one) as int);
    lemma_scaled(d2, u as int, 0x20_0000_0000_0000, (2 * one) as int);
    lemma_scaled(d3, ratio as int, 0x20_0000_0000_0000, (0x4000_0000 * cell) as int);
    let far = ones * place;
    assert(ones * ((place + ratio) * one) == far * one + all && u * (2 * one) == 2 * all && ratio * (
    0x4000_0000 * cell) == 0x4000_0000 * all) by (nonlinear_arith)
        requires
            all == u * one,
            u == ones * ratio,
            cell == one * ones,
            far == ones * place,
    ;
    assert(0x20_0000_0000_0000 * size(off * one) <= far * one + 0x4000_0003 * all);
    assert(0x20_0000_0000_0000 * size(off) <= far + 0x4000_0003 * u) by (nonlinear_arith)
        requires
            0x20_0000_0000_0000 * size(off * one) <= far * one + 0x4000_0003 * all,
            all == u * one,
            one > 0,
    {
        assert(size(off * one) == size(off) * one);
        assert((0x20_0000_0000_0000 * size(off)) * one <= (far + 0x4000_0003 * u) * one);
    }
    assert(ones * (place + 0x4000_0003 * ratio) == far + 0x4000_0003 * u) by (nonlinear_arith)
        requires
            far == ones * place,
            u == ones * ratio,
    ;
}

/// A bounded number times another.
proof fn lemma_scaled(x: int, by: int, part: int, bound: int)
    requires
        by >= 0,
        part * size(x) <= bound,
    ensures
        part * size(by * x) <= by * bound,
{
    assert(size(by * x) == by * size(x)) by (nonlinear_arith)
        requires
            by >= 0,
    ;
    assert(part * (by * size(x)) <= by * bound) by (nonlinear_arith)
        requires
            by >= 0,
            part * size(x) <= bound,
    ;
}

/// Interpolating by a fraction that is nearly `t / ratio`.
proof fn lemma_interpolated_between(
    a: Value,
    b: Value,
    fraction: nat,
    ratio: nat,
    place: nat,
    t: int,
    largest: nat,
)
    requires
        laws::within(a, largest),
        laws::within(b, largest),
        largest <= power2::pow2(125 + Format::Single.unit() as nat),
        fraction <= model::one(Format::Single),
        0 <= t <= ratio,
        0x20_0000_0000_0000 * size(fraction * ratio - t * model::one(Format::Single))
            <= model::one(Format::Single) * (place + 0x4000_0003 * ratio),
    ensures
        resample::interpolated(a, b, laws::positive(fraction)) is Finite,
        0x20_0000_0000_0000 * size(
            value(resample::interpolated(a, b, laws::positive(fraction))) * ratio - (value(a) * ratio
                + (value(b) - value(a)) * t),
        ) <= 0x4_0000_0000 * (ratio * (largest + 0x10_0000)) + (3 * largest + 1) * place,
{
    let s = Format::Single;
    let ones = model::one(s);
    let v = s.unit() as nat;
    let limit = power2::pow2(125 + v);
    let f = laws::positive(fraction);
    power2::lemma_pow2_pos(v);
    power2::lemma_pow2_unfold(126 + v);
    power2::lemma_pow2_unfold(127 + v);
    rounding_laws::lemma_power_is_representable(s, 126 + v);
    rounding_laws::lemma_power_is_representable(s, 127 + v);
    laws::lemma_sum_within(s, b, model::negated(a), limit, limit, 2 * limit);
    let step = model::difference(s, b, a);
    laws::lemma_product_within(s, step, f, 2 * limit);
    let part = model::product(s, step, f);
    laws::lemma_sum_within(s, a, part, limit, 2 * limit, 4 * limit);
    let out = model::sum(s, a, part);
    lemma_sum_off(b, model::negated(a));
    lemma_product_off(step, f);
    lemma_sum_off(a, part);

    let (x, y, dd, g, o) = (value(a), value(b), value(step), value(part), value(out));
    let l = largest as int;
    let ff = fraction as int;
    assert(value(model::negated(a)) == -x);
    assert(value(f) == ff);
    let e4 = dd - (y - x);
    assert(0x100_0000 * size(e4) <= 2 * l + 0x80_0000);
    assert(size(dd) <= 3 * l + 1);
    let e2 = g * ones - dd * ff;
    assert(size(dd * ff) <= (3 * l + 1) * ones) by (nonlinear_arith)
        requires
            size(dd) <= 3 * l + 1,
            0 <= ff <= ones,
    {
        assert(size(dd * ff) == size(dd) * ff);
        assert(size(dd) * ff <= (3 * l + 1) * ones);
    }
    let c2 = 3 * l + 1 + 0x80_0000;
    assert((3 * l + 1) * ones + 0x80_0000 * ones == c2 * ones) by (nonlinear_arith)
        requires
            c2 == 3 * l + 1 + 0x80_0000,
    ;
    assert(0x100_0000 * size(e2) <= c2 * ones);
    assert(size(g) <= 4 * l + 3) by (nonlinear_arith)
        requires
            0x100_0000 * size(g * ones - dd * ff) <= c2 * ones,
            c2 == 3 * l + 1 + 0x80_0000,
            size(dd * ff) <= (3 * l + 1) * ones,
            l >= 0,
            ones > 0,
    {
        assert(size(g * ones) == size(g) * ones);
        assert(size(g * ones) <= size(g * ones - dd * ff) + size(dd * ff));
        assert(0x100_0000 * (size(g) * ones) <= (c2 + 0x100_0000 * (3 * l + 1)) * ones);
        assert(0x100_0000 * size(g) <= c2 + 0x100_0000 * (3 * l + 1));
    }
    let e1 = o - (x + g);
    let c1 = 5 * l + 3 + 0x80_0000;
    assert(0x100_0000 * size(e1) <= c1);
    let e3 = ff * ratio - t * ones;

    let all = o * ratio - (x * ratio + (y - x) * t);
    let unit = ones * ratio;
    assert(ones * all == unit * e1 + ratio * e2 + dd * e3 + (t * ones) * e4) by {
        let w = t * ones;
        assert(ones * all == unit * o - unit * x - w * (y - x)) by (nonlinear_arith)
            requires
                all == o * ratio - (x * ratio + (y - x) * t),
                unit == ones * ratio,
                w == t * ones,
        ;
        assert(unit * (e1 + x + g) == unit * e1 + unit * x + unit * g) by (nonlinear_arith);
        assert(unit * o == unit * (e1 + x + g));
        assert(unit * g == ratio * (g * ones)) by (nonlinear_arith)
            requires
                unit == ones * ratio,
        ;
        assert(ratio * (e2 + dd * ff) == ratio * e2 + dd * (ff * ratio)) by (nonlinear_arith);
        assert(ratio * (g * ones) == ratio * (e2 + dd * ff));
        assert(dd * (e3 + w) == dd * e3 + dd * w) by (nonlinear_arith);
        assert(dd * (ff * ratio) == dd * (e3 + w));
        assert((e4 + (y - x)) * w == w * e4 + w * (y - x)) by (nonlinear_arith);
        assert(dd * w == (e4 + (y - x)) * w);
    }
    lemma_scaled(e1, unit as int, 0x100_0000, c1);
    lemma_scaled(e2, ratio as int, 0x100_0000, c2 * ones);
    lemma_scaled(
        e3,
        size(dd),
        0x20_0000_0000_0000,
        (ones * (place + 0x4000_0003 * ratio)) as int,
    );
    assert(t * ones >= 0) by (nonlinear_arith)
        requires
            t >= 0,
            ones >= 0,
    ;
    lemma_scaled(e4, t * ones, 0x100_0000, 2 * l + 0x80_0000);
    let c3 = 3 * l + 1;
    let c4 = 2 * l + 0x80_0000;
    let far = ones * (c3 * place);
    assert(size(dd * e3) == size(size(dd) * e3)) by (nonlinear_arith);
    assert(ratio * (c2 * ones) == unit * c2 && (t * ones) * c4 <= unit * c4) by (nonlinear_arith)
        requires
            unit == ones * ratio,
            0 <= t <= ratio,
            c4 >= 0,
    {
        assert(t * ones <= ratio * ones);
    }
    assert(size(dd) * (ones * (place + 0x4000_0003 * ratio)) <= far + 0x4000_0003 * (unit * c3))
        by (nonlinear_arith)
        requires
            unit == ones * ratio,
            far == ones * (c3 * place),
            0 <= size(dd) <= c3,
    {
        let w = ones * (place + 0x4000_0003 * ratio);
        assert(w >= 0);
        assert(size(dd) * w <= c3 * w);
        assert(c3 * w == far + 0x4000_0003 * (unit * c3));
    }
    let total = 17 * l + 0x180_0008;
    assert(0x2000_0000 * (unit * c1) + 0x2000_0000 * (unit * c2) + 0x4000_0003 * (unit * c3)
        + 0x2000_0000 * (unit * c4) <= 0x2000_0000 * (unit * total)) by (nonlinear_arith)
        requires
            c1 == 5 * l + 3 + 0x80_0000,
            c2 == 3 * l + 1 + 0x80_0000,
            c3 == 3 * l + 1,
            c4 == 2 * l + 0x80_0000,
            total == 17 * l + 0x180_0008,
            unit >= 0,
            l >= 0,
    {
        assert(0x2000_0000 * c1 + 0x2000_0000 * c2 + 0x4000_0003 * c3 + 0x2000_0000 * c4
            <= 0x2000_0000 * total);
        assert(unit * (0x2000_0000 * c1 + 0x2000_0000 * c2 + 0x4000_0003 * c3 + 0x2000_0000 * c4)
            <= unit * (0x2000_0000 * total));
    }
    assert(0x20_0000_0000_0000 * size(ones * all) <= 0x2000_0000 * (unit * total) + far);
    assert(0x20_0000_0000_0000 * size(all) <= 0x4_0000_0000 * (ratio * (l + 0x10_0000)) + c3
        * place) by (nonlinear_arith)
        requires
            0x20_0000_0000_0000 * size(ones * all) <= 0x2000_0000 * (unit * total) + far,
            far == ones * (c3 * place),
            unit == ones * ratio,
            total == 17 * l + 0x180_0008,
            ones > 0,
            ratio >= 0,
            l >= 0,
    {
        assert(size(ones * all) == ones * size(all));
        assert(unit * total == ones * (ratio * total));
        let w = 0x2000_0000 * (ratio * total) + c3 * place;
        assert(ones * (0x20_0000_0000_0000 * size(all)) <= ones * w);
        assert(0x20_0000_0000_0000 * size(all) <= w);
        assert(ratio * total <= ratio * (32 * (l + 0x10_0000)));
    }
}

/// An output sample between two input samples lies on the straight line through
/// them, off by at most two millionths of the largest sample and a little of the
/// smallest positive number, and by what the position itself is off.
pub proof fn law_samples_lie_on_the_line(
    input: Seq<Single>,
    ratio: nat,
    i: nat,
    k: nat,
    largest: nat,
)
    requires
        ratio > 0,
        i < 0x20_0000_0000_0000,
        k + 1 < input.len() <= 0x20_0000_0000_0000,
        input.len() <= usize::MAX,
        k * ratio <= i * power2::pow2(1074) <= (k + 1) * ratio,
        largest <= power2::pow2(274),
        forall|j: int| 0 <= j < input.len() ==> laws::within((#[trigger] input[j])@, largest),
    ensures
        ({
            let out = resample::resampled_sample(input, laws::positive(ratio), i);
            let (a, b) = (value(input[k as int]@), value(input[k as int + 1]@));
            let place = i * power2::pow2(1074);
            let line = a * ratio + (b - a) * (place - k * ratio);
            &&& out is Finite
            &&& 0x20_0000_0000_0000 * size(value(out) * ratio - line) <= 0x4_0000_0000 * (ratio * (
            largest + 0x10_0000)) + (3 * largest + 1) * place
        }),
{
    let d = Format::Double;
    let s = Format::Single;
    let one = model::one(d);
    let at = laws::positive(ratio);
    let place = i * one;
    let t = place - k * ratio;
    let position = lemma_position_between(ratio, i, k);
    power2::lemma_pow2_pos(d.unit() as nat);
    assert((k + 1) * ratio == k * ratio + ratio) by (nonlinear_arith);
    let (a, b) = (input[k as int]@, input[k as int + 1]@);
    if position < (k + 1) * one {
        lemma_fraction_between(input.len(), ratio, i, k, position);
        let fraction = resample::source_fraction(k, i, at)->magnitude;
        assert(resample::source_fraction(k, i, at) == laws::positive(fraction));
        lemma_interpolated_between(a, b, fraction, ratio, place, t, largest);
    } else {
        let v = s.unit() as nat;
        laws::lemma_index_is_exact(k + 1);
        laws::lemma_on_the_grid(input.len(), at, i, k + 1);
        let after = input[resample::next_index(input.len(), k as int + 1)]@;
        let limit = power2::pow2(125 + v);
        power2::lemma_pow2_unfold(126 + v);
        rounding_laws::lemma_power_is_representable(s, 126 + v);
        laws::lemma_sum_within(s, after, model::negated(b), limit, limit, 2 * limit);
        laws::law_samples_on_the_grid_are_kept(input, at, i);
        let out = resample::resampled_sample(input, at, i);
        let (x, y) = (value(a), value(b));
        assert(value(out) == y);
        let left = ratio - t;
        let off = position * ratio - place * one;
        assert(off == left * one) by (nonlinear_arith)
            requires
                off == position * ratio - place * one,
                position == (k + 1) * one,
                left == ratio - t,
                t == place - k * ratio,
        ;
        assert(0x20_0000_0000_0000 * left <= place + ratio) by (nonlinear_arith)
            requires
                0x20_0000_0000_0000 * size(left * one) <= (place + ratio) * one,
                one > 0,
        {
            assert((0x20_0000_0000_0000 * left) * one <= (place + ratio) * one);
        }
        let all = y * ratio - (x * ratio + (y - x) * t);
        assert(all == left * (y - x)) by (nonlinear_arith)
            requires
                all == y * ratio - (x * ratio + (y - x) * t),
                left == ratio - t,
        ;
        assert(0x20_0000_0000_0000 * size(all) <= 0x4_0000_0000 * (ratio * (largest + 0x10_0000)) + (
        3 * largest + 1) * place) by (nonlinear_arith)
            requires
                all == left * (y - x),
                left >= 0,
                0x20_0000_0000_0000 * left <= place + ratio,
                size(y - x) <= 2 * largest,
        {
            assert(size(all) == left * size(y - x));
            assert(left * size(y - x) <= left * (2 * largest));
            assert((0x20_0000_0000_0000 * left) * (2 * largest) <= (place + ratio) * (2 * largest));
            assert((place + ratio) * (2 * largest) == 2 * (largest * place) + 2 * (largest * ratio));
            assert((3 * largest + 1) * place == 3 * (largest * place) + place);
            assert(ratio * (largest + 0x10_0000) == largest * ratio + 0x10_0000 * ratio);
            assert(largest * place >= 0 && largest * ratio >= 0);
        }
    }
}

/// An output sample at or after the last input sample is that one.
pub proof fn law_last_sample_is_held(input: Seq<Single>, ratio: nat, i: nat)
    requires
        ratio > 0,
        0 < input.len() <= 0x20_0000_0000_0000,
        input.len() <= usize::MAX,
        i < 0x20_0000_0000_0000,
        i < resample::resampled_len(input.len(), laws::positive(ratio)),
        (input.len() - 1) * ratio <= i * power2::pow2(1074),
        input.last()@ is Finite,
    ensures
        model::equal(
            resample::resampled_sample(input, laws::positive(ratio), i),
            input.last()@,
        ),
{
    let d = Format::Double;
    let one = model::one(d);
    let at = laws::positive(ratio);
    let last = (input.len() - 1) as nat;
    power2::lemma_pow2_pos(d.unit() as nat);
    laws::lemma_fraction(input.len(), at, i);
    let position = laws::lemma_position(input.len(), at, i);
    laws::lemma_index_is_exact(i);
    laws::lemma_index_is_exact(last);
    let (place, low) = (i * one, last * one);
    assert(low * ratio <= place * one) by (nonlinear_arith)
        requires
            low == last * one,
            last * ratio <= place,
    ;
    lemma_rounding_stays_above(d, place * one, ratio, low);
    assert(position >= low);
    vstd::arithmetic::div_mod::lemma_fundamental_div_mod(position as int, one as int);
    let floor = position / one;
    assert(floor >= last) by (nonlinear_arith)
        requires
            position == one * floor + position % one,
            position % one < one,
            position >= last * one,
            one > 0,
    {
        if floor + 1 <= last {
            assert(one * (floor + 1) <= one * last);
        }
    }
    let index = resample::source_index(input.len(), i, at);
    assert(index == last);
    let x = input[index];
    laws::lemma_zero(Format::Single, false, 1);
    laws::lemma_interpolated_stays(
        x,
        model::difference(Format::Single, x@, x@),
        resample::source_fraction(index as nat, i, at),
    );
}

/// Every channel of resampled audio is the straight-line reading of the channel at
/// the same place: its samples lie on the lines between the samples of that one.
pub proof fn law_each_channel_lies_on_its_own_lines(
    before: Audio,
    target: Value,
    after: Audio,
    ratio: nat,
    c: int,
    i: nat,
    k: nat,
    largest: nat,
)
    requires
        resample::is_resampling(before, target, after),
        !model::equal(before.sample_rate, target),
        model::quotient(Format::Double, target, before.sample_rate) == laws::positive(ratio),
        0 <= c < before.channels.len(),
        i < after.channels[c].len(),
        ratio > 0,
        i < 0x20_0000_0000_0000,
        k + 1 < before.channels[c].len() <= 0x20_0000_0000_0000,
        before.channels[c].len() <= usize::MAX,
        k * ratio <= i * power2::pow2(1074) <= (k + 1) * ratio,
        largest <= power2::pow2(274),
        forall|j: int|
            0 <= j < before.channels[c].len() ==> laws::within(
                (#[trigger] before.channels[c][j])@,
                largest,
            ),
    ensures
        ({
            let out = after.channels[c][i as int]@;
            let (a, b) = (
                value(before.channels[c][k as int]@),
                value(before.channels[c][k as int + 1]@),
            );
            let place = i * power2::pow2(1074);
            let line = a * ratio + (b - a) * (place - k * ratio);
            &&& out is Finite
            &&& 0x20_0000_0000_0000 * size(value(out) * ratio - line) <= 0x4_0000_0000 * (ratio * (
            largest + 0x10_0000)) + (3 * largest + 1) * place
        }),
{
    assert(resample::is_resampled(
        before.channels[c],
        resample::rate_ratio(before.sample_rate, target),
        after.channels[c],
    ));
    law_samples_lie_on_the_line(before.channels[c], ratio, i, k, largest);
}

} // verus!
