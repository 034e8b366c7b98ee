//! What rounding promises.
use crate::float::model;
use crate::float::model::{Format, Value};
use crate::float::rounding;
use vstd::arithmetic::power2;
use vstd::prelude::*;

verus! {

/// `magnitude` is that of a finite number of format `f`.
pub open spec fn representable(f: Format, magnitude: nat) -> bool {
    exists|m: nat, k: nat| #[trigger] is_parts(f, magnitude, m, k)
}

/// `magnitude` is `m` times two to the `k`, within the limits of format `f`.
pub open spec fn is_parts(f: Format, magnitude: nat, m: nat, k: nat) -> bool {
    &&& m < power2::pow2(f.precision() as nat)
    &&& k <= f.max_exponent()
    &&& magnitude == m * power2::pow2(k)
}

/// A positive number has a highest bit.
proof fn lemma_bit_length(m: nat) -> (l: nat)
    requires
        m > 0,
    ensures
        l > 0,
        power2::pow2((l - 1) as nat) <= m < power2::pow2(l),
    decreases m,
{
    power2::lemma2_to64();
    if m == 1 {
        1
    } else {
        let l = lemma_bit_length(m / 2);
        power2::lemma_pow2_unfold(l);
        power2::lemma_pow2_unfold(l + 1);
        l + 1
    }
}

/// There is an exponent at which `num / den` fits a significand.
pub proof fn lemma_quantum_exists(f: Format, num: nat, den: nat) -> (k: nat)
    requires
        den > 0,
    ensures
        model::is_quantum(f, num, den, k),
        k == model::quantum(f, num, den),
{
    let p = f.precision() as nat;
    let whole = num / den;
    let rest = num % den;
    vstd::arithmetic::div_mod::lemma_fundamental_div_mod(num as int, den as int);
    power2::lemma2_to64();
    power2::lemma_pow2_pos(p);
    if whole == 0 {
        let top = power2::pow2(p);
        assert(num < top * den) by (nonlinear_arith)
            requires
                num == den * whole + rest,
                whole == 0,
                rest < den,
                top >= 1,
        ;
        assert(model::is_quantum(f, num, den, 0));
        rounding::lemma_quantum_unique(f, num, den, 0, model::quantum(f, num, den));
        0
    } else {
        let l = lemma_bit_length(whole);
        let k = if l > p {
            (l - p) as nat
        } else {
            0
        };
        assert(whole * (1 * den) <= num < (whole + 1) * (1 * den)) by (nonlinear_arith)
            requires
                num == den * whole + rest,
                0 <= rest < den,
        ;
        rounding::lemma_is_quantum(
            f,
            num,
            den,
            whole,
            0,
            num * 1 != whole * (1 * den),
            l,
            k,
        );
        rounding::lemma_quantum_unique(f, num, den, k, model::quantum(f, num, den));
        k
    }
}

/// A number of the format is rounded to itself.
pub proof fn law_representable_is_kept(f: Format, negative: bool, num: nat, den: nat, magnitude: nat)
    requires
        den > 0,
        representable(f, magnitude),
        num == magnitude * den,
    ensures
        model::round(f, negative, num, den) == (Value::Finite { negative, magnitude }),
{
    let (m, k) = choose|m: nat, k: nat| #[trigger] is_parts(f, magnitude, m, k);
    let p = f.precision() as nat;
    let scale = power2::pow2(k);
    power2::lemma_pow2_pos(k);
    power2::lemma2_to64();
    lemma_within_range(f, m, k);
    if m == 0 {
        assert(magnitude == 0) by (nonlinear_arith)
            requires
                magnitude == m * scale,
                m == 0,
        ;
        assert(num == 0) by (nonlinear_arith)
            requires
                num == magnitude * den,
                magnitude == 0,
        ;
        let top = power2::pow2(p);
        power2::lemma_pow2_pos(p);
        assert(0 < top * den) by (nonlinear_arith)
            requires
                top > 0,
                den > 0,
        ;
        rounding::lemma_round_at(f, negative, num, den, 0, 0);
    } else {
        assert(m * (scale * den) == num * 1) by (nonlinear_arith)
            requires
                num == magnitude * den,
                magnitude == m * scale,
        ;
        assert(num < (m + 1) * (scale * den)) by (nonlinear_arith)
            requires
                num == m * (scale * den),
                scale > 0,
                den > 0,
        ;
        assert(rounding::brackets(num, den, m, k as int, false));
        let l = lemma_bit_length(m);
        if l > p {
            rounding::lemma_pow2_monotone(p, (l - 1) as nat);
        }
        let quantum = if l + k > p {
            (l + k - p) as nat
        } else {
            0
        };
        rounding::lemma_is_quantum(f, num, den, m, k as int, false, l, quantum);
        let lift = power2::pow2((k - quantum) as nat);
        rounding::lemma_keep_bits(num, den, m, k as int, quantum, m * lift);
        rounding::lemma_round_at(f, negative, num, den, quantum, m * lift);
        power2::lemma_pow2_adds((k - quantum) as nat, quantum);
        let base = power2::pow2(quantum);
        assert((m * lift) * base == m * (lift * base)) by (nonlinear_arith);
    }
}

proof fn lemma_within_range(f: Format, m: nat, k: nat)
    requires
        m < power2::pow2(f.precision() as nat),
        k <= f.max_exponent(),
    ensures
        m * power2::pow2(k) < power2::pow2((f.precision() + f.max_exponent()) as nat),
{
    let p = f.precision() as nat;
    let limit = power2::pow2(p);
    let scale = power2::pow2(k);
    power2::lemma_pow2_pos(k);
    power2::lemma_pow2_adds(p, k);
    rounding::lemma_pow2_monotone(p + k, (f.precision() + f.max_exponent()) as nat);
    assert(m * scale < limit * scale) by (nonlinear_arith)
        requires
            m < limit,
            scale > 0,
    ;
}

/// A power of two within the range is a number of the format.
pub proof fn lemma_power_is_representable(f: Format, k: nat)
    requires
        k <= f.max_exponent() + f.precision() - 1,
    ensures
        representable(f, power2::pow2(k)),
{
    let p = (f.precision() - 1) as nat;
    power2::lemma_pow2_pos(p);
    power2::lemma_pow2_unfold(p + 1);
    if k <= f.max_exponent() {
        assert(power2::pow2(k) == 1 * power2::pow2(k));
        assert(is_parts(f, power2::pow2(k), 1, k));
    } else {
        let low = (k - f.max_exponent()) as nat;
        power2::lemma_pow2_adds(low, f.max_exponent() as nat);
        rounding::lemma_pow2_monotone(low, p);
        assert(is_parts(f, power2::pow2(k), power2::pow2(low), f.max_exponent() as nat));
    }
}

/// The distance of `num / den` from `magnitude`, times `den`.
pub open spec fn distance(num: nat, den: nat, magnitude: nat) -> nat {
    let d = num - magnitude * den;
    if d >= 0 {
        d as nat
    } else {
        (-d) as nat
    }
}

/// The magnitude that rounding arrives at before it looks at the range.
pub open spec fn unbounded(f: Format, num: nat, den: nat) -> nat {
    let scale = power2::pow2(model::quantum(f, num, den));
    model::nearest_even(num, den * scale) * scale
}

/// No number of the format is nearer than the magnitude before the range.
proof fn lemma_unbounded_is_nearest(f: Format, num: nat, den: nat, other: nat)
    requires
        den > 0,
        representable(f, other),
    ensures
        distance(num, den, unbounded(f, num, den)) <= distance(num, den, other),
{
    let p = f.precision() as nat;
    let k = lemma_quantum_exists(f, num, den);
    let scale = power2::pow2(k);
    power2::lemma_pow2_pos(k);
    let (m, j) = choose|m: nat, j: nat| #[trigger] is_parts(f, other, m, j);
    if j >= k {
        // A multiple of the quantum.
        power2::lemma_pow2_adds((j - k) as nat, k);
        let lift = power2::pow2((j - k) as nat);
        assert(m * (lift * scale) == (m * lift) * scale) by (nonlinear_arith);
        lemma_nearest_multiple(num, den, scale, m * lift);
    } else {
        // Below the quotient's binade, whose lower end is nearer and a multiple.
        let low = power2::pow2((p + k - 1) as nat);
        let top = power2::pow2(p);
        let small = power2::pow2(j);
        power2::lemma_pow2_adds(p, j);
        power2::lemma_pow2_pos(j);
        rounding::lemma_pow2_monotone(p + j, (p + k - 1) as nat);
        power2::lemma_pow2_adds((p - 1) as nat, k);
        assert(m * small <= top * small) by (nonlinear_arith)
            requires
                m < top,
                small > 0,
        ;
        lemma_nearest_multiple(num, den, scale, power2::pow2((p - 1) as nat));
        assert(other * den <= low * den <= num) by (nonlinear_arith)
            requires
                other <= low,
                low * den <= num,
        ;
    }
}

/// Where rounding gives a finite number, no number of the format is nearer.
pub proof fn law_rounded_is_nearest(f: Format, negative: bool, num: nat, den: nat, other: nat)
    requires
        den > 0,
        model::round(f, negative, num, den) is Finite,
        representable(f, other),
    ensures
        distance(num, den, model::round(f, negative, num, den)->magnitude) <= distance(
            num,
            den,
            other,
        ),
{
    lemma_unbounded_is_nearest(f, num, den, other);
}

/// Rounding does not cross a number of the format.
pub proof fn law_rounding_stays_below(f: Format, negative: bool, num: nat, den: nat, bound: nat)
    requires
        den > 0,
        representable(f, bound),
        num <= bound * den,
    ensures
        model::round(f, negative, num, den) matches Value::Finite { negative: sign, magnitude }
            && sign == negative && magnitude <= bound,
{
    lemma_unbounded_is_nearest(f, num, den, bound);
    let r = unbounded(f, num, den);
    if r > bound {
        assert(r * den > bound * den) by (nonlinear_arith)
            requires
                r > bound,
                den > 0,
        ;
    }
    let (m, k) = choose|m: nat, k: nat| #[trigger] is_parts(f, bound, m, k);
    lemma_within_range(f, m, k);
}

/// Rounding a quotient that a whole significand fits is off by at most the
/// quotient over two to the precision.
pub proof fn law_rounding_error(f: Format, negative: bool, num: nat, den: nat)
    requires
        den > 0,
        num >= power2::pow2((f.precision() - 1) as nat) * den,
        model::round(f, negative, num, den) is Finite,
    ensures
        distance(num, den, model::round(f, negative, num, den)->magnitude) * power2::pow2(
            f.precision() as nat,
        ) <= num,
{
    let p = f.precision() as nat;
    let k = lemma_quantum_exists(f, num, den);
    let scale = power2::pow2(k);
    let step = den * scale;
    let n = model::nearest_even(num, step);
    let d = distance(num, den, n * scale);
    power2::lemma_pow2_pos(k);
    assert(step > 0) by (nonlinear_arith)
        requires
            den > 0,
            scale > 0,
            step == den * scale,
    ;
    assert(2 * d <= step) by {
        let q = num / step;
        vstd::arithmetic::div_mod::lemma_fundamental_div_mod(num as int, step as int);
        assert((n * scale) * den == n * step) by (nonlinear_arith)
            requires
                step == den * scale,
        ;
        assert(step * q == q * step && (q + 1) * step == q * step + step) by (nonlinear_arith);
    }
    let half = power2::pow2((p - 1) as nat);
    let low = power2::pow2((p + k - 1) as nat);
    power2::lemma_pow2_unfold(p);
    power2::lemma_pow2_adds((p - 1) as nat, k);
    assert(low * den <= num);
    assert(d * (2 * half) <= num) by (nonlinear_arith)
        requires
            2 * d <= den * scale,
            low == half * scale,
            low * den <= num,
    ;
}

/// Rounding gives a number of the format.
pub proof fn law_rounded_is_representable(f: Format, negative: bool, num: nat, den: nat)
    requires
        den > 0,
        model::round(f, negative, num, den) is Finite,
    ensures
        representable(f, model::round(f, negative, num, den)->magnitude),
{
    let p = f.precision() as nat;
    let k = lemma_quantum_exists(f, num, den);
    let scale = power2::pow2(k);
    let step = den * scale;
    let n = model::nearest_even(num, step);
    let q = num / step;
    let top = power2::pow2(p);
    power2::lemma_pow2_pos(k);
    power2::lemma_pow2_adds(p, k);
    assert(step > 0) by (nonlinear_arith)
        requires
            den > 0,
            scale > 0,
            step == den * scale,
    ;
    vstd::arithmetic::div_mod::lemma_fundamental_div_mod(num as int, step as int);
    let rest = num % step;
    assert(q < top) by (nonlinear_arith)
        requires
            num < (top * scale) * den,
            num == step * q + rest,
            rest >= 0,
            step == den * scale,
            step > 0,
    {
        if q >= top {
            assert(step * q >= step * top);
            assert(step * top == (top * scale) * den);
        }
    }
    if n == top {
        if k > f.max_exponent() {
            rounding::lemma_pow2_monotone((p + f.max_exponent()) as nat, p + k);
        }
        if k == f.max_exponent() {
            assert(p + k == f.precision() + f.max_exponent());
        }
        lemma_power_is_representable(f, p + k);
    } else {
        if k > f.max_exponent() {
            let half = power2::pow2((p - 1) as nat);
            power2::lemma_pow2_adds((p - 1) as nat, k);
            assert(q >= half) by (nonlinear_arith)
                requires
                    num >= (half * scale) * den,
                    num == step * q + rest,
                    rest < step,
                    step == den * scale,
                    step > 0,
            {
                if q + 1 <= half {
                    assert(step * (q + 1) <= step * half);
                    assert(step * half == (half * scale) * den);
                }
            }
            assert(n * scale >= half * scale) by (nonlinear_arith)
                requires
                    n >= half,
            ;
            rounding::lemma_pow2_monotone((p + f.max_exponent()) as nat, (p - 1 + k) as nat);
        }
        assert(is_parts(f, n * scale, n, k));
    }
}

/// A larger quotient is rounded to no smaller a number.
pub proof fn law_rounding_keeps_order(f: Format, negative: bool, low: nat, high: nat, den: nat)
    requires
        den > 0,
        low <= high,
        model::round(f, negative, low, den) is Finite,
        model::round(f, negative, high, den) is Finite,
    ensures
        model::round(f, negative, low, den)->magnitude <= model::round(
            f,
            negative,
            high,
            den,
        )->magnitude,
{
    let a = model::round(f, negative, low, den)->magnitude;
    let b = model::round(f, negative, high, den)->magnitude;
    law_rounded_is_representable(f, negative, low, den);
    law_rounded_is_representable(f, negative, high, den);
    law_rounded_is_nearest(f, negative, low, den, b);
    law_rounded_is_nearest(f, negative, high, den, a);
    if low == high {
    } else if a > b {
        assert(a * den >= b * den + den) by (nonlinear_arith)
            requires
                a >= b + 1,
        ;
    }
}

/// A quotient half way between two significands goes to the even one.
pub proof fn law_tie_goes_to_even(f: Format, negative: bool, m: nat, k: nat)
    requires
        m + 1 < power2::pow2(f.precision() as nat),
        k > 0 ==> m >= power2::pow2((f.precision() - 1) as nat),
        k <= f.max_exponent(),
    ensures
        model::round(f, negative, (2 * m + 1) * power2::pow2(k), 2) == (Value::Finite {
            negative,
            magnitude: (if m % 2 == 0 {
                m
            } else {
                m + 1
            }) * power2::pow2(k),
        }),
{
    let p = f.precision() as nat;
    let scale = power2::pow2(k);
    let num = (2 * m + 1) * scale;
    let step = 2 * scale;
    let top = power2::pow2(p);
    power2::lemma_pow2_pos(k);
    power2::lemma_pow2_adds(p, k);
    assert(num < (top * scale) * 2) by (nonlinear_arith)
        requires
            num == (2 * m + 1) * scale,
            m + 1 < top,
            scale > 0,
    ;
    if k > 0 {
        let half = power2::pow2((p - 1) as nat);
        power2::lemma_pow2_adds((p - 1) as nat, k);
        assert(num >= (half * scale) * 2) by (nonlinear_arith)
            requires
                num == (2 * m + 1) * scale,
                m >= half,
        ;
    }
    assert(num == m * step + scale) by (nonlinear_arith)
        requires
            num == (2 * m + 1) * scale,
            step == 2 * scale,
    ;
    vstd::arithmetic::div_mod::lemma_fundamental_div_mod_converse(
        num as int,
        step as int,
        m as int,
        scale as int,
    );
    let n = if m % 2 == 0 {
        m
    } else {
        m + 1
    };
    rounding::lemma_round_at(f, negative, num, 2, k, n);
    lemma_within_range(f, n, k);
}

/// A quotient beyond the finite range becomes infinite.
pub proof fn law_overflow_is_infinite(f: Format, negative: bool, num: nat, den: nat)
    requires
        den > 0,
        num >= power2::pow2((f.precision() + f.max_exponent()) as nat) * den,
    ensures
        model::round(f, negative, num, den) == (Value::Infinite { negative }),
{
    let top = power2::pow2((f.precision() + f.max_exponent()) as nat);
    if model::round(f, negative, num, den) is Finite {
        let r = model::round(f, negative, num, den)->magnitude;
        let p = f.precision() as nat;
        let k = lemma_quantum_exists(f, num, den);
        let scale = power2::pow2(k);
        let step = den * scale;
        let q = num / step;
        power2::lemma_pow2_pos(k);
        if k <= f.max_exponent() {
            rounding::lemma_pow2_monotone(p + k, (p + f.max_exponent()) as nat);
            let small = power2::pow2(p + k);
            assert(small * den <= top * den) by (nonlinear_arith)
                requires
                    small <= top,
            ;
        }
        let half = power2::pow2((p - 1) as nat);
        power2::lemma_pow2_adds((p - 1) as nat, k);
        rounding::lemma_pow2_monotone((p + f.max_exponent()) as nat, (p - 1 + k) as nat);
        assert(step > 0) by (nonlinear_arith)
            requires
                den > 0,
                scale > 0,
                step == den * scale,
        ;
        vstd::arithmetic::div_mod::lemma_fundamental_div_mod(num as int, step as int);
        let rest = num % step;
        assert(q >= half) by (nonlinear_arith)
            requires
                num >= (half * scale) * den,
                num == step * q + rest,
                rest < step,
                step == den * scale,
                step > 0,
        {
            if q + 1 <= half {
                assert(step * (q + 1) <= step * half);
                assert(step * half == (half * scale) * den);
            }
        }
        let n = model::nearest_even(num, step);
        assert(n * scale >= half * scale) by (nonlinear_arith)
            requires
                n >= half,
        ;
    }
}

/// Rounding is off by at most the quotient over two to the precision, or half of
/// the smallest positive number.
pub proof fn law_rounding_error_everywhere(f: Format, negative: bool, num: nat, den: nat)
    requires
        den > 0,
        model::round(f, negative, num, den) is Finite,
    ensures
        2 * distance(num, den, model::round(f, negative, num, den)->magnitude) * power2::pow2(
            (f.precision() - 1) as nat,
        ) <= num + power2::pow2((f.precision() - 1) as nat) * den,
{
    let p = f.precision() as nat;
    let half = power2::pow2((p - 1) as nat);
    let d = distance(num, den, model::round(f, negative, num, den)->magnitude);
    power2::lemma_pow2_unfold(p);
    if num >= half * den {
        law_rounding_error(f, negative, num, den);
        assert(2 * d * half == d * (2 * half)) by (nonlinear_arith);
    } else {
        let q = num / den;
        vstd::arithmetic::div_mod::lemma_fundamental_div_mod(num as int, den as int);
        let rest = num % den;
        power2::lemma_pow2_pos((p - 1) as nat);
        assert(q < half && q * den == den * q && (q + 1) * den == den * q + den) by (nonlinear_arith)
            requires
                num < half * den,
                num == den * q + rest,
                rest >= 0,
                den > 0,
        {
            if q >= half {
                assert(den * q >= half * den);
            }
        }
        power2::lemma2_to64();
        assert(q * 1 == q && (q + 1) * 1 == q + 1);
        assert(is_parts(f, q, q, 0));
        assert(is_parts(f, q + 1, q + 1, 0));
        law_rounded_is_nearest(f, negative, num, den, q);
        law_rounded_is_nearest(f, negative, num, den, q + 1);
        assert(2 * d <= den);
        assert(2 * d * half <= half * den) by (nonlinear_arith)
            requires
                2 * d <= den,
        ;
    }
}

/// Of the multiples of `scale`, the rounded one is nearest to `num / den`.
proof fn lemma_nearest_multiple(num: nat, den: nat, scale: nat, y: nat)
    requires
        den > 0,
        scale > 0,
    ensures
        distance(num, den, model::nearest_even(num, den * scale) * scale) <= distance(
            num,
            den,
            y * scale,
        ),
{
    let step = den * scale;
    let q = num / step;
    let r = num % step;
    let n = model::nearest_even(num, step);
    assert(step > 0) by (nonlinear_arith)
        requires
            den > 0,
            scale > 0,
            step == den * scale,
    ;
    vstd::arithmetic::div_mod::lemma_fundamental_div_mod(num as int, step as int);
    assert((n * scale) * den == n * step) by (nonlinear_arith)
        requires
            step == den * scale,
    ;
    assert((y * scale) * den == y * step) by (nonlinear_arith)
        requires
            step == den * scale,
    ;
    assert(num == q * step + r) by (nonlinear_arith)
        requires
            num == step * q + r,
    ;
    if y <= q {
        assert(y * step <= q * step) by (nonlinear_arith)
            requires
                y <= q,
        ;
    } else {
        assert(y * step >= q * step + step) by (nonlinear_arith)
            requires
                y >= q + 1,
        ;
    }
    if n == q + 1 {
        assert(n * step == q * step + step) by (nonlinear_arith)
            requires
                n == q + 1,
        ;
    }
}

/// Every whole number of at most as many bits as a significand has is a number
/// of the format.
pub proof fn law_whole_is_exact(f: Format, n: nat)
    requires
        n < power2::pow2(f.precision() as nat),
    ensures
        model::whole(f, n) == (Value::Finite { negative: false, magnitude: n * model::one(f) }),
{
    assert(is_parts(f, n * model::one(f), n, f.unit() as nat));
    law_representable_is_kept(f, false, n * model::one(f), 1, n * model::one(f));
}

} // verus!
