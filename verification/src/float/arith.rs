//! Arithmetic on numbers taken apart.
use crate::float::model;
use crate::float::model::{Format, Value};
use crate::float::rounding;
use crate::float::unpacked::Unpacked;
use vstd::arithmetic::power2;
use vstd::prelude::*;

verus! {

/// The number of format `f` nearest to `m` times two to the `up`, divided by two
/// to the `down`.
pub fn scaled(f: Format, negative: bool, m: u128, up: u32, down: u32) -> (r: Unpacked)
    requires
        m < power2::pow2(127),
        up < 80_000,
        down < 80_000,
    ensures
        r.wf(f),
        r@ == model::round(
            f,
            negative,
            m as nat * power2::pow2(up as nat),
            power2::pow2(down as nat),
        ),
{
    let e: i32 = up as i32 - down as i32;
    let ghost num = m as nat * power2::pow2(up as nat);
    let ghost den = power2::pow2(down as nat);
    proof {
        power2::lemma_pow2_pos(down as nat);
        rounding::lemma_raise(down as nat, up as nat, e as int);
        lemma_exact(num, den, m as nat, up as nat, e as int);
    }
    rounding::round_magnitude(f, negative, m, e, false, Ghost(num), Ghost(den))
}

proof fn lemma_exact(num: nat, den: nat, m: nat, up: nat, e: int)
    requires
        den > 0,
        num == m * power2::pow2(up),
        m > 0 ==> den * rounding::raise(e) == power2::pow2(up) * rounding::raise(-e),
    ensures
        rounding::brackets(num, den, m, e, false),
{
    let a = rounding::raise(e);
    let b = rounding::raise(-e);
    let w = power2::pow2(up);
    rounding::lemma_raise_positive(e);
    assert(m * (a * den) == num * b) by (nonlinear_arith)
        requires
            num == m * w,
            m == 0 || den * a == w * b,
    ;
    assert(m * (a * den) < (m + 1) * (a * den)) by (nonlinear_arith)
        requires
            a > 0,
            den > 0,
    ;
}

/// The whole number `n`, rounded to format `f`.
pub fn whole(f: Format, n: u64) -> (r: Unpacked)
    ensures
        r.wf(f),
        r@ == model::whole(f, n as nat),
{
    proof {
        power2::lemma2_to64();
        power2::lemma2_to64_rest();
        rounding::lemma_pow2_monotone(64, 127);
    }
    scaled(f, false, n as u128, f.unit(), 0)
}

/// The number `a` of format `from`, rounded to format `to`.
pub fn converted(from: Format, to: Format, a: Unpacked) -> (r: Unpacked)
    requires
        a.wf(from),
    ensures
        r.wf(to),
        r@ == model::converted(from, to, a@),
{
    match a {
        Unpacked::Finite { negative, significand, exponent } => {
            proof {
                power2::lemma2_to64_rest();
                rounding::lemma_pow2_monotone(64, 127);
                power2::lemma_pow2_adds(exponent as nat, to.unit() as nat);
                let x = power2::pow2(exponent as nat);
                let y = power2::pow2(to.unit() as nat);
                assert((significand as nat * x) * y == significand as nat * (x * y))
                    by (nonlinear_arith);
            }
            scaled(to, negative, significand as u128, exponent + to.unit(), from.unit())
        },
        _ => a,
    }
}

/// `-a`.
pub fn negated(f: Format, a: Unpacked) -> (r: Unpacked)
    requires
        a.wf(f),
    ensures
        r.wf(f),
        r@ == model::negated(a@),
{
    match a {
        Unpacked::Nan => Unpacked::Nan,
        Unpacked::Infinite { negative } => Unpacked::Infinite { negative: !negative },
        Unpacked::Finite { negative, significand, exponent } => Unpacked::Finite {
            negative: !negative,
            significand,
            exponent,
        },
    }
}

/// `a * b`.
pub fn product(f: Format, a: Unpacked, b: Unpacked) -> (r: Unpacked)
    requires
        a.wf(f),
        b.wf(f),
    ensures
        r.wf(f),
        r@ == model::product(f, a@, b@),
{
    match (a, b) {
        (Unpacked::Nan, _) => Unpacked::Nan,
        (_, Unpacked::Nan) => Unpacked::Nan,
        (Unpacked::Infinite { negative: x }, Unpacked::Infinite { negative: y }) => {
            Unpacked::Infinite { negative: x != y }
        },
        (Unpacked::Infinite { negative: x }, Unpacked::Finite { negative: y, significand, exponent }) => {
            proof {
                lemma_zero_magnitude(significand, exponent);
            }
            if significand == 0 {
                Unpacked::Nan
            } else {
                Unpacked::Infinite { negative: x != y }
            }
        },
        (Unpacked::Finite { negative: x, significand, exponent }, Unpacked::Infinite { negative: y }) => {
            proof {
                lemma_zero_magnitude(significand, exponent);
            }
            if significand == 0 {
                Unpacked::Nan
            } else {
                Unpacked::Infinite { negative: x != y }
            }
        },
        (
            Unpacked::Finite { negative: x, significand: m, exponent: i },
            Unpacked::Finite { negative: y, significand: n, exponent: j },
        ) => {
            proof {
                power2::lemma2_to64();
                power2::lemma2_to64_rest();
                power2::lemma_pow2_adds(53, 53);
                rounding::lemma_pow2_monotone(106, 127);
                rounding::lemma_pow2_monotone(f.precision() as nat, 53);
                let limit = power2::pow2(53);
                assert(0 <= m * n < limit * limit) by (nonlinear_arith)
                    requires
                        0 <= m < limit,
                        0 <= n < limit,
                ;
                power2::lemma_pow2_adds(i as nat, j as nat);
                let u = power2::pow2(i as nat);
                let v = power2::pow2(j as nat);
                assert((m * u) * (n * v) == (m * n) * (u * v)) by (nonlinear_arith);
            }
            scaled(f, x != y, m as u128 * n as u128, i + j, f.unit())
        },
    }
}

proof fn lemma_zero_magnitude(significand: u64, exponent: u32)
    ensures
        significand == 0 <==> significand as nat * power2::pow2(exponent as nat) == 0,
{
    let x = power2::pow2(exponent as nat);
    power2::lemma_pow2_pos(exponent as nat);
    assert(significand == 0 <==> significand as nat * x == 0) by (nonlinear_arith)
        requires
            x > 0,
    ;
}

/// `a / b`.
pub fn quotient(f: Format, a: Unpacked, b: Unpacked) -> (r: Unpacked)
    requires
        a.wf(f),
        b.wf(f),
    ensures
        r.wf(f),
        r@ == model::quotient(f, a@, b@),
{
    match (a, b) {
        (Unpacked::Nan, _) => Unpacked::Nan,
        (_, Unpacked::Nan) => Unpacked::Nan,
        (Unpacked::Infinite { .. }, Unpacked::Infinite { .. }) => Unpacked::Nan,
        (Unpacked::Infinite { negative: x }, Unpacked::Finite { negative: y, .. }) => {
            Unpacked::Infinite { negative: x != y }
        },
        (Unpacked::Finite { negative: x, .. }, Unpacked::Infinite { negative: y }) => {
            zero(f, x != y)
        },
        (
            Unpacked::Finite { negative: x, significand: m, exponent: i },
            Unpacked::Finite { negative: y, significand: n, exponent: j },
        ) => {
            proof {
                lemma_zero_magnitude(m, i);
                lemma_zero_magnitude(n, j);
            }
            if n != 0 {
                divide_finite(f, x != y, m, i, n, j)
            } else if m != 0 {
                Unpacked::Infinite { negative: x != y }
            } else {
                Unpacked::Nan
            }
        },
    }
}

/// The zero of the given sign.
pub fn zero(f: Format, negative: bool) -> (r: Unpacked)
    ensures
        r.wf(f),
        r@ == (Value::Finite { negative, magnitude: 0 }),
{
    proof {
        power2::lemma_pow2_pos(f.precision() as nat);
        lemma_zero_magnitude(0, 0);
    }
    Unpacked::Finite { negative, significand: 0, exponent: 0 }
}

fn divide_finite(f: Format, negative: bool, m: u64, i: u32, n: u64, j: u32) -> (r: Unpacked)
    requires
        m < power2::pow2(f.precision() as nat),
        0 < n < power2::pow2(f.precision() as nat),
        i <= f.max_exponent(),
        j <= f.max_exponent(),
    ensures
        r.wf(f),
        r@ == model::round(
            f,
            negative,
            (m as nat * power2::pow2(i as nat)) * model::one(f),
            n as nat * power2::pow2(j as nat),
        ),
{
    let ghost den = n as nat * power2::pow2(j as nat);
    let ghost num = (m as nat * power2::pow2(i as nat)) * model::one(f);
    proof {
        lemma_zero_magnitude(n, j);
        lemma_zero_magnitude(m, i);
        power2::lemma2_to64();
        power2::lemma2_to64_rest();
    }
    if m == 0 {
        proof {
            assert(num == 0) by (nonlinear_arith)
                requires
                    num == (m as nat * power2::pow2(i as nat)) * model::one(f),
                    m as nat * power2::pow2(i as nat) == 0,
            ;
            power2::lemma_pow2_pos(127);
            lemma_exact(num, den, 0, 0, 0);
        }
        return rounding::round_magnitude(f, negative, 0, 0, false, Ghost(num), Ghost(den));
    }
    let l = rounding::bit_length(m as u128);
    proof {
        if l > 53 {
            rounding::lemma_pow2_monotone(f.precision() as nat, 53);
            rounding::lemma_pow2_monotone(53, (l - 1) as nat);
        }
    }
    // Enough bits that the quotient has more than the format holds.
    let s = 120 - l;
    let lift = rounding::two_to(s);
    proof {
        lemma_lifted(f, m, l, s);
    }
    let dividend = m as u128 * lift;
    let q = dividend / (n as u128);
    let rest = dividend % (n as u128);
    let e: i32 = i as i32 + f.unit() as i32 - s as i32 - j as i32;
    proof {
        rounding::lemma_pow2_monotone(f.precision() as nat, 53);
        rounding::lemma_pow2_monotone(120, 127);
        power2::lemma_pow2_adds(53, 66);
        rounding::lemma_pow2_monotone(f.precision() as nat, 66);
        let low = power2::pow2(66);
        let limit = power2::pow2(53);
        assert(dividend == n * q + rest && 0 <= rest < n) by {
            vstd::arithmetic::div_mod::lemma_fundamental_div_mod(dividend as int, n as int);
        }
        assert(q >= low) by (nonlinear_arith)
            requires
                dividend >= limit * low,
                n < limit,
                dividend == n * q + rest,
                rest < n,
        ;
        assert(q <= dividend) by (nonlinear_arith)
            requires
                n >= 1,
                dividend == n * q + rest,
        ;
        lemma_quotient_brackets(f, m, i, n, j, s, e as int, q as nat, rest as nat);
    }
    rounding::round_magnitude(f, negative, q, e, rest != 0, Ghost(num), Ghost(den))
}

proof fn lemma_lifted(f: Format, m: u64, l: u32, s: u32)
    requires
        1 <= l <= 53,
        s == 120 - l,
        power2::pow2((l - 1) as nat) <= m < power2::pow2(l as nat),
    ensures
        power2::pow2(119) <= m * power2::pow2(s as nat) < power2::pow2(120) <= u128::MAX,
{
    power2::lemma_pow2_adds((l - 1) as nat, s as nat);
    power2::lemma_pow2_adds(l as nat, s as nat);
    power2::lemma_pow2_adds(56, 64);
    power2::lemma2_to64();
    power2::lemma2_to64_rest();
    power2::lemma_pow2_pos(s as nat);
    let lo = power2::pow2((l - 1) as nat);
    let hi = power2::pow2(l as nat);
    let x = power2::pow2(s as nat);
    assert(lo * x <= m * x < hi * x) by (nonlinear_arith)
        requires
            lo <= m < hi,
            x > 0,
    ;
}

proof fn lemma_quotient_brackets(f: Format, m: u64, i: u32, n: u64, j: u32, s: u32, e: int, q: nat, rest: nat)
    requires
        n > 0,
        e == i + f.unit() - s - j,
        m * power2::pow2(s as nat) == n * q + rest,
        rest < n,
    ensures
        rounding::brackets(
            (m as nat * power2::pow2(i as nat)) * model::one(f),
            n as nat * power2::pow2(j as nat),
            q,
            e,
            rest != 0,
        ),
{
    let a = rounding::raise(e);
    let b = rounding::raise(-e);
    let ui = power2::pow2(i as nat);
    let uj = power2::pow2(j as nat);
    let us = power2::pow2(s as nat);
    let unit = model::one(f);
    let num = (m as nat * ui) * unit;
    let den = n as nat * uj;
    let w = uj * a;
    rounding::lemma_raise_positive(e);
    power2::lemma_pow2_pos(j as nat);
    power2::lemma_pow2_adds(i as nat, f.unit() as nat);
    power2::lemma_pow2_adds(s as nat, j as nat);
    rounding::lemma_raise((s + j) as nat, (i + f.unit()) as nat, e);
    assert(num * b == (n * q + rest) * w) by (nonlinear_arith)
        requires
            num == (m as nat * ui) * unit,
            (us * uj) * a == (ui * unit) * b,
            m * us == n * q + rest,
            w == uj * a,
    ;
    assert(a * den == n * w) by (nonlinear_arith)
        requires
            den == n as nat * uj,
            w == uj * a,
    ;
    assert(w > 0) by (nonlinear_arith)
        requires
            uj > 0,
            a > 0,
            w == uj * a,
    ;
    assert(q * (n * w) <= (n * q + rest) * w < (q + 1) * (n * w)) by (nonlinear_arith)
        requires
            0 <= rest < n,
            w > 0,
    ;
    assert(rest != 0 <==> (n * q + rest) * w != q * (n * w)) by (nonlinear_arith)
        requires
            w > 0,
    ;
}

/// `a == b`.
pub fn equal(f: Format, a: Unpacked, b: Unpacked) -> (r: bool)
    requires
        a.wf(f),
        b.wf(f),
    ensures
        r == model::equal(a@, b@),
{
    match (a, b) {
        (Unpacked::Infinite { negative: x }, Unpacked::Infinite { negative: y }) => x == y,
        (
            Unpacked::Finite { negative: x, significand: m, exponent: i },
            Unpacked::Finite { negative: y, significand: n, exponent: j },
        ) => {
            proof {
                lemma_zero_magnitude(m, i);
                lemma_zero_magnitude(n, j);
                if m as nat * power2::pow2(i as nat) == n as nat * power2::pow2(j as nat) && m != 0 {
                    lemma_parts_unique(f, m, i, n, j);
                }
            }
            (m == 0 && n == 0) || (x == y && m == n && i == j)
        },
        _ => false,
    }
}

/// One magnitude has one significand and one exponent.
proof fn lemma_parts_unique(f: Format, m: u64, i: u32, n: u64, j: u32)
    requires
        (Unpacked::Finite { negative: false, significand: m, exponent: i }).wf(f),
        (Unpacked::Finite { negative: false, significand: n, exponent: j }).wf(f),
        m as nat * power2::pow2(i as nat) == n as nat * power2::pow2(j as nat),
        m != 0 || n != 0,
    ensures
        m == n,
        i == j,
{
    if i < j {
        lemma_parts_ordered(f, m, i, n, j);
    } else if j < i {
        lemma_parts_ordered(f, n, j, m, i);
    } else {
        let x = power2::pow2(i as nat);
        power2::lemma_pow2_pos(i as nat);
        assert(m == n) by (nonlinear_arith)
            requires
                m as nat * x == n as nat * x,
                x > 0,
        ;
    }
}

/// A larger exponent makes a larger magnitude.
proof fn lemma_parts_ordered(f: Format, m: u64, i: u32, n: u64, j: u32)
    requires
        (Unpacked::Finite { negative: false, significand: m, exponent: i }).wf(f),
        (Unpacked::Finite { negative: false, significand: n, exponent: j }).wf(f),
        i < j,
    ensures
        m as nat * power2::pow2(i as nat) < n as nat * power2::pow2(j as nat),
{
    let p = f.precision() as nat;
    let x = power2::pow2(i as nat);
    let y = power2::pow2(j as nat);
    let half = power2::pow2((p - 1) as nat);
    power2::lemma_pow2_unfold(p);
    power2::lemma_pow2_unfold((i + 1) as nat);
    power2::lemma_pow2_pos(i as nat);
    rounding::lemma_pow2_monotone((i + 1) as nat, j as nat);
    assert(m * x < n * y) by (nonlinear_arith)
        requires
            m < 2 * half,
            n >= half,
            2 * x <= y,
            x > 0,
            half >= 0,
    {
        assert(m * x < (2 * half) * x);
        assert((2 * half) * x == half * (2 * x));
        assert(half * (2 * x) <= half * y);
        assert(half * y <= n * y);
    }
}

/// `a + b`.
pub fn sum(f: Format, a: Unpacked, b: Unpacked) -> (r: Unpacked)
    requires
        a.wf(f),
        b.wf(f),
    ensures
        r.wf(f),
        r@ == model::sum(f, a@, b@),
{
    match (a, b) {
        (Unpacked::Nan, _) => Unpacked::Nan,
        (_, Unpacked::Nan) => Unpacked::Nan,
        (Unpacked::Infinite { negative: x }, Unpacked::Infinite { negative: y }) => if x == y {
            a
        } else {
            Unpacked::Nan
        },
        (Unpacked::Infinite { .. }, _) => a,
        (_, Unpacked::Infinite { .. }) => b,
        (
            Unpacked::Finite { negative: x, significand: m, exponent: i },
            Unpacked::Finite { negative: y, significand: n, exponent: j },
        ) => if i >= j {
            add_ordered(f, x, m, i, y, n, j)
        } else {
            add_ordered(f, y, n, j, x, m, i)
        },
    }
}

/// The sum of two finite numbers, the first of which has no smaller an exponent.
fn add_ordered(f: Format, x: bool, m: u64, i: u32, y: bool, n: u64, j: u32) -> (r: Unpacked)
    requires
        i >= j,
        (Unpacked::Finite { negative: x, significand: m, exponent: i }).wf(f),
        (Unpacked::Finite { negative: y, significand: n, exponent: j }).wf(f),
    ensures
        r.wf(f),
        r@ == model::sum(
            f,
            (Unpacked::Finite { negative: x, significand: m, exponent: i })@,
            (Unpacked::Finite { negative: y, significand: n, exponent: j })@,
        ),
{
    let d = i - j;
    if d > 64 {
        return add_distant(f, x, m, i, y, n, j);
    }
    let lift = rounding::two_to(d);
    let ghost unit = power2::pow2(j as nat);
    proof {
        power2::lemma2_to64();
        power2::lemma2_to64_rest();
        power2::lemma_pow2_adds(d as nat, j as nat);
        power2::lemma_pow2_adds(53, 64);
        power2::lemma_pow2_adds(54, 64);
        power2::lemma_pow2_unfold(118);
        rounding::lemma_pow2_monotone(f.precision() as nat, 53);
        rounding::lemma_pow2_monotone(d as nat, 64);
        rounding::lemma_pow2_monotone(118, 127);
        let limit = power2::pow2(53);
        let most = power2::pow2(64);
        assert(m * lift < limit * most) by (nonlinear_arith)
            requires
                m < limit,
                0 < lift <= most,
        ;
        assert(m * (lift * unit) == (m * lift) * unit) by (nonlinear_arith);
    }
    let high = m as u128 * lift;
    let low = n as u128;
    if x == y {
        proof {
            assert((high + low) * unit == high * unit + low * unit) by (nonlinear_arith);
            power2::lemma_pow2_pos(j as nat);
            assert(high + low > 0 ==> (high + low) * unit > 0) by (nonlinear_arith)
                requires
                    unit > 0,
            ;
            assert(high + low == 0 ==> (high + low) * unit == 0) by (nonlinear_arith);
        }
        scaled(f, x, high + low, j, 0)
    } else if high >= low {
        proof {
            assert((high - low) * unit == high * unit - low * unit) by (nonlinear_arith);
            power2::lemma_pow2_pos(j as nat);
            assert(high - low > 0 ==> (high - low) * unit > 0) by (nonlinear_arith)
                requires
                    unit > 0,
            ;
        }
        scaled(f, x && high > low, high - low, j, 0)
    } else {
        proof {
            assert((low - high) * unit == low * unit - high * unit) by (nonlinear_arith);
            power2::lemma_pow2_pos(j as nat);
            assert((low - high) * unit > 0) by (nonlinear_arith)
                requires
                    unit > 0,
                    low > high,
            ;
        }
        scaled(f, y, low - high, j, 0)
    }
}

/// The sum of two finite numbers where the second is below the last bit that
/// the first can show.
fn add_distant(f: Format, x: bool, m: u64, i: u32, y: bool, n: u64, j: u32) -> (r: Unpacked)
    requires
        i > j + 64,
        (Unpacked::Finite { negative: x, significand: m, exponent: i }).wf(f),
        (Unpacked::Finite { negative: y, significand: n, exponent: j }).wf(f),
    ensures
        r.wf(f),
        r@ == model::sum(
            f,
            (Unpacked::Finite { negative: x, significand: m, exponent: i })@,
            (Unpacked::Finite { negative: y, significand: n, exponent: j })@,
        ),
{
    let ghost far = m as nat * power2::pow2(i as nat);
    let ghost near = n as nat * power2::pow2(j as nat);
    let ghost unit = power2::pow2((i - 11) as nat);
    proof {
        power2::lemma2_to64();
        power2::lemma2_to64_rest();
        power2::lemma_pow2_adds(53, 11);
        power2::lemma_pow2_adds((f.precision() - 1) as nat, 11);
        power2::lemma_pow2_adds(11, (i - 11) as nat);
        power2::lemma_pow2_adds(53, j as nat);
        power2::lemma_pow2_pos(j as nat);
        power2::lemma_pow2_pos((i - 11) as nat);
        rounding::lemma_pow2_monotone(f.precision() as nat, 53);
        rounding::lemma_pow2_monotone((53 + j) as nat, (i - 11) as nat);
        rounding::lemma_pow2_monotone(f.precision() as nat + 1, (f.precision() - 1 + 11) as nat);
        power2::lemma_pow2_unfold(f.precision() as nat + 1);
        rounding::lemma_pow2_monotone(64, 127);
        lemma_zero_magnitude(n, j);
        let z = power2::pow2(j as nat);
        let limit = power2::pow2(53);
        assert(near < limit * z) by (nonlinear_arith)
            requires
                n < limit,
                z > 0,
                near == n as nat * z,
        ;
        assert(far == (m * 2048) * unit) by (nonlinear_arith)
            requires
                far == m as nat * (2048 * unit),
        ;
        assert(far >= unit) by (nonlinear_arith)
            requires
                far == (m * 2048) * unit,
                m * 2048 >= 1,
        ;
    }
    let lead = m as u128 * 2048;
    let e: i32 = i as i32 - 11;
    if n == 0 {
        proof {
            lemma_beside(far, lead as nat, e as nat, 0);
        }
        rounding::round_magnitude(f, x, lead, e, false, Ghost(far), Ghost(1))
    } else if x == y {
        proof {
            lemma_beside((far + near) as nat, lead as nat, e as nat, near as int);
        }
        rounding::round_magnitude(f, x, lead, e, true, Ghost((far + near) as nat), Ghost(1))
    } else {
        proof {
            assert((lead - 1) * unit == lead * unit - unit) by (nonlinear_arith);
            lemma_beside((far - near) as nat, (lead - 1) as nat, e as nat, unit - near);
        }
        rounding::round_magnitude(f, x, lead - 1, e, true, Ghost((far - near) as nat), Ghost(1))
    }
}

proof fn lemma_beside(num: nat, m: nat, e: nat, over: int)
    requires
        num == m * power2::pow2(e) + over,
        0 <= over < power2::pow2(e),
    ensures
        rounding::brackets(num, 1, m, e as int, over != 0),
{
    let u = power2::pow2(e);
    if e == 0 {
        power2::lemma2_to64();
    }
    assert((m + 1) * (u * 1) == m * u + u) by (nonlinear_arith);
    assert(rounding::raise(-(e as int)) == 1);
}

/// `a - b`.
pub fn difference(f: Format, a: Unpacked, b: Unpacked) -> (r: Unpacked)
    requires
        a.wf(f),
        b.wf(f),
    ensures
        r.wf(f),
        r@ == model::difference(f, a@, b@),
{
    sum(f, a, negated(f, b))
}

/// `n`, or the largest `usize` where `n` exceeds it.
fn saturated(n: u128) -> (r: usize)
    ensures
        r == model::saturated(n as nat),
{
    if n <= usize::MAX as u128 {
        n as usize
    } else {
        usize::MAX
    }
}

/// `a` rounded down, as an index.
pub fn floor_index(f: Format, a: Unpacked) -> (r: usize)
    requires
        a.wf(f),
    ensures
        r == model::floor_index(f, a@),
{
    match a {
        Unpacked::Nan => 0,
        Unpacked::Infinite { negative } => if negative {
            0
        } else {
            usize::MAX
        },
        Unpacked::Finite { negative, significand, exponent } => {
            if negative {
                0
            } else if exponent >= f.unit() {
                scaled_up(f, significand, exponent)
            } else {
                let s = f.unit() - exponent;
                proof {
                    lemma_scaled_down(f, significand, exponent, s);
                }
                if s >= 64 {
                    proof {
                        lemma_below_one(f, significand, s);
                    }
                    0
                } else {
                    saturated(significand as u128 / rounding::two_to(s))
                }
            }
        },
    }
}

/// `a` rounded to the nearest whole number, as a length of at least one.
pub fn rounded_length(f: Format, a: Unpacked) -> (r: usize)
    requires
        a.wf(f),
    ensures
        r == model::rounded_length(f, a@),
{
    match a {
        Unpacked::Nan => 1,
        Unpacked::Infinite { negative } => if negative {
            1
        } else {
            usize::MAX
        },
        Unpacked::Finite { negative, significand, exponent } => {
            if negative {
                1
            } else if exponent >= f.unit() {
                let n = scaled_up(f, significand, exponent);
                proof {
                    lemma_half_vanishes(f, significand, exponent);
                }
                if n == 0 {
                    1
                } else {
                    n
                }
            } else {
                let s = f.unit() - exponent;
                proof {
                    lemma_scaled_down(f, significand, exponent, s);
                }
                if s >= 64 {
                    proof {
                        lemma_below_one(f, significand, s);
                    }
                    1
                } else {
                    let half = rounding::two_to(s - 1);
                    let range = rounding::two_to(s);
                    proof {
                        power2::lemma2_to64_rest();
                        rounding::lemma_pow2_monotone((s - 1) as nat, 64);
                    }
                    let n = (significand as u128 + half) / range;
                    if n == 0 {
                        1
                    } else {
                        saturated(n)
                    }
                }
            }
        },
    }
}

/// The whole number that a magnitude of at least one stands for.
fn scaled_up(f: Format, significand: u64, exponent: u32) -> (r: usize)
    requires
        (Unpacked::Finite { negative: false, significand, exponent }).wf(f),
        exponent >= f.unit(),
    ensures
        r == model::saturated(
            (significand as nat * power2::pow2(exponent as nat)) / model::one(f),
        ),
        significand as nat * power2::pow2(exponent as nat) == (significand as nat * power2::pow2(
            (exponent - f.unit()) as nat,
        )) * model::one(f),
{
    let s = exponent - f.unit();
    let ghost n = significand as nat * power2::pow2(s as nat);
    proof {
        let x = power2::pow2(s as nat);
        let unit = model::one(f);
        power2::lemma_pow2_adds(s as nat, f.unit() as nat);
        power2::lemma_pow2_pos(f.unit() as nat);
        assert(significand as nat * (x * unit) == n * unit) by (nonlinear_arith)
            requires
                n == significand as nat * x,
        ;
        vstd::arithmetic::div_mod::lemma_div_by_multiple(n as int, unit as int);
        power2::lemma2_to64();
        power2::lemma2_to64_rest();
    }
    if s >= 64 {
        proof {
            let x = power2::pow2(s as nat);
            let least = power2::pow2((f.precision() - 1) as nat);
            rounding::lemma_pow2_monotone(64, s as nat);
            rounding::lemma_pow2_monotone(0, (f.precision() - 1) as nat);
            assert(n >= x) by (nonlinear_arith)
                requires
                    n == significand as nat * x,
                    significand >= 1,
            ;
        }
        usize::MAX
    } else {
        let lift = rounding::two_to(s);
        proof {
            power2::lemma_pow2_adds(53, 64);
            power2::lemma_pow2_adds(54, 64);
            rounding::lemma_pow2_monotone(f.precision() as nat, 53);
            rounding::lemma_pow2_monotone(s as nat, 64);
            let limit = power2::pow2(53);
            let most = power2::pow2(64);
            assert(significand * lift < limit * most) by (nonlinear_arith)
                requires
                    significand < limit,
                    0 < lift <= most,
            ;
        }
        saturated(significand as u128 * lift)
    }
}

/// A magnitude with `s` bits below one, over one and rounded to the nearest.
proof fn lemma_scaled_down(f: Format, significand: u64, exponent: u32, s: u32)
    requires
        exponent < f.unit(),
        s == f.unit() - exponent,
    ensures
        ({
            let magnitude = significand as nat * power2::pow2(exponent as nat);
            &&& magnitude / model::one(f) == significand as nat / power2::pow2(s as nat)
            &&& (2 * magnitude + model::one(f)) / (2 * model::one(f)) == (significand
                + power2::pow2((s - 1) as nat)) as nat / power2::pow2(s as nat)
        }),
{
    let x = power2::pow2(exponent as nat);
    let range = power2::pow2(s as nat);
    let half = power2::pow2((s - 1) as nat);
    let unit = model::one(f);
    let magnitude = significand as nat * x;
    power2::lemma_pow2_adds(exponent as nat, s as nat);
    power2::lemma_pow2_unfold(s as nat);
    power2::lemma_pow2_pos(exponent as nat);
    power2::lemma_pow2_pos(s as nat);
    assert(unit == x * range);
    vstd::arithmetic::div_mod::lemma_div_multiples_vanish_quotient(
        x as int,
        significand as int,
        range as int,
    );
    assert(x * significand == magnitude) by (nonlinear_arith)
        requires
            magnitude == significand as nat * x,
    ;
    let doubled = 2 * x;
    let n = (significand + half) as nat;
    vstd::arithmetic::div_mod::lemma_div_multiples_vanish_quotient(
        doubled as int,
        n as int,
        range as int,
    );
    assert(doubled * n == 2 * magnitude + unit) by (nonlinear_arith)
        requires
            doubled == 2 * x,
            n == significand + half,
            magnitude == significand as nat * x,
            unit == x * range,
            range == 2 * half,
    ;
    assert(doubled * range == 2 * unit) by (nonlinear_arith)
        requires
            doubled == 2 * x,
            unit == x * range,
    ;
}

/// A significand with more bits below one than it has is nearer to zero.
proof fn lemma_below_one(f: Format, significand: u64, s: u32)
    requires
        significand < power2::pow2(f.precision() as nat),
        s >= 64,
    ensures
        significand as nat / power2::pow2(s as nat) == 0,
        (significand + power2::pow2((s - 1) as nat)) as nat / power2::pow2(s as nat) == 0,
{
    let range = power2::pow2(s as nat);
    let half = power2::pow2((s - 1) as nat);
    power2::lemma_pow2_unfold(s as nat);
    rounding::lemma_pow2_monotone(f.precision() as nat, (s - 1) as nat);
    vstd::arithmetic::div_mod::lemma_basic_div(significand as int, range as int);
    vstd::arithmetic::div_mod::lemma_basic_div(significand + half, range as int);
}

/// Half of one more changes no whole number.
proof fn lemma_half_vanishes(f: Format, significand: u64, exponent: u32)
    requires
        exponent >= f.unit(),
        significand as nat * power2::pow2(exponent as nat) == (significand as nat * power2::pow2(
            (exponent - f.unit()) as nat,
        )) * model::one(f),
    ensures
        ({
            let magnitude = significand as nat * power2::pow2(exponent as nat);
            (2 * magnitude + model::one(f)) / (2 * model::one(f)) == magnitude / model::one(f) >= 0
        }),
{
    let unit = model::one(f);
    let n = significand as nat * power2::pow2((exponent - f.unit()) as nat);
    power2::lemma_pow2_pos(f.unit() as nat);
    vstd::arithmetic::div_mod::lemma_div_by_multiple(n as int, unit as int);
    let doubled = 2 * (n * unit) + unit;
    assert(doubled == n * (2 * unit) + unit) by (nonlinear_arith)
        requires
            doubled == 2 * (n * unit) + unit,
    ;
    vstd::arithmetic::div_mod::lemma_fundamental_div_mod_converse(
        doubled as int,
        (2 * unit) as int,
        n as int,
        unit as int,
    );
}

} // verus!
