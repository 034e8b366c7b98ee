//! Rounding an exact magnitude to a significand and an exponent.
use crate::float::model;
use crate::float::model::{Format, Value};
use crate::float::unpacked::Unpacked;
use vstd::arithmetic::power2;
use vstd::prelude::*;

verus! {

/// Two to the `e`, or one where `e` is negative.
pub open spec fn raise(e: int) -> nat {
    if e >= 0 {
        power2::pow2(e as nat)
    } else {
        1
    }
}

/// The exact magnitude `num / den` is `m` times two to the `e`, plus less than
/// one more of that power of two, which is there just where `inexact` holds.
pub open spec fn brackets(num: nat, den: nat, m: nat, e: int, inexact: bool) -> bool {
    &&& m * (raise(e) * den) <= num * raise(-e) < (m + 1) * (raise(e) * den)
    &&& inexact <==> num * raise(-e) != m * (raise(e) * den)
}

/// There is only one exponent at which a quotient fits.
pub proof fn lemma_quantum_unique(f: Format, num: nat, den: nat, a: nat, b: nat)
    requires
        model::is_quantum(f, num, den, a),
        model::is_quantum(f, num, den, b),
    ensures
        a == b,
{
    let p = f.precision() as nat;
    if a < b {
        lemma_pow2_monotone(p + a, (p + b - 1) as nat);
        assert(power2::pow2(p + a) * den <= power2::pow2((p + b - 1) as nat) * den)
            by (nonlinear_arith)
            requires
                power2::pow2(p + a) <= power2::pow2((p + b - 1) as nat),
        ;
    }
    if b < a {
        lemma_pow2_monotone(p + b, (p + a - 1) as nat);
        assert(power2::pow2(p + b) * den <= power2::pow2((p + a - 1) as nat) * den)
            by (nonlinear_arith)
            requires
                power2::pow2(p + b) <= power2::pow2((p + a - 1) as nat),
        ;
    }
}

/// Powers of two grow with the exponent.
pub proof fn lemma_pow2_monotone(a: nat, b: nat)
    requires
        a <= b,
    ensures
        power2::pow2(a) <= power2::pow2(b),
{
    if a < b {
        power2::lemma_pow2_strictly_increases(a, b);
    }
}

/// Quotient and remainder scale with numerator and step.
proof fn lemma_nearest_even_scales(num: nat, step: nat, c: nat)
    requires
        step > 0,
        c > 0,
    ensures
        model::nearest_even(num * c, step * c) == model::nearest_even(num, step),
{
    let q = num / step;
    let r = num % step;
    vstd::arithmetic::div_mod::lemma_fundamental_div_mod(num as int, step as int);
    assert(num * c == q * (step * c) + r * c) by (nonlinear_arith)
        requires
            num == step * q + r,
    ;
    assert(0 <= r * c < step * c) by (nonlinear_arith)
        requires
            0 <= r < step,
            c > 0,
    ;
    vstd::arithmetic::div_mod::lemma_fundamental_div_mod_converse(
        (num * c) as int,
        (step * c) as int,
        q as int,
        (r * c) as int,
    );
    assert(2 * (r * c) < step * c <==> 2 * r < step) by (nonlinear_arith)
        requires
            c > 0,
    ;
    assert(2 * (r * c) == step * c <==> 2 * r == step) by (nonlinear_arith)
        requires
            c > 0,
    ;
}

/// Rounding looks at the leading part `q`, the `low` discarded part out of
/// `2 * half`, and whether anything is left below that.
proof fn lemma_nearest_even_parts(num: nat, u: nat, q: nat, low: nat, half: nat, t: nat)
    requires
        half > 0,
        low < 2 * half,
        t < u,
        num == (q * (2 * half) + low) * u + t,
    ensures
        model::nearest_even(num, (2 * half) * u) == if low < half || (low == half && t == 0 && q % 2
            == 0) {
            q
        } else {
            q + 1
        },
{
    let step = (2 * half) * u;
    let r = low * u + t;
    assert(num == q * step + r) by (nonlinear_arith)
        requires
            num == (q * (2 * half) + low) * u + t,
            step == (2 * half) * u,
            r == low * u + t,
    ;
    assert(0 <= r < step) by (nonlinear_arith)
        requires
            low + 1 <= 2 * half,
            t < u,
            step == (2 * half) * u,
            r == low * u + t,
    ;
    vstd::arithmetic::div_mod::lemma_fundamental_div_mod_converse(
        num as int,
        step as int,
        q as int,
        r as int,
    );
    if low < half {
        assert(2 * r < step) by (nonlinear_arith)
            requires
                low + 1 <= half,
                t < u,
                step == (2 * half) * u,
                r == low * u + t,
        ;
    } else if low == half {
        assert(2 * r == step + 2 * t) by (nonlinear_arith)
            requires
                low == half,
                step == (2 * half) * u,
                r == low * u + t,
        ;
    } else {
        assert(2 * r > step) by (nonlinear_arith)
            requires
                low >= half + 1,
                t < u,
                step == (2 * half) * u,
                r == low * u + t,
        ;
    }
}

/// Two to the `s`.
pub fn two_to(s: u32) -> (r: u128)
    requires
        s < 128,
    ensures
        r > 0,
        r == power2::pow2(s as nat),
{
    proof {
        lemma_one_shifted(s);
        power2::lemma_pow2_pos(s as nat);
    }
    1u128 << s
}

proof fn lemma_one_shifted(s: u32)
    requires
        s < 128,
    ensures
        1u128 << s == power2::pow2(s as nat),
    decreases s,
{
    if s == 0 {
        assert(1u128 << 0u32 == 1) by (bit_vector);
        power2::lemma2_to64();
    } else {
        let t = (s - 1) as u32;
        lemma_one_shifted(t);
        power2::lemma_pow2_unfold(s as nat);
        assert(1u128 << s == 2 * (1u128 << t)) by (bit_vector)
            requires
                0 < s < 128,
                t == s - 1,
        ;
    }
}

fn bit_length_64(x: u64) -> (l: u32)
    requires
        x > 0,
    ensures
        1 <= l <= 64,
        power2::pow2((l - 1) as nat) <= x < power2::pow2(l as nat),
{
    let z = x.leading_zeros();
    proof {
        vstd::std_specs::bits::axiom_u64_leading_zeros(x);
        let above = (64 - z) as u64;
        let top = (63 - z) as u64;
        vstd::bits::lemma_u64_shr_is_div(x, top);
        power2::lemma_pow2_pos(top as nat);
        let n = x >> top;
        assert(n & 1u64 != 0u64 ==> n != 0u64) by (bit_vector);
        assert(x >= power2::pow2(top as nat)) by (nonlinear_arith)
            requires
                x as nat / power2::pow2(top as nat) >= 1,
                power2::pow2(top as nat) > 0,
        ;
        if z == 0 {
            power2::lemma2_to64();
            power2::lemma2_to64_rest();
        } else {
            vstd::bits::lemma_u64_shr_is_div(x, above);
            power2::lemma_pow2_pos(above as nat);
            assert(x < power2::pow2(above as nat)) by (nonlinear_arith)
                requires
                    x as nat / power2::pow2(above as nat) == 0,
                    power2::pow2(above as nat) > 0,
            ;
        }
    }
    64 - z
}

/// The number of bits that `x` takes.
pub fn bit_length(x: u128) -> (l: u32)
    requires
        x > 0,
    ensures
        1 <= l <= 128,
        power2::pow2((l - 1) as nat) <= x < power2::pow2(l as nat),
{
    let high = (x >> 64) as u64;
    proof {
        assert(high == x / 0x1_0000_0000_0000_0000) by (bit_vector)
            requires
                high == (x >> 64) as u64,
        ;
        power2::lemma2_to64_rest();
    }
    if high == 0 {
        bit_length_64(x as u64)
    } else {
        let l = bit_length_64(high);
        proof {
            power2::lemma_pow2_adds((l - 1) as nat, 64);
            power2::lemma_pow2_adds(l as nat, 64);
            let lo = power2::pow2((l - 1) as nat);
            let hi = power2::pow2(l as nat);
            let w: nat = 0x1_0000_0000_0000_0000;
            assert(lo * w <= x < hi * w) by (nonlinear_arith)
                requires
                    lo <= high,
                    high + 1 <= hi,
                    high == x / 0x1_0000_0000_0000_0000,
                    w == 0x1_0000_0000_0000_0000,
            ;
        }
        l + 64
    }
}

/// Raising moves a power of two from one side to the other.
pub proof fn lemma_raise(a: nat, b: nat, e: int)
    requires
        a + e <= b,
    ensures
        power2::pow2(a) * raise(e) <= power2::pow2(b) * raise(-e),
        a + e == b ==> power2::pow2(a) * raise(e) == power2::pow2(b) * raise(-e),
{
    if e >= 0 {
        power2::lemma_pow2_adds(a, e as nat);
        lemma_pow2_monotone(a + e as nat, b);
        if e == 0 {
            power2::lemma2_to64();
        }
    } else {
        power2::lemma_pow2_adds(b, (-e) as nat);
        lemma_pow2_monotone(a, b + (-e) as nat);
    }
}

/// What something is raised by is positive.
pub proof fn lemma_raise_positive(e: int)
    ensures
        raise(e) > 0,
{
    if e >= 0 {
        power2::lemma_pow2_pos(e as nat);
    }
}

/// A magnitude whose leading part has `l` bits is at its quantum where those
/// bits fill the precision, or at zero where they do not reach it.
pub proof fn lemma_is_quantum(f: Format, num: nat, den: nat, m: nat, e: int, inexact: bool, l: nat, k: nat)
    requires
        den > 0,
        l > 0,
        brackets(num, den, m, e, inexact),
        power2::pow2((l - 1) as nat) <= m < power2::pow2(l),
        k == if l + e > f.precision() {
            l + e - f.precision()
        } else {
            0
        },
    ensures
        model::is_quantum(f, num, den, k),
{
    let p = f.precision() as nat;
    let a = raise(e);
    let b = raise(-e);
    lemma_raise_positive(e);
    lemma_raise_positive(-e);
    lemma_raise(l, p + k, e);
    let top = power2::pow2(p + k);
    let above = power2::pow2(l);
    assert(num < top * den) by {
        assert((m + 1) * (a * den) <= above * (a * den)) by (nonlinear_arith)
            requires
                m + 1 <= above,
        ;
        assert(above * (a * den) == (above * a) * den) by (nonlinear_arith);
        assert((above * a) * den <= (top * b) * den) by (nonlinear_arith)
            requires
                above * a <= top * b,
        ;
        assert((top * b) * den == (top * den) * b) by (nonlinear_arith);
        assert(num * b < (top * den) * b);
        assert(num < top * den) by (nonlinear_arith)
            requires
                num * b < (top * den) * b,
                b > 0,
        ;
    }
    if k > 0 {
        lemma_raise((l - 1) as nat, (p + k - 1) as nat, e);
        let low = power2::pow2((p + k - 1) as nat);
        let below = power2::pow2((l - 1) as nat);
        assert(num >= low * den) by {
            assert(below * (a * den) <= m * (a * den)) by (nonlinear_arith)
                requires
                    below <= m,
            ;
            assert(below * (a * den) == (below * a) * den) by (nonlinear_arith);
            assert((low * b) * den == (low * den) * b) by (nonlinear_arith);
            assert(num >= low * den) by (nonlinear_arith)
                requires
                    (low * den) * b <= num * b,
                    b > 0,
            ;
        }
    }
}

/// Rounding at a known quantum.
pub proof fn lemma_round_at(f: Format, negative: bool, num: nat, den: nat, k: nat, n: nat)
    requires
        model::is_quantum(f, num, den, k),
        n == model::nearest_even(num, den * power2::pow2(k)),
    ensures
        model::round(f, negative, num, den) == if n * power2::pow2(k) < power2::pow2(
            (f.precision() + f.max_exponent()) as nat,
        ) {
            Value::Finite { negative, magnitude: n * power2::pow2(k) }
        } else {
            Value::Infinite { negative }
        },
{
    lemma_quantum_unique(f, num, den, model::quantum(f, num, den), k);
}

/// Dropping `d` bits of the leading part `m` and rounding on what they held.
proof fn lemma_drop_bits(num: nat, den: nat, m: nat, e: int, inexact: bool, d: nat, k: nat, q: nat, low: nat)
    requires
        den > 0,
        brackets(num, den, m, e, inexact),
        d > 0,
        d == k - e,
        m == q * power2::pow2(d) + low,
        low < power2::pow2(d),
    ensures
        model::nearest_even(num, den * power2::pow2(k)) == if low < power2::pow2((d - 1) as nat) || (
        low == power2::pow2((d - 1) as nat) && !inexact && q % 2 == 0) {
            q
        } else {
            q + 1
        },
{
    let a = raise(e);
    let b = raise(-e);
    let u = a * den;
    let n = num * b;
    let half = power2::pow2((d - 1) as nat);
    let t = (n - m * u) as nat;
    lemma_raise_positive(-e);
    power2::lemma_pow2_unfold(d);
    power2::lemma_pow2_pos((d - 1) as nat);
    power2::lemma_pow2_pos(k);
    lemma_raise(d, k, e);
    assert(t < u) by (nonlinear_arith)
        requires
            n < (m + 1) * u,
            t == n - m * u,
    ;
    assert(n == (q * (2 * half) + low) * u + t);
    lemma_nearest_even_parts(n, u, q, low, half, t);
    let step = den * power2::pow2(k);
    assert((2 * half) * u == step * b) by (nonlinear_arith)
        requires
            power2::pow2(d) == 2 * half,
            power2::pow2(d) * a == power2::pow2(k) * b,
            u == a * den,
            step == den * power2::pow2(k),
    ;
    assert(step > 0) by (nonlinear_arith)
        requires
            den > 0,
            power2::pow2(k) > 0,
            step == den * power2::pow2(k),
    ;
    lemma_nearest_even_scales(num, step, b);
}

/// A magnitude that needs no bits dropped.
pub proof fn lemma_keep_bits(num: nat, den: nat, m: nat, e: int, k: nat, q: nat)
    requires
        den > 0,
        brackets(num, den, m, e, false),
        e >= k,
        q == m * power2::pow2((e - k) as nat),
    ensures
        model::nearest_even(num, den * power2::pow2(k)) == q,
{
    power2::lemma_pow2_adds((e - k) as nat, k);
    power2::lemma_pow2_pos(k);
    let lift = power2::pow2((e - k) as nat);
    let scale = power2::pow2(k);
    let step = den * scale;
    if e == 0 {
        power2::lemma2_to64();
    }
    assert(raise(-e) == 1);
    assert(num == q * step) by (nonlinear_arith)
        requires
            num == m * ((lift * scale) * den),
            q == m * lift,
            step == den * scale,
    ;
    assert(step > 0) by (nonlinear_arith)
        requires
            den > 0,
            scale > 0,
            step == den * scale,
    ;
    vstd::arithmetic::div_mod::lemma_fundamental_div_mod_converse(num as int, step as int, q as int, 0);
}

proof fn lemma_round_zero(f: Format, negative: bool, num: nat, den: nat, e: int)
    requires
        den > 0,
        brackets(num, den, 0, e, false),
    ensures
        model::round(f, negative, num, den) == (Value::Finite { negative, magnitude: 0 }),
{
    let b = raise(-e);
    lemma_raise_positive(-e);
    assert(num == 0) by (nonlinear_arith)
        requires
            num * b == 0,
            b > 0,
    ;
    let top = power2::pow2(f.precision() as nat);
    power2::lemma_pow2_pos(f.precision() as nat);
    assert(0 < top * den) by (nonlinear_arith)
        requires
            top > 0,
            den > 0,
    ;
    assert(model::is_quantum(f, num, den, 0));
    power2::lemma2_to64();
    power2::lemma_pow2_pos((f.precision() + f.max_exponent()) as nat);
    assert(model::nearest_even(0, den * power2::pow2(0)) == 0);
    lemma_round_at(f, negative, num, den, 0, 0);
}

/// The significand of a magnitude whose lowest bit is at or above the quantum.
fn keep_bits(f: Format, m: u128, e: i32, k: i32, l: u32, Ghost(num): Ghost<nat>, Ghost(den): Ghost<nat>) -> (n: u64)
    requires
        den > 0,
        brackets(num, den, m as nat, e as int, false),
        1 <= l <= 128,
        power2::pow2((l - 1) as nat) <= m < power2::pow2(l as nat),
        0 <= k <= e,
        l + e - f.precision() <= k,
        k > 0 ==> k == l + e - f.precision(),
    ensures
        n == model::nearest_even(num, den * power2::pow2(k as nat)),
        n < power2::pow2(f.precision() as nat),
        k > 0 ==> n >= power2::pow2((f.precision() - 1) as nat),
{
    let s = (e - k) as u32;
    let lift = two_to(s);
    let ghost p = f.precision() as nat;
    proof {
        power2::lemma2_to64_rest();
        lemma_pow2_monotone(p, 64);
        power2::lemma_pow2_adds(l as nat, s as nat);
        power2::lemma_pow2_adds((l - 1) as nat, s as nat);
        lemma_pow2_monotone(l as nat + s as nat, p);
        let lo = power2::pow2((l - 1) as nat);
        let hi = power2::pow2(l as nat);
        assert(m * lift < hi * lift) by (nonlinear_arith)
            requires
                m < hi,
                lift > 0,
        ;
        assert(lo * lift <= m * lift) by (nonlinear_arith)
            requires
                lo <= m,
        ;
        lemma_keep_bits(num, den, m as nat, e as int, k as nat, (m * lift) as nat);
    }
    (m * lift) as u64
}

/// The significand of a magnitude with bits below the quantum.
fn drop_bits(
    f: Format,
    m: u128,
    e: i32,
    k: i32,
    l: u32,
    inexact: bool,
    Ghost(num): Ghost<nat>,
    Ghost(den): Ghost<nat>,
) -> (n: u64)
    requires
        den > 0,
        brackets(num, den, m as nat, e as int, inexact),
        1 <= l <= 128,
        power2::pow2((l - 1) as nat) <= m < power2::pow2(l as nat),
        m < power2::pow2(127),
        k >= 0,
        -200_000 < e < k < 200_000,
        l + e - f.precision() <= k,
        k > 0 ==> k == l + e - f.precision(),
    ensures
        n == model::nearest_even(num, den * power2::pow2(k as nat)),
        n <= power2::pow2(f.precision() as nat),
        k > 0 ==> n >= power2::pow2((f.precision() - 1) as nat),
{
    let d = (k - e) as u32;
    let ghost p = f.precision() as nat;
    proof {
        power2::lemma2_to64_rest();
        lemma_pow2_monotone(p, 63);
        power2::lemma_pow2_pos(p);
    }
    if d >= 128 {
        proof {
            lemma_pow2_monotone(127, (d - 1) as nat);
            power2::lemma_pow2_unfold(d as nat);
            lemma_drop_bits(num, den, m as nat, e as int, inexact, d as nat, k as nat, 0, m as nat);
            assert(k == 0);
        }
        return 0;
    }
    let q = m >> d;
    let part = two_to(d);
    let half = two_to(d - 1);
    proof {
        vstd::bits::lemma_u128_shr_is_div(m, d as u128);
        assert(m >> d == m >> (d as u128)) by (bit_vector)
            requires
                d < 128,
        ;
        vstd::arithmetic::div_mod::lemma_fundamental_div_mod(m as int, part as int);
        assert(q * part <= m) by (nonlinear_arith)
            requires
                m == part * (m as int / part as int) + m as int % part as int,
                m as int % part as int >= 0,
                q == m as int / part as int,
        ;
    }
    let low = m - q * part;
    proof {
        let r = m as int % part as int;
        assert(low == r) by (nonlinear_arith)
            requires
                m == part * q + r,
                low == m - q * part,
        ;
        lemma_drop_bits(num, den, m as nat, e as int, inexact, d as nat, k as nat, q as nat, low as nat);
        // The significand fills the precision just where the quantum is not zero.
        let limit = power2::pow2(p);
        if l <= p + d {
            power2::lemma_pow2_adds(p, d as nat);
            lemma_pow2_monotone(l as nat, p + d as nat);
            assert(q < limit) by (nonlinear_arith)
                requires
                    q * part <= m,
                    m < limit * part,
            ;
        }
        if k > 0 {
            power2::lemma_pow2_adds((p - 1) as nat, d as nat);
            let floor = power2::pow2((p - 1) as nat);
            assert(m < (q + 1) * part) by (nonlinear_arith)
                requires
                    m == part * q + r,
                    r < part,
            ;
            assert(q >= floor) by (nonlinear_arith)
                requires
                    m < (q + 1) * part,
                    m >= floor * part,
            ;
        }
    }
    if low < half || (low == half && !inexact && q % 2 == 0) {
        q as u64
    } else {
        (q + 1) as u64
    }
}

/// Puts a rounded significand into the parts of a number.
fn finish(f: Format, negative: bool, n: u64, k: u32) -> (r: Unpacked)
    requires
        n <= power2::pow2(f.precision() as nat),
        k > 0 ==> n >= power2::pow2((f.precision() - 1) as nat),
        k < 200_000,
    ensures
        r.wf(f),
        r@ == if n as nat * power2::pow2(k as nat) < power2::pow2(
            (f.precision() + f.max_exponent()) as nat,
        ) {
            Value::Finite { negative, magnitude: n as nat * power2::pow2(k as nat) }
        } else {
            Value::Infinite { negative }
        },
{
    let p = f.precision();
    let ghost scale = power2::pow2(k as nat);
    proof {
        power2::lemma2_to64();
        power2::lemma2_to64_rest();
        power2::lemma_pow2_unfold(p as nat);
        power2::lemma_pow2_unfold(k as nat + 1);
        power2::lemma_pow2_pos(k as nat);
    }
    let full = two_to(p) as u64;
    let (significand, exponent) = if n == full {
        proof {
            let half = power2::pow2((p - 1) as nat);
            assert(n * scale == half * (2 * scale)) by (nonlinear_arith)
                requires
                    n == 2 * half,
            ;
        }
        (full / 2, k + 1)
    } else {
        (n, k)
    };
    let ghost top = power2::pow2((f.precision() + f.max_exponent()) as nat);
    proof {
        assert(n * scale == significand as nat * power2::pow2(exponent as nat));
    }
    if exponent > f.max_exponent() {
        proof {
            let half = power2::pow2((p - 1) as nat);
            let x = power2::pow2(exponent as nat);
            power2::lemma_pow2_adds((p - 1) as nat, exponent as nat);
            lemma_pow2_monotone((p + f.max_exponent()) as nat, (p - 1 + exponent) as nat);
            assert(half * x <= significand as nat * x) by (nonlinear_arith)
                requires
                    half <= significand,
            ;
        }
        Unpacked::Infinite { negative }
    } else {
        proof {
            let x = power2::pow2(exponent as nat);
            let limit = power2::pow2(p as nat);
            power2::lemma_pow2_adds(p as nat, exponent as nat);
            power2::lemma_pow2_pos(exponent as nat);
            lemma_pow2_monotone((p + exponent) as nat, (p + f.max_exponent()) as nat);
            assert(significand as nat * x < limit * x) by (nonlinear_arith)
                requires
                    significand < limit,
                    x > 0,
            ;
        }
        Unpacked::Finite { negative, significand, exponent }
    }
}

/// The number of format `f` nearest to a magnitude that is `m` times two to the
/// `e`, or a little more where `inexact` holds.
pub(crate) fn round_magnitude(
    f: Format,
    negative: bool,
    m: u128,
    e: i32,
    inexact: bool,
    Ghost(num): Ghost<nat>,
    Ghost(den): Ghost<nat>,
) -> (r: Unpacked)
    requires
        den > 0,
        brackets(num, den, m as nat, e as int, inexact),
        m < power2::pow2(127),
        inexact ==> m >= power2::pow2(f.precision() as nat),
        -100_000 < e < 100_000,
    ensures
        r.wf(f),
        r@ == model::round(f, negative, num, den),
{
    let p = f.precision();
    proof {
        power2::lemma2_to64();
        power2::lemma2_to64_rest();
    }
    if m == 0 {
        proof {
            lemma_round_zero(f, negative, num, den, e as int);
            assert(0 * power2::pow2(0) == 0) by (nonlinear_arith);
        }
        return Unpacked::Finite { negative, significand: 0, exponent: 0 };
    }
    let l = bit_length(m);
    let lead: i32 = l as i32 + e;
    let k: i32 = if lead > p as i32 {
        lead - p as i32
    } else {
        0
    };
    let d: i32 = k - e;
    proof {
        if l >= 128 {
            lemma_pow2_monotone(127, (l - 1) as nat);
        }
        lemma_is_quantum(f, num, den, m as nat, e as int, inexact, l as nat, k as nat);
        if inexact {
            if l <= p {
                lemma_pow2_monotone(l as nat, p as nat);
            }
            assert(d >= 1);
        }
    }
    let n: u64 = if d <= 0 {
        keep_bits(f, m, e, k, l, Ghost(num), Ghost(den))
    } else {
        drop_bits(f, m, e, k, l, inexact, Ghost(num), Ghost(den))
    };
    proof {
        lemma_round_at(f, negative, num, den, k as nat, n as nat);
    }
    finish(f, negative, n, k as u32)
}

} // verus!
