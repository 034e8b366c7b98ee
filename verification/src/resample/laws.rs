//! What resampling promises.
use crate::audio::Audio;
use crate::float::laws as rounding_laws;
use crate::float::model;
use crate::float::model::{Format, Value};
use crate::float::number;
use crate::float::rounding;
use crate::float::Single;
use crate::resample;
use vstd::arithmetic::power2;
use vstd::prelude::*;

verus! {

/// A positive number, or zero.
pub open spec fn positive(magnitude: nat) -> Value {
    Value::Finite { negative: false, magnitude }
}

/// A finite number of at most this magnitude.
pub open spec fn within(a: Value, bound: nat) -> bool {
    a is Finite && a->magnitude <= bound
}

/// A ratio other than zero and NaN.
pub open spec fn is_proper(ratio: Value) -> bool {
    match ratio {
        Value::Nan => false,
        Value::Infinite { .. } => true,
        Value::Finite { magnitude, .. } => magnitude > 0,
    }
}

/// Audio that already has the rate is not changed, and any other gets the rate.
pub proof fn law_result_has_the_target_rate(before: Audio, target: Value, after: Audio)
    requires
        resample::is_resampling(before, target, after),
        target !is Nan,
    ensures
        before.sample_rate == target ==> after == before,
        after.sample_rate == target || (after.sample_rate is Finite && target is Finite
            && after.sample_rate->magnitude == 0 && target->magnitude == 0),
        after.sample_rate != target ==> after == before,
{
}

/// Every channel is resampled on its own, from the channel at its own place: it
/// becomes what it would become as the only channel of audio at that rate.
pub proof fn law_channel_is_resampled_on_its_own(
    before: Audio,
    target: Value,
    after: Audio,
    c: int,
    alone: Audio,
    done: Audio,
)
    requires
        resample::is_resampling(before, target, after),
        0 <= c < before.channels.len(),
        alone.sample_rate == before.sample_rate,
        alone.channels == seq![before.channels[c]],
        resample::is_resampling(alone, target, done),
    ensures
        after.channels.len() == before.channels.len(),
        done.channels.len() == 1,
        done.channels[0].len() == after.channels[c].len(),
        forall|i: int|
            0 <= i < after.channels[c].len() ==> (#[trigger] after.channels[c][i])@
                == done.channels[0][i]@,
{
    if !model::equal(before.sample_rate, target) {
        let ratio = resample::rate_ratio(before.sample_rate, target);
        assert(resample::is_resampled(before.channels[c], ratio, after.channels[c]));
        assert(resample::is_resampled(alone.channels[0], ratio, done.channels[0]));
    }
}

/// The first sample of every channel is that of the channel at the same place.
pub proof fn law_each_channel_keeps_its_first_sample(
    before: Audio,
    target: Value,
    after: Audio,
    c: int,
)
    requires
        resample::is_resampling(before, target, after),
        is_proper(model::quotient(Format::Double, target, before.sample_rate)),
        0 <= c < before.channels.len(),
        before.channels[c].len() > 0,
        before.channels[c][0]@ is Finite,
        before.channels[c].len() > 1 ==> model::difference(
            Format::Single,
            before.channels[c][1]@,
            before.channels[c][0]@,
        ) is Finite,
    ensures
        after.channels[c].len() > 0,
        model::equal(after.channels[c][0]@, before.channels[c][0]@),
{
    let input = before.channels[c];
    if !model::equal(before.sample_rate, target) {
        let ratio = resample::rate_ratio(before.sample_rate, target);
        assert(resample::is_resampled(input, ratio, after.channels[c]));
        law_only_silence_is_empty(input.len(), ratio);
        lemma_zero(Format::Single, false, 1);
        law_first_sample_is_kept(input, ratio);
    }
}

/// A constant channel stays constant, whatever the other channels hold.
pub proof fn law_each_channel_keeps_a_constant(
    before: Audio,
    target: Value,
    after: Audio,
    c: int,
    x: Single,
    i: int,
)
    requires
        resample::is_resampling(before, target, after),
        is_proper(model::quotient(Format::Double, target, before.sample_rate)),
        0 <= c < before.channels.len(),
        before.channels[c].len() <= usize::MAX,
        forall|k: int| 0 <= k < before.channels[c].len() ==> #[trigger] before.channels[c][k] == x,
        x@ is Finite,
        0 <= i < after.channels[c].len(),
    ensures
        before.channels[c].len() > 0,
        model::equal(after.channels[c][i]@, x@),
{
    let input = before.channels[c];
    if model::equal(before.sample_rate, target) {
        assert(after.channels[c][i] == before.channels[c][i]);
    } else {
        let ratio = resample::rate_ratio(before.sample_rate, target);
        assert(resample::is_resampled(input, ratio, after.channels[c]));
        law_constant_signal_stays_constant(input, ratio, i as nat, x);
    }
}

/// The length of every channel scales with the rate: that of the channel at the
/// same place over one rate and times the other, rounded to the nearest length.
pub proof fn law_each_length_scales_with_the_rate(
    before: Audio,
    from: nat,
    to: nat,
    after: Audio,
    c: int,
)
    requires
        from > 0,
        from != to,
        before.sample_rate == positive(from),
        resample::is_resampling(before, positive(to), after),
        0 <= c < before.channels.len(),
        0 < before.channels[c].len() <= usize::MAX,
        after.channels[c].len() <= resample::max_buffer_len(),
    ensures
        ({
            let r = after.channels[c].len();
            let exact = before.channels[c].len() * to;
            &&& 2 * exact < from ==> r == 1
            &&& 2 * exact >= from ==> {
                &&& 0x20_0000_0000_0000 * (2 * (r * from) - 2 * exact) <= 0x20_0000_0000_0000 * from
                    + 8 * exact
                &&& 0x20_0000_0000_0000 * (2 * exact - 2 * (r * from)) <= 0x20_0000_0000_0000 * from
                    + 8 * exact
            }
        }),
{
    assert(resample::is_resampled(
        before.channels[c],
        resample::rate_ratio(positive(from), positive(to)),
        after.channels[c],
    ));
    law_length_scales_with_rate(before.channels[c].len(), from, to);
}

/// Audio that was resampled has the rate it was resampled to, so resampling it
/// to that rate again changes nothing.
pub proof fn law_resampling_again_changes_nothing(
    before: Audio,
    target: Value,
    after: Audio,
    again: Audio,
)
    requires
        target !is Nan,
        resample::is_resampling(before, target, after),
        resample::is_resampling(after, target, again),
    ensures
        again == after,
{
}

/// Channels of one length are of one length afterwards, and none is lost.
pub proof fn law_channels_stay_aligned(before: Audio, target: Value, after: Audio, c: int, d: int)
    requires
        resample::is_resampling(before, target, after),
        0 <= c < before.channels.len(),
        0 <= d < before.channels.len(),
        before.channels[c].len() == before.channels[d].len(),
    ensures
        after.channels.len() == before.channels.len(),
        after.channels[c].len() == after.channels[d].len(),
{
}

/// Only an empty channel becomes an empty one.
pub proof fn law_only_silence_is_empty(len: nat, ratio: Value)
    ensures
        resample::resampled_len(len, ratio) == 0 <==> len == 0,
{
    if len > 0 {
        power2::lemma_pow2_pos(Format::Double.unit() as nat);
        match model::product(Format::Double, model::whole(Format::Double, len), ratio) {
            Value::Finite { negative, magnitude } => {
                let one = model::one(Format::Double);
                vstd::arithmetic::div_mod::lemma_div_pos_is_pos(
                    (2 * magnitude + one) as int,
                    (2 * one) as int,
                );
            },
            _ => {},
        }
    }
}

/// The lengths at the other ratios: one sample at zero, below it and at a NaN, and
/// the largest length at infinity.
pub proof fn law_length_at_other_ratios(len: nat, ratio: Value)
    requires
        0 < len <= usize::MAX,
    ensures
        ratio is Nan ==> resample::resampled_len(len, ratio) == 1,
        ratio matches Value::Finite { negative, magnitude } ==> (negative || magnitude == 0
            ==> resample::resampled_len(len, ratio) == 1),
        ratio matches Value::Infinite { negative } ==> resample::resampled_len(len, ratio) == if negative {
            1
        } else {
            usize::MAX as nat
        },
{
    let d = Format::Double;
    let one = model::one(d);
    let whole = lemma_whole(len);
    power2::lemma_pow2_pos(d.unit() as nat);
    if ratio is Finite && ratio->magnitude == 0 {
        assert(whole * 0 == 0) by (nonlinear_arith);
        lemma_zero(d, ratio->Finite_negative, one);
        vstd::arithmetic::div_mod::lemma_basic_div((2 * 0 + one) as int, (2 * one) as int);
    }
}

/// A ratio of zero or NaN leaves nothing to be read from, and gives a NaN.
pub proof fn law_no_ratio_gives_a_nan(input: Seq<Single>, ratio: Value)
    requires
        input.len() > 0,
        !is_proper(ratio),
    ensures
        resample::resampled_sample(input, ratio, 0) is Nan,
{
    let d = Format::Double;
    assert(0 * model::one(d) == 0) by (nonlinear_arith);
    lemma_zero(d, false, 1);
}

/// Resampling is refused only where a resampled channel would not fit a buffer:
/// one of single-precision numbers, of at most the largest size in bytes.
pub proof fn law_only_buffers_too_large_are_refused(before: Audio, target: Value, after: Audio)
    requires
        resample::is_resampling(before, target, after),
        !model::equal(before.sample_rate, target),
    ensures
        resample::fits(before, target) <==> forall|c: int|
            0 <= c < after.channels.len() ==> 4 * (#[trigger] after.channels[c]).len()
                <= isize::MAX,
{
    let ratio = resample::rate_ratio(before.sample_rate, target);
    let small = forall|c: int|
        0 <= c < after.channels.len() ==> 4 * (#[trigger] after.channels[c]).len() <= isize::MAX;
    if small {
        assert forall|c: int| 0 <= c < before.channels.len() implies resample::resampled_len(
            (#[trigger] before.channels[c]).len(),
            ratio,
        ) <= resample::max_buffer_len() by {
            assert(resample::is_resampled(before.channels[c], ratio, after.channels[c]));
        }
    }
    if resample::fits(before, target) {
        assert forall|c: int| 0 <= c < after.channels.len() implies 4 * (
        #[trigger] after.channels[c]).len() <= isize::MAX by {
            assert(resample::resampled_len(before.channels[c].len(), ratio)
                <= resample::max_buffer_len());
        }
    }
}

/// A whole number up to the largest length is finite, and off by at most one part
/// in two to the 53.
proof fn lemma_whole(n: nat) -> (whole: nat)
    requires
        n <= usize::MAX,
    ensures
        model::whole(Format::Double, n) == positive(whole),
        whole <= power2::pow2(64 + Format::Double.unit() as nat),
        rounding_laws::representable(Format::Double, whole),
        0x20_0000_0000_0000 * (whole - n * model::one(Format::Double)) <= n * model::one(
            Format::Double,
        ),
        0x20_0000_0000_0000 * (n * model::one(Format::Double) - whole) <= n * model::one(
            Format::Double,
        ),
        n > 0 ==> whole >= model::one(Format::Double),
{
    let d = Format::Double;
    let one = model::one(d);
    let num = n * one;
    power2::lemma2_to64();
    power2::lemma2_to64_rest();
    power2::lemma_pow2_pos(d.unit() as nat);
    power2::lemma_pow2_adds(64, d.unit() as nat);
    let bound = power2::pow2(64 + d.unit() as nat);
    rounding_laws::lemma_power_is_representable(d, 64 + d.unit() as nat);
    assert(num <= bound) by (nonlinear_arith)
        requires
            num == n * one,
            n <= 0x1_0000_0000_0000_0000,
            bound == 0x1_0000_0000_0000_0000 * one,
    ;
    rounding_laws::law_rounding_stays_below(d, false, num, 1, bound);
    rounding_laws::law_rounded_is_representable(d, false, num, 1);
    let whole = model::round(d, false, num, 1)->magnitude;
    if n < 0x20_0000_0000_0000 {
        rounding_laws::law_whole_is_exact(d, n);
        if n > 0 {
            assert(num >= one) by (nonlinear_arith)
                requires
                    num == n * one,
                    n >= 1,
            ;
        }
    } else {
        assert(num >= 0x20_0000_0000_0000 * one) by (nonlinear_arith)
            requires
                num == n * one,
                n >= 0x20_0000_0000_0000,
        ;
        rounding_laws::law_rounding_error(d, false, num, 1);
        let off = rounding_laws::distance(num, 1, whole);
        assert(off * power2::pow2(53) == 0x20_0000_0000_0000 * off);
        assert(whole >= one);
    }
    whole
}

/// Products of sides that are off by at most one part in two to the 53.
proof fn lemma_product_error(x: nat, a: nat, y: nat, b: nat)
    requires
        0x20_0000_0000_0000 * (x - a) <= a,
        0x20_0000_0000_0000 * (a - x) <= a,
        0x20_0000_0000_0000 * (y - b) <= b,
        0x20_0000_0000_0000 * (b - y) <= b,
    ensures
        0x20_0000_0000_0000 * 0x20_0000_0000_0000 * (x * y) <= 0x20_0000_0000_0001
            * 0x20_0000_0000_0001 * (a * b),
        0x1f_ffff_ffff_ffff * 0x1f_ffff_ffff_ffff * (a * b) <= 0x20_0000_0000_0000
            * 0x20_0000_0000_0000 * (x * y),
{
    let t: int = 0x20_0000_0000_0000;
    let (p, q) = (t * x, t * y);
    assert(p * q <= ((t + 1) * a) * ((t + 1) * b)) by (nonlinear_arith)
        requires
            0 <= p <= (t + 1) * a,
            0 <= q <= (t + 1) * b,
    ;
    assert(((t - 1) * a) * ((t - 1) * b) <= p * q) by (nonlinear_arith)
        requires
            0 <= (t - 1) * a <= p,
            0 <= (t - 1) * b <= q,
    ;
    assert(p * q == t * t * (x * y)) by (nonlinear_arith)
        requires
            p == t * x,
            q == t * y,
    ;
    assert(((t + 1) * a) * ((t + 1) * b) == (t + 1) * (t + 1) * (a * b)) by (nonlinear_arith);
    assert(((t - 1) * a) * ((t - 1) * b) == (t - 1) * (t - 1) * (a * b)) by (nonlinear_arith);
}

/// The product of a length and a ratio of rates, before it becomes a length again:
/// off by at most four parts in two to the 53.
proof fn lemma_scaled_length(len: nat, whole: nat, from: nat, to: nat, ratio: nat, product: nat)
    requires
        0 < len <= usize::MAX,
        from > 0,
        model::whole(Format::Double, len) == positive(whole),
        resample::rate_ratio(positive(from), positive(to)) == positive(ratio),
        model::product(Format::Double, positive(whole), positive(ratio)) == positive(product),
        to * model::one(Format::Double) >= 0x10_0000_0000_0000 * from,
    ensures
        0x20_0000_0000_0000 * (product * from) <= 0x20_0000_0000_0004 * (len * to * model::one(
            Format::Double,
        )),
        0x1f_ffff_ffff_fffc * (len * to * model::one(Format::Double)) <= 0x20_0000_0000_0000 * (
        product * from),
{
    let d = Format::Double;
    let one = model::one(d);
    let t: int = 0x20_0000_0000_0000;
    power2::lemma2_to64();
    power2::lemma2_to64_rest();
    power2::lemma_pow2_pos(d.unit() as nat);
    lemma_whole(len);
    let target = to * one;
    rounding_laws::law_rounding_error(d, false, target, from);
    let part = ratio * from;
    let off = rounding_laws::distance(target, from, ratio);
    assert(off * power2::pow2(53) == t * off);
    assert(ratio >= 0x10_0000_0000_0000) by (nonlinear_arith)
        requires
            part == ratio * from,
            0x20_0000_0000_0000 * part >= 0x1f_ffff_ffff_ffff * target,
            target >= 0x10_0000_0000_0000 * from,
            from > 0,
    {
        if ratio <= 0xf_ffff_ffff_ffff {
            assert(part <= 0xf_ffff_ffff_ffff * from);
        }
    }
    let exact = len * one;
    lemma_product_error(whole, exact, part, target);
    let num = whole * ratio;
    assert(num >= 0x10_0000_0000_0000 * one) by (nonlinear_arith)
        requires
            num == whole * ratio,
            whole >= one,
            ratio >= 0x10_0000_0000_0000,
    ;
    rounding_laws::law_rounding_error(d, false, num, one);
    let gap = rounding_laws::distance(num, one, product);
    assert(gap * power2::pow2(53) == t * gap);
    let made = product * one;
    assert(t * made <= (t + 1) * num && (t - 1) * num <= t * made);
    let all = whole * part;
    assert(num * from == all) by (nonlinear_arith)
        requires
            num == whole * ratio,
            all == whole * part,
            part == ratio * from,
    ;
    let scaled = made * from;
    assert(t * scaled <= (t + 1) * all && (t - 1) * all <= t * scaled) by (nonlinear_arith)
        requires
            t * made <= (t + 1) * num,
            (t - 1) * num <= t * made,
            scaled == made * from,
            num * from == all,
    {
        assert((t * made) * from <= ((t + 1) * num) * from);
        assert(((t - 1) * num) * from <= (t * made) * from);
    }
    let goal = exact * target;
    assert(t * scaled <= (t + 4) * goal && (t - 4) * goal <= t * scaled) by (nonlinear_arith)
        requires
            t == 0x20_0000_0000_0000,
            t * scaled <= (t + 1) * all,
            (t - 1) * all <= t * scaled,
            0x20_0000_0000_0000 * 0x20_0000_0000_0000 * all <= 0x20_0000_0000_0001
                * 0x20_0000_0000_0001 * goal,
            0x1f_ffff_ffff_ffff * 0x1f_ffff_ffff_ffff * goal <= 0x20_0000_0000_0000
                * 0x20_0000_0000_0000 * all,
            goal >= 0,
    ;
    let (x, y) = (product * from, len * to * one);
    assert(scaled == x * one && goal == y * one) by (nonlinear_arith)
        requires
            scaled == made * from,
            made == product * one,
            x == product * from,
            goal == exact * target,
            exact == len * one,
            target == to * one,
            y == len * to * one,
    ;
    assert(t * x <= (t + 4) * y && (t - 4) * y <= t * x) by (nonlinear_arith)
        requires
            t * (x * one) <= (t + 4) * (y * one),
            (t - 4) * (y * one) <= t * (x * one),
            one > 0,
    {
        assert((t * x) * one <= ((t + 4) * y) * one);
        assert(((t - 4) * y) * one <= (t * x) * one);
    }
}

/// The number of samples scales with the rate, for every two finite positive
/// rates: it is the exact quotient rounded, off by at most half a sample and four
/// parts in two to the 53, and one where the quotient is below a half.
pub proof fn law_length_scales_with_rate(len: nat, from: nat, to: nat)
    requires
        0 < len <= usize::MAX,
        from > 0,
        resample::resampled_len(len, resample::rate_ratio(positive(from), positive(to)))
            <= resample::max_buffer_len(),
    ensures
        ({
            let r = resample::resampled_len(
                len,
                resample::rate_ratio(positive(from), positive(to)),
            );
            &&& 2 * (len * to) < from ==> r == 1
            &&& 2 * (len * to) >= from ==> {
                &&& 0x20_0000_0000_0000 * (2 * (r * from) - 2 * (len * to)) <= 0x20_0000_0000_0000
                    * from + 8 * (len * to)
                &&& 0x20_0000_0000_0000 * (2 * (len * to) - 2 * (r * from)) <= 0x20_0000_0000_0000
                    * from + 8 * (len * to)
            }
        }),
{
    let d = Format::Double;
    let one = model::one(d);
    let t: int = 0x20_0000_0000_0000;
    let ratio = resample::rate_ratio(positive(from), positive(to));
    let r = resample::resampled_len(len, ratio);
    let exact = len * to;
    let whole = lemma_whole(len);
    power2::lemma2_to64();
    power2::lemma2_to64_rest();
    power2::lemma_pow2_pos(d.unit() as nat);
    if to * one >= 0x10_0000_0000_0000 * from {
        // Neither the ratio nor the product overflows: the length fits a buffer.
        assert(ratio is Finite);
        let product = model::product(d, positive(whole), ratio);
        assert(product is Finite);
        let p = product->magnitude;
        lemma_scaled_length(len, whole, from, to, ratio->magnitude, p);
        let nearest = (2 * p + one) / (2 * one);
        vstd::arithmetic::div_mod::lemma_fundamental_div_mod((2 * p + one) as int, (2 * one) as int);
        let (x, y, z) = (p * from, exact * one, nearest * from);
        assert(2 * (z * one) <= 2 * x + from * one && 2 * x <= 2 * (z * one) + from * one)
            by (nonlinear_arith)
            requires
                (2 * one) * nearest <= 2 * p + one < (2 * one) * nearest + 2 * one,
                x == p * from,
                z == nearest * from,
        {
            assert(((2 * one) * nearest) * from <= (2 * p + one) * from);
            assert((2 * p + one) * from <= ((2 * one) * nearest + 2 * one) * from);
        }
        assert(t * x <= (t + 4) * y && (t - 4) * y <= t * x);
        assert(2 * t * z <= 2 * (t + 4) * exact + t * from && 2 * (t - 4) * exact <= 2 * t * z + t
            * from) by (nonlinear_arith)
            requires
                2 * (z * one) <= 2 * x + from * one,
                2 * x <= 2 * (z * one) + from * one,
                t * x <= (t + 4) * y,
                (t - 4) * y <= t * x,
                y == exact * one,
                one > 0,
                t > 0,
        {
            assert((2 * t * z) * one == t * (2 * (z * one)));
            assert((2 * (t + 4) * exact + t * from) * one == 2 * ((t + 4) * y) + t * (from * one));
            assert(t * (2 * (z * one)) <= t * (2 * x + from * one));
            assert((2 * t * z) * one <= (2 * (t + 4) * exact + t * from) * one);
            assert((2 * (t - 4) * exact) * one == 2 * ((t - 4) * y));
            assert((2 * t * z + t * from) * one == t * (2 * (z * one) + from * one));
            assert(t * (2 * x) <= t * (2 * (z * one) + from * one));
            assert((2 * (t - 4) * exact) * one <= (2 * t * z + t * from) * one);
        }
        assert(r == if nearest == 0 {
            1
        } else {
            nearest
        });
        assert(0x20_0000_0000_0000 * (2 * z - 2 * exact) <= 0x20_0000_0000_0000 * from + 8 * exact
            && 0x20_0000_0000_0000 * (2 * exact - 2 * z) <= 0x20_0000_0000_0000 * from + 8 * exact)
            by (nonlinear_arith)
            requires
                t == 0x20_0000_0000_0000,
                2 * t * z <= 2 * (t + 4) * exact + t * from,
                2 * (t - 4) * exact <= 2 * t * z + t * from,
        ;
        if nearest == 0 {
            assert(z == 0) by (nonlinear_arith)
                requires
                    z == nearest * from,
                    nearest == 0,
            ;
            assert(r * from == from) by (nonlinear_arith)
                requires
                    r == 1,
            ;
        } else if 2 * exact < from {
            assert(nearest < 2) by (nonlinear_arith)
                requires
                    2 * t * z <= 2 * (t + 4) * exact + t * from,
                    2 * exact < from,
                    z == nearest * from,
                    t == 0x20_0000_0000_0000,
                    from > 0,
            {
                if nearest >= 2 {
                    assert(z >= 2 * from);
                }
            }
        }
    } else {
        // The ratio is so small that nothing but the least length is left.
        let step = power2::pow2(52);
        rounding_laws::lemma_power_is_representable(d, 52);
        rounding_laws::law_rounding_stays_below(d, false, to * one, from, step);
        let small = ratio->magnitude;
        let cap = power2::pow2(116);
        let top = power2::pow2(64 + d.unit() as nat);
        power2::lemma_pow2_adds(64, d.unit() as nat);
        power2::lemma_pow2_adds(64, 52);
        power2::lemma_pow2_adds(118, (d.unit() - 118) as nat);
        power2::lemma_pow2_adds(116, 2);
        power2::lemma_pow2_pos((d.unit() - 118) as nat);
        rounding_laws::lemma_power_is_representable(d, 116);
        let num = whole * small;
        assert(num <= cap * one) by (nonlinear_arith)
            requires
                num == whole * small,
                whole <= top,
                small <= step,
                top == 0x1_0000_0000_0000_0000 * one,
                cap == 0x1_0000_0000_0000_0000 * step,
        {
            assert(whole * small <= top * step);
        }
        rounding_laws::law_rounding_stays_below(d, false, num, one, cap);
        let p = model::round(d, false, num, one)->magnitude;
        let rest = power2::pow2((d.unit() - 118) as nat);
        assert(4 * cap <= one) by (nonlinear_arith)
            requires
                one == (cap * 4) * rest,
                rest >= 1,
        ;
        vstd::arithmetic::div_mod::lemma_basic_div((2 * p + one) as int, (2 * one) as int);
        assert(2 * exact < from) by (nonlinear_arith)
            requires
                exact == len * to,
                to * one < step * from,
                len <= 0x1_0000_0000_0000_0000,
                cap == 0x1_0000_0000_0000_0000 * step,
                4 * cap <= one,
                from > 0,
                len > 0,
        {
            assert(exact * one == len * (to * one));
            assert(len * (to * one) <= 0x1_0000_0000_0000_0000 * (step * from));
            assert(0x1_0000_0000_0000_0000 * (step * from) == cap * from);
            assert(4 * (cap * from) <= one * from);
            assert(4 * (exact * one) <= one * from);
            assert((4 * exact) * one <= from * one);
        }
    }
}

/// Halving the rate halves the number of samples, a half rounded up.
pub proof fn law_half_the_rate_halves_the_length(len: nat, rate: nat)
    requires
        rate > 0,
        0 < len <= 0x20_0000_0000_0000,
        len <= usize::MAX,
    ensures
        resample::resampled_len(
            len,
            resample::rate_ratio(positive(2 * rate), positive(rate)),
        ) == (len + 1) / 2,
{
    let d = Format::Double;
    let one = model::one(d);
    let half = power2::pow2((d.unit() - 1) as nat);
    power2::lemma2_to64();
    power2::lemma2_to64_rest();
    power2::lemma_pow2_unfold(d.unit() as nat);
    power2::lemma_pow2_pos((d.unit() - 1) as nat);
    lemma_double_ratio(rate);
    lemma_index_is_exact(len);
    let product = len * half;
    if len < 0x20_0000_0000_0000 {
        assert(rounding_laws::is_parts(d, product, len, (d.unit() - 1) as nat));
    } else {
        power2::lemma_pow2_adds(53, (d.unit() - 1) as nat);
        rounding_laws::lemma_power_is_representable(d, (53 + d.unit() - 1) as nat);
    }
    assert((len * one) * half == product * one) by (nonlinear_arith)
        requires
            product == len * half,
    ;
    rounding_laws::law_representable_is_kept(d, false, (len * one) * half, one, product);
    let q = (len + 1) / 2;
    let r = ((len + 1) % 2) as int;
    assert(2 * product + one == q * (2 * one) + r * one && 0 <= r * one < 2 * one)
        by (nonlinear_arith)
        requires
            product == len * half,
            one == 2 * half,
            len + 1 == 2 * q + r,
            0 <= r < 2,
            half > 0,
    ;
    vstd::arithmetic::div_mod::lemma_fundamental_div_mod_converse(
        (2 * product + one) as int,
        (2 * one) as int,
        q as int,
        r * one,
    );
}

/// Zero over, plus or minus zero is zero.
pub proof fn lemma_zero(f: Format, negative: bool, den: nat)
    requires
        den > 0,
    ensures
        model::round(f, negative, 0, den) == (Value::Finite { negative, magnitude: 0 }),
{
    power2::lemma_pow2_pos(f.precision() as nat);
    power2::lemma2_to64();
    assert(rounding_laws::is_parts(f, 0, 0, 0)) by {
        assert(0 * power2::pow2(0) == 0) by (nonlinear_arith);
    }
    rounding_laws::law_representable_is_kept(f, negative, 0, den, 0);
}

/// Adding a zero keeps a number, up to the sign of zero.
proof fn lemma_plus_zero(x: Single, sign: bool)
    requires
        x@ is Finite,
    ensures
        model::equal(
            model::sum(Format::Single, x@, Value::Finite { negative: sign, magnitude: 0 }),
            x@,
        ),
{
    number::lemma_finite_is_representable(Format::Single, x.bits as nat);
    let magnitude = x@->magnitude;
    let negative = x@->Finite_negative;
    if magnitude == 0 {
        lemma_zero(Format::Single, negative && sign, 1);
    } else {
        rounding_laws::law_representable_is_kept(Format::Single, negative, magnitude, 1, magnitude);
    }
}

/// Interpolating over no distance, or by no fraction, keeps the number.
pub proof fn lemma_interpolated_stays(a: Single, step: Value, fraction: Value)
    requires
        a@ is Finite,
        step is Finite,
        fraction is Finite,
        step->magnitude == 0 || fraction->magnitude == 0,
    ensures
        model::equal(
            model::sum(Format::Single, a@, model::product(Format::Single, step, fraction)),
            a@,
        ),
{
    let sign = step->Finite_negative != fraction->Finite_negative;
    let m = step->magnitude;
    let n = fraction->magnitude;
    assert(m * n == 0) by (nonlinear_arith)
        requires
            m == 0 || n == 0,
    ;
    power2::lemma_pow2_pos(Format::Single.unit() as nat);
    lemma_zero(Format::Single, sign, model::one(Format::Single));
    lemma_plus_zero(a, sign);
}

/// An output sample that lies on an input sample is that sample, where the step
/// to the next one is a finite number.
pub proof fn law_samples_on_the_grid_are_kept(input: Seq<Single>, ratio: Value, i: nat)
    requires
        input.len() > 0,
        ({
            let index = resample::source_index(input.len(), i, ratio);
            let fraction = resample::source_fraction(index as nat, i, ratio);
            let next = resample::next_index(input.len(), index);
            &&& fraction is Finite
            &&& fraction->magnitude == 0
            &&& input[index]@ is Finite
            &&& model::difference(Format::Single, input[next]@, input[index]@) is Finite
        }),
    ensures
        model::equal(
            resample::resampled_sample(input, ratio, i),
            input[resample::source_index(input.len(), i, ratio)]@,
        ),
{
    let index = resample::source_index(input.len(), i, ratio);
    let next = resample::next_index(input.len(), index);
    lemma_interpolated_stays(
        input[index],
        model::difference(Format::Single, input[next]@, input[index]@),
        resample::source_fraction(index as nat, i, ratio),
    );
}

/// The ratio of a sample rate to a whole multiple of it is exact.
proof fn lemma_whole_ratio(rate: nat, factor: nat)
    requires
        rate > 0,
        0 < factor <= 0x20_0000_0000_0000,
    ensures
        resample::rate_ratio(positive(rate), positive(rate * factor)) == positive(
            factor * model::one(Format::Double),
        ),
{
    let d = Format::Double;
    let one = model::one(d);
    let (target, ratio) = (rate * factor, factor * one);
    lemma_index_is_exact(factor);
    assert(target * one == ratio * rate) by (nonlinear_arith)
        requires
            target == rate * factor,
            ratio == factor * one,
    ;
    rounding_laws::law_representable_is_kept(d, false, target * one, rate, ratio);
}

/// A whole multiple of the rate multiplies the number of samples.
pub proof fn law_whole_factor_multiplies_the_length(len: nat, rate: nat, factor: nat)
    requires
        rate > 0,
        0 < factor,
        0 < len,
        len * factor <= 0x20_0000_0000_0000,
        len * factor <= usize::MAX,
    ensures
        resample::resampled_len(
            len,
            resample::rate_ratio(positive(rate), positive(rate * factor)),
        ) == len * factor,
{
    let d = Format::Double;
    let one = model::one(d);
    let n = len * factor;
    assert(0 < n && len <= n && factor <= n) by (nonlinear_arith)
        requires
            n == len * factor,
            len > 0,
            factor > 0,
    ;
    power2::lemma_pow2_pos(d.unit() as nat);
    lemma_whole_ratio(rate, factor);
    lemma_index_is_exact(len);
    lemma_index_is_exact(n);
    assert((len * one) * (factor * one) == (n * one) * one) by (nonlinear_arith)
        requires
            n == len * factor,
    ;
    rounding_laws::law_representable_is_kept(
        d,
        false,
        (len * one) * (factor * one),
        one,
        n * one,
    );
    assert(2 * (n * one) + one == n * (2 * one) + one) by (nonlinear_arith);
    vstd::arithmetic::div_mod::lemma_fundamental_div_mod_converse(
        (2 * (n * one) + one) as int,
        (2 * one) as int,
        n as int,
        one as int,
    );
}

/// At a whole multiple of the rate every input sample is kept: sample `j` is
/// output sample `factor * j`, where the step to the next one is a finite number.
pub proof fn law_whole_factor_keeps_every_sample(
    input: Seq<Single>,
    rate: nat,
    factor: nat,
    j: nat,
)
    requires
        rate > 0,
        0 < factor <= 0x20_0000_0000_0000,
        j < input.len() <= usize::MAX,
        factor * j <= 0x20_0000_0000_0000,
        input[j as int]@ is Finite,
        model::difference(
            Format::Single,
            input[resample::next_index(input.len(), j as int)]@,
            input[j as int]@,
        ) is Finite,
    ensures
        model::equal(
            resample::resampled_sample(
                input,
                resample::rate_ratio(positive(rate), positive(rate * factor)),
                factor * j,
            ),
            input[j as int]@,
        ),
{
    let d = Format::Double;
    let one = model::one(d);
    let ratio = resample::rate_ratio(positive(rate), positive(rate * factor));
    power2::lemma_pow2_pos(d.unit() as nat);
    lemma_whole_ratio(rate, factor);
    let i = factor * j;
    let start = j * one;
    let den = factor * one;
    assert(j <= i && den > 0 && (i * one) * one == start * den) by (nonlinear_arith)
        requires
            i == factor * j,
            start == j * one,
            den == factor * one,
            factor > 0,
            one > 0,
    ;
    lemma_index_is_exact(i);
    lemma_index_is_exact(j);
    rounding_laws::law_representable_is_kept(d, false, (i * one) * one, den, start);
    lemma_on_the_grid(input.len(), ratio, i, j);
    law_samples_on_the_grid_are_kept(input, ratio, i);
}

/// The first sample is kept, at every ratio but zero and NaN, where the step to
/// the second one is a finite number.
pub proof fn law_first_sample_is_kept(input: Seq<Single>, ratio: Value)
    requires
        input.len() > 0,
        is_proper(ratio),
        input[0]@ is Finite,
        model::difference(
            Format::Single,
            input[resample::next_index(input.len(), 0)]@,
            input[0]@,
        ) is Finite,
    ensures
        model::equal(resample::resampled_sample(input, ratio, 0), input[0]@),
{
    let d = Format::Double;
    let s = Format::Single;
    let one = model::one(d);
    power2::lemma_pow2_pos(d.unit() as nat);
    lemma_first_position(ratio);
    assert(0 * one == 0 && 0 * model::one(s) == 0) by (nonlinear_arith);
    vstd::arithmetic::div_mod::lemma_div_basics(one as int);
    assert forall|negative: bool| #[trigger] model::round(d, negative, 0, 1) == (Value::Finite {
        negative,
        magnitude: 0,
    }) by {
        lemma_zero(d, negative, 1);
    }
    assert forall|negative: bool| #[trigger] model::round(s, negative, 0, one) == (Value::Finite {
        negative,
        magnitude: 0,
    }) by {
        lemma_zero(s, negative, one);
    }
    assert(resample::source_index(input.len(), 0, ratio) == 0);
    law_samples_on_the_grid_are_kept(input, ratio, 0);
}

/// A sum is no larger than what bounds the terms together.
pub proof fn lemma_sum_within(f: Format, a: Value, b: Value, x: nat, y: nat, bound: nat)
    requires
        within(a, x),
        within(b, y),
        x + y <= bound,
        rounding_laws::representable(f, bound),
    ensures
        within(model::sum(f, a, b), bound),
{
    let s = model::signed(a->Finite_negative, a->magnitude) + model::signed(
        b->Finite_negative,
        b->magnitude,
    );
    let size = (if s < 0 {
        -s
    } else {
        s
    }) as nat;
    let negative = s < 0 || (s == 0 && a->Finite_negative && b->Finite_negative);
    assert(size <= bound * 1);
    rounding_laws::law_rounding_stays_below(f, negative, size, 1, bound);
}

/// A product with at most one is no larger than the other factor's bound.
pub proof fn lemma_product_within(f: Format, a: Value, b: Value, bound: nat)
    requires
        within(a, bound),
        within(b, model::one(f)),
        rounding_laws::representable(f, bound),
    ensures
        within(model::product(f, a, b), bound),
{
    let one = model::one(f);
    let m = a->magnitude;
    let n = b->magnitude;
    power2::lemma_pow2_pos(f.unit() as nat);
    assert(m * n <= bound * one) by (nonlinear_arith)
        requires
            m <= bound,
            n <= one,
    ;
    rounding_laws::law_rounding_stays_below(
        f,
        a->Finite_negative != b->Finite_negative,
        m * n,
        one,
        bound,
    );
}

/// A number of at most two to the `k` is one of at most two to the `k` in single
/// precision.
proof fn lemma_converted_within(a: Value, k: nat)
    requires
        within(a, power2::pow2(k + Format::Double.unit() as nat)),
        k + Format::Single.unit() <= Format::Single.max_exponent() + 23,
    ensures
        within(
            model::converted(Format::Double, Format::Single, a),
            power2::pow2(k + Format::Single.unit() as nat),
        ),
{
    let wide = model::one(Format::Double);
    let narrow = model::one(Format::Single);
    let size = power2::pow2(k);
    let m = a->magnitude;
    power2::lemma_pow2_pos(Format::Double.unit() as nat);
    power2::lemma_pow2_adds(k, Format::Double.unit() as nat);
    power2::lemma_pow2_adds(k, Format::Single.unit() as nat);
    rounding_laws::lemma_power_is_representable(Format::Single, k + Format::Single.unit() as nat);
    assert(m * narrow <= (size * narrow) * wide) by (nonlinear_arith)
        requires
            m <= size * wide,
    ;
    rounding_laws::law_rounding_stays_below(
        Format::Single,
        a->Finite_negative,
        m * narrow,
        wide,
        size * narrow,
    );
}

/// Where the first output sample lies: at the start.
proof fn lemma_first_position(ratio: Value)
    requires
        is_proper(ratio),
    ensures
        within(resample::source_position(0, ratio), 0),
{
    let d = Format::Double;
    let one = model::one(d);
    assert(0 * one == 0) by (nonlinear_arith);
    lemma_zero(d, false, 1);
    if ratio is Finite {
        lemma_zero(d, ratio->Finite_negative, ratio->magnitude);
    }
}

/// Where a later output sample lies, at a positive ratio under which the product
/// of length and ratio is `product`.
proof fn lemma_later_position(len: nat, ratio: nat, i: nat, product: nat)
    requires
        0 < len <= usize::MAX,
        ratio > 0,
        0 < i <= usize::MAX,
        model::product(
            Format::Double,
            model::whole(Format::Double, len),
            positive(ratio),
        ) == positive(product),
        2 * (i * model::one(Format::Double)) + model::one(Format::Double) <= 2 * product,
    ensures
        resample::source_position(i, positive(ratio)) matches Value::Finite { negative, magnitude }
            && !negative && magnitude <= power2::pow2(66 + Format::Double.unit() as nat),
{
    let d = Format::Double;
    let one = model::one(d);
    let t: int = 0x20_0000_0000_0000;
    let whole = lemma_whole(len);
    let start = lemma_whole(i);
    power2::lemma2_to64();
    power2::lemma2_to64_rest();
    power2::lemma_pow2_pos(d.unit() as nat);
    power2::lemma_pow2_adds(52, (d.unit() - 52) as nat);
    power2::lemma_pow2_pos((d.unit() - 52) as nat);
    let rest = power2::pow2((d.unit() - 52) as nat);
    let num = whole * ratio;
    let place = i * one;
    assert(place >= one) by (nonlinear_arith)
        requires
            place == i * one,
            i >= 1,
    ;
    // The product is above one, so its error is relative.
    if num <= one * one {
        rounding_laws::lemma_power_is_representable(d, d.unit() as nat);
        rounding_laws::law_rounding_stays_below(d, false, num, one, one);
    }
    assert(num >= 0x10_0000_0000_0000 * one) by (nonlinear_arith)
        requires
            num > one * one,
            one == 0x10_0000_0000_0000 * rest,
            rest >= 1,
    {
        assert(one >= 0x10_0000_0000_0000);
    }
    rounding_laws::law_rounding_error(d, false, num, one);
    let off = rounding_laws::distance(num, one, product);
    assert(off * power2::pow2(53) == t * off);
    let made = product * one;
    assert(made <= 2 * num);
    assert(start <= 2 * place);
    let bound = power2::pow2(66 + d.unit() as nat);
    power2::lemma_pow2_adds(64, d.unit() as nat);
    power2::lemma_pow2_adds(66, d.unit() as nat);
    power2::lemma_pow2_adds(2, 64);
    rounding_laws::lemma_power_is_representable(d, 66 + d.unit() as nat);
    assert(start * one <= bound * ratio) by (nonlinear_arith)
        requires
            start <= 2 * place,
            2 * place + one <= 2 * product,
            made == product * one,
            made <= 2 * num,
            num == whole * ratio,
            whole <= 0x1_0000_0000_0000_0000 * one,
            bound == 4 * 0x1_0000_0000_0000_0000 * one,
            one > 0,
    {
        assert(start * one <= (2 * product) * one);
        assert(start * one <= 4 * num);
        assert(num <= (0x1_0000_0000_0000_0000 * one) * ratio);
    }
    rounding_laws::law_rounding_stays_below(d, false, start * one, ratio, bound);
}

/// Where an output sample lies, at a ratio so large that the product of length
/// and ratio overflows.
proof fn lemma_position_at_overflow(len: nat, ratio: nat, i: nat)
    requires
        0 < len <= usize::MAX,
        ratio > 0,
        i <= usize::MAX,
        model::product(
            Format::Double,
            model::whole(Format::Double, len),
            positive(ratio),
        ) is Infinite,
    ensures
        resample::source_position(i, positive(ratio)) matches Value::Finite { negative, magnitude }
            && !negative && magnitude <= power2::pow2(66 + Format::Double.unit() as nat),
{
    let d = Format::Double;
    let one = model::one(d);
    let whole = lemma_whole(len);
    let start = lemma_whole(i);
    let top = power2::pow2(64 + d.unit() as nat);
    let limit = power2::pow2(2000);
    power2::lemma_pow2_pos(d.unit() as nat);
    power2::lemma_pow2_adds(64, d.unit() as nat);
    power2::lemma_pow2_adds(64 + d.unit() as nat, (2000 - 64 - d.unit()) as nat);
    power2::lemma_pow2_pos((2000 - 64 - d.unit()) as nat);
    power2::lemma_pow2_pos(64);
    rounding_laws::lemma_power_is_representable(d, 2000);
    rounding_laws::lemma_power_is_representable(d, 64 + d.unit() as nat);
    let num = whole * ratio;
    if num <= limit * one {
        rounding_laws::law_rounding_stays_below(d, false, num, one, limit);
    }
    let rest = power2::pow2((2000 - 64 - d.unit()) as nat);
    assert(ratio >= one) by (nonlinear_arith)
        requires
            num == whole * ratio,
            num > limit * one,
            whole <= top,
            limit == top * rest,
            rest >= 1,
            one > 0,
            top > 0,
    {
        if ratio < one {
            assert(whole * ratio <= top * one);
            assert(top * one <= limit * one);
        }
    }
    assert(start * one <= top * ratio) by (nonlinear_arith)
        requires
            start <= top,
            one <= ratio,
    ;
    rounding_laws::law_rounding_stays_below(d, false, start * one, ratio, top);
    rounding::lemma_pow2_monotone(64 + d.unit() as nat, 66 + d.unit() as nat);
}

/// Where the output samples lie: at finite positions, not before the start.
pub proof fn lemma_position(len: nat, ratio: Value, i: nat) -> (position: nat)
    requires
        0 < len <= usize::MAX,
        is_proper(ratio),
        i < resample::resampled_len(len, ratio),
    ensures
        resample::source_position(i, ratio) matches Value::Finite { negative, magnitude }
            && magnitude == position && (negative ==> position == 0),
        position <= power2::pow2(66 + Format::Double.unit() as nat),
        rounding_laws::representable(Format::Double, position),
{
    let d = Format::Double;
    let one = model::one(d);
    power2::lemma_pow2_pos(d.unit() as nat);
    power2::lemma_pow2_pos(66 + d.unit() as nat);
    let whole = lemma_whole(len);
    lemma_whole(i);
    let at = resample::source_position(i, ratio);
    if i == 0 {
        lemma_first_position(ratio);
    } else if ratio is Finite {
        let product = model::product(d, model::whole(d, len), ratio);
        assert(!ratio->Finite_negative);
        if product is Infinite {
            lemma_position_at_overflow(len, ratio->magnitude, i);
        } else {
            let p = product->magnitude;
            let nearest = (2 * p + one) / (2 * one);
            vstd::arithmetic::div_mod::lemma_fundamental_div_mod(
                (2 * p + one) as int,
                (2 * one) as int,
            );
            assert(nearest >= i + 1);
            assert(2 * (i * one) + one <= 2 * p) by (nonlinear_arith)
                requires
                    (2 * one) * nearest <= 2 * p + one,
                    nearest >= i + 1,
            {
                assert((2 * one) * nearest >= (2 * one) * (i + 1));
            }
            lemma_later_position(len, ratio->magnitude, i, p);
        }
    }
    if ratio is Finite {
        let num = model::whole(d, i)->magnitude * one;
        rounding_laws::law_rounded_is_representable(
            d,
            ratio->Finite_negative,
            num,
            ratio->magnitude,
        );
    } else {
        power2::lemma2_to64();
        assert(0 * power2::pow2(0) == 0) by (nonlinear_arith);
        power2::lemma_pow2_pos(d.precision() as nat);
        assert(rounding_laws::is_parts(d, 0, 0, 0));
    }
    at->magnitude
}

/// A number of the format that is not below two to the 53 is whole.
proof fn lemma_large_is_whole(position: nat)
    requires
        rounding_laws::representable(Format::Double, position),
        position >= 0x20_0000_0000_0000 * model::one(Format::Double),
    ensures
        (position / model::one(Format::Double)) * model::one(Format::Double) == position,
{
    let d = Format::Double;
    let one = model::one(d);
    let (m, k) = choose|m: nat, k: nat| #[trigger] rounding_laws::is_parts(d, position, m, k);
    let u = d.unit() as nat;
    power2::lemma2_to64();
    power2::lemma2_to64_rest();
    power2::lemma_pow2_pos(u);
    if k < u {
        let scale = power2::pow2(k);
        rounding::lemma_pow2_monotone(k, u);
        assert(m * scale < 0x20_0000_0000_0000 * one) by (nonlinear_arith)
            requires
                m < 0x20_0000_0000_0000,
                scale <= one,
                one > 0,
        ;
    } else {
        let lift = power2::pow2((k - u) as nat);
        power2::lemma_pow2_adds((k - u) as nat, u);
        assert(m * (lift * one) == (m * lift) * one) by (nonlinear_arith);
        vstd::arithmetic::div_mod::lemma_div_multiples_vanish((m * lift) as int, one as int);
        assert(one * (m * lift) == (m * lift) * one) by (nonlinear_arith);
    }
}

/// How far past its input sample an output sample lies: a finite number, and at
/// most one unless the input sample is the last one.
pub proof fn lemma_fraction(len: nat, ratio: Value, i: nat)
    requires
        0 < len <= usize::MAX,
        is_proper(ratio),
        i < resample::resampled_len(len, ratio),
    ensures
        ({
            let index = resample::source_index(len, i, ratio);
            let fraction = resample::source_fraction(index as nat, i, ratio);
            &&& 0 <= index < len
            &&& fraction is Finite
            &&& index == len - 1 || within(fraction, model::one(Format::Single))
        }),
{
    let d = Format::Double;
    let one = model::one(d);
    let position = lemma_position(len, ratio, i);
    let at = resample::source_position(i, ratio);
    let index = resample::source_index(len, i, ratio);
    let floor = position / one;
    power2::lemma2_to64();
    power2::lemma2_to64_rest();
    power2::lemma_pow2_pos(d.unit() as nat);
    vstd::arithmetic::div_mod::lemma_fundamental_div_mod(position as int, one as int);
    if at->Finite_negative {
        vstd::arithmetic::div_mod::lemma_div_basics(one as int);
    }
    let whole = lemma_whole(index as nat);
    if index == floor {
        let start = floor * one;
        assert(start == one * floor) by (nonlinear_arith)
            requires
                start == floor * one,
        ;
        if index < 0x20_0000_0000_0000 {
            rounding_laws::law_whole_is_exact(d, index as nat);
        } else {
            assert(start >= 0x20_0000_0000_0000 * one) by (nonlinear_arith)
                requires
                    start == floor * one,
                    floor >= 0x20_0000_0000_0000,
            ;
            lemma_large_is_whole(position);
            assert(start * 1 == start);
            rounding_laws::law_representable_is_kept(d, false, start, 1, start);
        }
        assert(whole == start);
        let rest = (position - start) as nat;
        let negative = rest == 0 && at->Finite_negative;
        assert(model::difference(d, at, positive(start)) == model::round(d, negative, rest, 1));
        rounding_laws::lemma_power_is_representable(d, d.unit() as nat);
        rounding_laws::law_rounding_stays_below(d, negative, rest, 1, one);
        lemma_converted_within(model::round(d, negative, rest, 1), 0);
    } else {
        let near = power2::pow2(64 + d.unit() as nat);
        let far = power2::pow2(66 + d.unit() as nat);
        rounding::lemma_pow2_monotone(64 + d.unit() as nat, 66 + d.unit() as nat);
        power2::lemma_pow2_unfold(67 + d.unit() as nat);
        rounding_laws::lemma_power_is_representable(d, 67 + d.unit() as nat);
        lemma_sum_within(d, at, model::negated(positive(whole)), far, near, 2 * far);
        lemma_converted_within(model::difference(d, at, positive(whole)), 67);
    }
}

/// A constant signal stays constant, at every ratio but zero and NaN.
pub proof fn law_constant_signal_stays_constant(input: Seq<Single>, ratio: Value, i: nat, x: Single)
    requires
        0 < input.len() <= usize::MAX,
        forall|k: int| 0 <= k < input.len() ==> #[trigger] input[k] == x,
        x@ is Finite,
        is_proper(ratio),
        i < resample::resampled_len(input.len(), ratio),
    ensures
        model::equal(resample::resampled_sample(input, ratio, i), x@),
{
    let index = resample::source_index(input.len(), i, ratio);
    lemma_fraction(input.len(), ratio, i);
    assert(input[index] == x);
    assert(input[resample::next_index(input.len(), index)] == x);
    lemma_zero(Format::Single, false, 1);
    lemma_interpolated_stays(
        x,
        model::difference(Format::Single, x@, x@),
        resample::source_fraction(index as nat, i, ratio),
    );
}

/// Samples of at most two to the `k` become samples of at most four times that,
/// at every ratio but zero and NaN.
proof fn lemma_sample_within(input: Seq<Single>, ratio: Value, i: nat, k: nat)
    requires
        k <= 125,
        0 < input.len() <= usize::MAX,
        forall|j: int|
            0 <= j < input.len() ==> within(
                (#[trigger] input[j])@,
                power2::pow2(k + Format::Single.unit() as nat),
            ),
        is_proper(ratio),
        i < resample::resampled_len(input.len(), ratio),
    ensures
        within(
            resample::resampled_sample(input, ratio, i),
            power2::pow2(k + 2 + Format::Single.unit() as nat),
        ),
{
    let s = Format::Single;
    let u = s.unit() as nat;
    let index = resample::source_index(input.len(), i, ratio);
    let next = resample::next_index(input.len(), index);
    let fraction = resample::source_fraction(index as nat, i, ratio);
    lemma_fraction(input.len(), ratio, i);
    let a = input[index]@;
    let b = input[next]@;
    let limit = power2::pow2(k + u);
    power2::lemma_pow2_unfold(k + 1 + u);
    power2::lemma_pow2_unfold(k + 2 + u);
    if index < input.len() - 1 {
        rounding_laws::lemma_power_is_representable(s, k + 1 + u);
        rounding_laws::lemma_power_is_representable(s, k + 2 + u);
        lemma_sum_within(s, b, model::negated(a), limit, limit, 2 * limit);
        let step = model::difference(s, b, a);
        lemma_product_within(s, step, fraction, 2 * limit);
        lemma_sum_within(s, a, model::product(s, step, fraction), limit, 2 * limit, 4 * limit);
    } else {
        lemma_zero(s, false, 1);
        lemma_interpolated_stays(input[index], model::difference(s, a, a), fraction);
    }
}

/// Samples of at most two to the 125 become finite samples, at every ratio but
/// zero and NaN.
pub proof fn law_finite_samples_stay_finite(input: Seq<Single>, ratio: Value, i: nat)
    requires
        0 < input.len() <= usize::MAX,
        forall|k: int|
            0 <= k < input.len() ==> within(
                (#[trigger] input[k])@,
                power2::pow2(125 + Format::Single.unit() as nat),
            ),
        is_proper(ratio),
        i < resample::resampled_len(input.len(), ratio),
    ensures
        resample::resampled_sample(input, ratio, i) is Finite,
{
    lemma_sample_within(input, ratio, i, 125);
}

/// Whole numbers up to two to the 53, and the even ones up to twice that, are
/// numbers of the format.
pub proof fn lemma_index_is_exact(n: nat)
    requires
        n <= 0x20_0000_0000_0000,
    ensures
        model::whole(Format::Double, n) == positive(n * model::one(Format::Double)),
        model::whole(Format::Double, 2 * n) == positive(2 * n * model::one(Format::Double)),
        rounding_laws::representable(Format::Double, n * model::one(Format::Double)),
        rounding_laws::representable(Format::Double, 2 * n * model::one(Format::Double)),
{
    let d = Format::Double;
    let one = model::one(d);
    let u = d.unit() as nat;
    power2::lemma2_to64();
    power2::lemma2_to64_rest();
    power2::lemma_pow2_unfold(u + 1);
    let twice = 2 * n * one;
    assert(twice == n * (2 * one)) by (nonlinear_arith)
        requires
            twice == 2 * n * one,
    ;
    if n < 0x20_0000_0000_0000 {
        assert(rounding_laws::is_parts(d, n * one, n, u));
        assert(rounding_laws::is_parts(d, twice, n, u + 1));
    } else {
        power2::lemma_pow2_adds(53, u);
        power2::lemma_pow2_adds(53, u + 1);
        rounding_laws::lemma_power_is_representable(d, 53 + u);
        rounding_laws::lemma_power_is_representable(d, 54 + u);
    }
    rounding_laws::law_representable_is_kept(d, false, n * one, 1, n * one);
    rounding_laws::law_representable_is_kept(d, false, twice, 1, twice);
}

/// An output sample at a whole position lies on that input sample.
pub proof fn lemma_on_the_grid(len: nat, ratio: Value, i: nat, index: nat)
    requires
        index < len <= usize::MAX,
        resample::source_position(i, ratio) == positive(index * model::one(Format::Double)),
        model::whole(Format::Double, index) == positive(index * model::one(Format::Double)),
    ensures
        resample::source_index(len, i, ratio) == index,
        resample::source_fraction(index, i, ratio) == positive(0),
{
    let d = Format::Double;
    let one = model::one(d);
    power2::lemma_pow2_pos(d.unit() as nat);
    vstd::arithmetic::div_mod::lemma_div_multiples_vanish(index as int, one as int);
    assert(one * index == index * one) by (nonlinear_arith);
    lemma_zero(d, false, 1);
    assert(0 * model::one(Format::Single) == 0) by (nonlinear_arith);
    lemma_zero(Format::Single, false, one);
}

/// Twice the rate is a ratio of two, and back again one of a half.
proof fn lemma_double_ratio(rate: nat)
    requires
        rate > 0,
    ensures
        resample::rate_ratio(positive(rate), positive(2 * rate)) == positive(
            2 * model::one(Format::Double),
        ),
        resample::rate_ratio(positive(2 * rate), positive(rate)) == positive(
            power2::pow2((Format::Double.unit() - 1) as nat),
        ),
{
    let d = Format::Double;
    let one = model::one(d);
    let u = d.unit() as nat;
    let half = power2::pow2((u - 1) as nat);
    power2::lemma_pow2_unfold(u);
    power2::lemma_pow2_unfold(u + 1);
    rounding_laws::lemma_power_is_representable(d, (u - 1) as nat);
    rounding_laws::lemma_power_is_representable(d, u + 1);
    assert((2 * rate) * one == (2 * one) * rate && rate * one == half * (2 * rate))
        by (nonlinear_arith)
        requires
            one == 2 * half,
    ;
    rounding_laws::law_representable_is_kept(d, false, (2 * rate) * one, rate, 2 * one);
    rounding_laws::law_representable_is_kept(d, false, rate * one, 2 * rate, half);
}

/// Doubling the rate doubles a length, and halving it again gives it back.
proof fn lemma_double_length(len: nat)
    requires
        0 < len <= 0x20_0000_0000_0000,
        resample::resampled_len(len, positive(2 * model::one(Format::Double)))
            <= resample::max_buffer_len(),
    ensures
        resample::resampled_len(len, positive(2 * model::one(Format::Double))) == 2 * len,
        2 * len <= usize::MAX,
        resample::resampled_len(
            2 * len,
            positive(power2::pow2((Format::Double.unit() - 1) as nat)),
        ) == len,
{
    let d = Format::Double;
    let one = model::one(d);
    let u = d.unit() as nat;
    let half = power2::pow2((u - 1) as nat);
    power2::lemma_pow2_pos((u - 1) as nat);
    power2::lemma_pow2_unfold(u);
    lemma_index_is_exact(len);
    let (once, twice) = (len * one, 2 * len * one);
    assert(once * (2 * one) == twice * one && twice * half == once * one) by (nonlinear_arith)
        requires
            once == len * one,
            twice == 2 * len * one,
            one == 2 * half,
    ;
    rounding_laws::law_representable_is_kept(d, false, once * (2 * one), one, twice);
    rounding_laws::law_representable_is_kept(d, false, twice * half, one, once);
    assert(2 * twice + one == (2 * len) * (2 * one) + one && 2 * once + one == len * (2 * one) + one)
        by (nonlinear_arith)
        requires
            once == len * one,
            twice == 2 * len * one,
    ;
    vstd::arithmetic::div_mod::lemma_fundamental_div_mod_converse(
        (2 * twice + one) as int,
        (2 * one) as int,
        (2 * len) as int,
        one as int,
    );
    vstd::arithmetic::div_mod::lemma_fundamental_div_mod_converse(
        (2 * once + one) as int,
        (2 * one) as int,
        len as int,
        one as int,
    );
}

/// At twice the rate sample `j` becomes sample `2 * j`.
proof fn lemma_doubled_keeps(x: Seq<Single>, j: nat)
    requires
        j < x.len() <= 0x20_0000_0000_0000,
        x.len() <= usize::MAX,
        forall|k: int|
            0 <= k < x.len() ==> within(
                (#[trigger] x[k])@,
                power2::pow2(124 + Format::Single.unit() as nat),
            ),
    ensures
        model::equal(
            resample::resampled_sample(x, positive(2 * model::one(Format::Double)), 2 * j),
            x[j as int]@,
        ),
{
    let d = Format::Double;
    let s = Format::Single;
    let one = model::one(d);
    let two = positive(2 * one);
    let v = s.unit() as nat;
    let (once, twice) = (j * one, 2 * j * one);
    power2::lemma_pow2_pos(d.unit() as nat);
    lemma_index_is_exact(j);
    assert(twice * one == once * (2 * one)) by (nonlinear_arith)
        requires
            once == j * one,
            twice == 2 * j * one,
    ;
    rounding_laws::law_representable_is_kept(d, false, twice * one, 2 * one, once);
    lemma_on_the_grid(x.len(), two, 2 * j, j);
    let limit = power2::pow2(124 + v);
    power2::lemma_pow2_unfold(125 + v);
    rounding_laws::lemma_power_is_representable(s, 125 + v);
    let after = x[resample::next_index(x.len(), j as int)]@;
    lemma_sum_within(s, after, model::negated(x[j as int]@), limit, limit, 2 * limit);
    law_samples_on_the_grid_are_kept(x, two, 2 * j);
}

/// At half the rate sample `2 * j` becomes sample `j`.
proof fn lemma_halved_keeps(x: Seq<Single>, j: nat)
    requires
        2 * j < x.len() <= usize::MAX,
        j <= 0x20_0000_0000_0000,
        x[2 * j as int]@ is Finite,
        model::difference(
            Format::Single,
            x[resample::next_index(x.len(), 2 * j as int)]@,
            x[2 * j as int]@,
        ) is Finite,
    ensures
        model::equal(
            resample::resampled_sample(
                x,
                positive(power2::pow2((Format::Double.unit() - 1) as nat)),
                j,
            ),
            x[2 * j as int]@,
        ),
{
    let d = Format::Double;
    let one = model::one(d);
    let half = power2::pow2((d.unit() - 1) as nat);
    let (once, twice) = (j * one, 2 * j * one);
    power2::lemma_pow2_pos((d.unit() - 1) as nat);
    power2::lemma_pow2_unfold(d.unit() as nat);
    lemma_index_is_exact(j);
    assert(once * one == twice * half) by (nonlinear_arith)
        requires
            once == j * one,
            twice == 2 * j * one,
            one == 2 * half,
    ;
    rounding_laws::law_representable_is_kept(d, false, once * one, half, twice);
    lemma_on_the_grid(x.len(), positive(half), j, 2 * j);
    law_samples_on_the_grid_are_kept(x, positive(half), j);
}

/// One channel through twice its rate and back.
proof fn lemma_double_and_halve(x: Seq<Single>, up: Seq<Single>, back: Seq<Single>, j: int)
    requires
        x.len() <= 0x20_0000_0000_0000,
        resample::resampled_len(x.len(), positive(2 * model::one(Format::Double)))
            <= resample::max_buffer_len(),
        forall|k: int|
            0 <= k < x.len() ==> within(
                (#[trigger] x[k])@,
                power2::pow2(124 + Format::Single.unit() as nat),
            ),
        resample::is_resampled(x, positive(2 * model::one(Format::Double)), up),
        resample::is_resampled(
            up,
            positive(power2::pow2((Format::Double.unit() - 1) as nat)),
            back,
        ),
    ensures
        back.len() == x.len(),
        0 <= j < x.len() ==> model::equal(back[j]@, x[j]@),
{
    let s = Format::Single;
    let v = s.unit() as nat;
    let two = positive(2 * model::one(Format::Double));
    if x.len() > 0 {
        lemma_double_length(x.len());
    }
    if 0 <= j < x.len() {
        power2::lemma_pow2_pos(Format::Double.unit() as nat);
        lemma_doubled_keeps(x, j as nat);
        assert(model::equal(up[2 * j]@, x[j]@));
        let next = resample::next_index(up.len(), 2 * j);
        assert(next == 2 * j + 1);
        lemma_sample_within(x, two, next as nat, 124);
        let limit = power2::pow2(124 + v);
        power2::lemma_pow2_unfold(125 + v);
        power2::lemma_pow2_unfold(126 + v);
        power2::lemma_pow2_unfold(127 + v);
        rounding_laws::lemma_power_is_representable(s, 127 + v);
        lemma_sum_within(
            s,
            up[next]@,
            model::negated(up[2 * j]@),
            4 * limit,
            limit,
            8 * limit,
        );
        lemma_halved_keeps(up, j as nat);
    }
}

/// Doubling the rate and halving it again gives the audio back: the same rate,
/// the same lengths, and the same numbers, for samples of at most two to the 124
/// and channels of at most two to the 53 samples.
pub proof fn law_doubling_and_halving_gives_the_audio_back(
    before: Audio,
    rate: nat,
    up: Audio,
    back: Audio,
)
    requires
        rate > 0,
        before.sample_rate == positive(rate),
        resample::fits(before, positive(2 * rate)),
        forall|c: int|
            0 <= c < before.channels.len() ==> (#[trigger] before.channels[c]).len()
                <= 0x20_0000_0000_0000,
        forall|c: int, j: int|
            0 <= c < before.channels.len() && 0 <= j < before.channels[c].len() ==> within(
                (#[trigger] before.channels[c][j])@,
                power2::pow2(124 + Format::Single.unit() as nat),
            ),
        resample::is_resampling(before, positive(2 * rate), up),
        resample::is_resampling(up, positive(rate), back),
    ensures
        back.sample_rate == before.sample_rate,
        back.channels.len() == before.channels.len(),
        forall|c: int|
            0 <= c < before.channels.len() ==> (#[trigger] back.channels[c]).len()
                == before.channels[c].len(),
        forall|c: int, j: int|
            0 <= c < before.channels.len() && 0 <= j < before.channels[c].len() ==> model::equal(
                (#[trigger] back.channels[c][j])@,
                before.channels[c][j]@,
            ),
{
    lemma_double_ratio(rate);
    assert forall|c: int| 0 <= c < before.channels.len() implies (#[trigger] back.channels[c]).len()
        == before.channels[c].len() by {
        assert(resample::is_resampled(
            before.channels[c],
            resample::rate_ratio(positive(rate), positive(2 * rate)),
            up.channels[c],
        ));
        lemma_double_and_halve(before.channels[c], up.channels[c], back.channels[c], 0);
    }
    assert forall|c: int, j: int|
        0 <= c < before.channels.len() && 0 <= j < before.channels[c].len() implies model::equal(
        (#[trigger] back.channels[c][j])@,
        before.channels[c][j]@,
    ) by {
        assert(resample::is_resampled(
            before.channels[c],
            resample::rate_ratio(positive(rate), positive(2 * rate)),
            up.channels[c],
        ));
        lemma_double_and_halve(before.channels[c], up.channels[c], back.channels[c], j);
    }
}

} // verus!
