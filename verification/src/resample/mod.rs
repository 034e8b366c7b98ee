//! A separate step from decoding, so the caller controls when, and whether,
//! resampling runs. Linear interpolation only.
use crate::audio;
use crate::audio::{Audio, DecodedAudio};
use crate::float::model;
use crate::float::model::{Format, Value};
use crate::float::{Double, Single};
use vstd::prelude::*;

pub mod laws;
pub mod linear;

verus! {

/// The factor from one sample rate to another.
pub open spec fn rate_ratio(from: Value, to: Value) -> Value {
    model::quotient(Format::Double, to, from)
}

/// The number of samples that `len` become at `ratio`: their number times the
/// ratio, rounded, and at least one unless there are none.
pub open spec fn resampled_len(len: nat, ratio: Value) -> nat {
    if len == 0 {
        0
    } else {
        model::rounded_length(
            Format::Double,
            model::product(Format::Double, model::whole(Format::Double, len), ratio),
        ) as nat
    }
}

/// Where in the input the `i`th output sample lies, in samples.
pub open spec fn source_position(i: nat, ratio: Value) -> Value {
    model::quotient(Format::Double, model::whole(Format::Double, i), ratio)
}

/// The input sample at or before the `i`th output sample, within the input.
pub open spec fn source_index(len: nat, i: nat, ratio: Value) -> int {
    let index = model::floor_index(Format::Double, source_position(i, ratio)) as int;
    if index < len {
        index
    } else {
        len - 1
    }
}

/// The input sample after `index`, or the last one.
pub open spec fn next_index(len: nat, index: int) -> int {
    if index + 1 < len {
        index + 1
    } else {
        len - 1
    }
}

/// How far past `index` the `i`th output sample lies.
pub open spec fn source_fraction(index: nat, i: nat, ratio: Value) -> Value {
    model::converted(
        Format::Double,
        Format::Single,
        model::difference(
            Format::Double,
            source_position(i, ratio),
            model::whole(Format::Double, index),
        ),
    )
}

/// The number `fraction` of the way from `a` to `b`.
pub open spec fn interpolated(a: Value, b: Value, fraction: Value) -> Value {
    model::sum(
        Format::Single,
        a,
        model::product(Format::Single, model::difference(Format::Single, b, a), fraction),
    )
}

/// The `i`th sample of `input` resampled by `ratio`.
pub open spec fn resampled_sample(input: Seq<Single>, ratio: Value, i: nat) -> Value {
    let index = source_index(input.len(), i, ratio);
    interpolated(
        input[index]@,
        input[next_index(input.len(), index)]@,
        source_fraction(index as nat, i, ratio),
    )
}

/// `output` is `input` resampled by `ratio`.
pub open spec fn is_resampled(input: Seq<Single>, ratio: Value, output: Seq<Single>) -> bool {
    &&& output.len() == resampled_len(input.len(), ratio)
    &&& forall|i: int|
        0 <= i < output.len() ==> (#[trigger] output[i])@ == resampled_sample(input, ratio, i as nat)
}

/// The most samples that one buffer can hold.
pub open spec fn max_buffer_len() -> nat {
    (isize::MAX / 4) as nat
}

/// The number of samples that `len` become at `ratio`.
pub fn output_len(len: usize, ratio: Double) -> (r: usize)
    ensures
        r == resampled_len(len as nat, ratio@),
{
    if len == 0 {
        0
    } else {
        Double::from_whole(len as u64).times(ratio).rounded_length()
    }
}

/// Resamples `input` by `ratio`, using linear interpolation between samples.
pub fn resample_linear(input: &[Single], ratio: Double) -> (out: Vec<Single>)
    requires
        resampled_len(input@.len(), ratio@) <= max_buffer_len(),
    ensures
        is_resampled(input@, ratio@, out@),
{
    if input.len() == 0 {
        return Vec::new();
    }
    let out_len = output_len(input.len(), ratio);
    let last = input.len() - 1;
    let mut out: Vec<Single> = Vec::with_capacity(out_len);
    for i in 0..out_len
        invariant
            last == input@.len() - 1,
            out@.len() == i,
            forall|k: int|
                0 <= k < i ==> (#[trigger] out@[k])@ == resampled_sample(input@, ratio@, k as nat),
    {
        let position = Double::from_whole(i as u64).over(ratio);
        let floor = position.floor_index();
        let index = if floor < last {
            floor
        } else {
            last
        };
        let fraction = position.minus(Double::from_whole(index as u64)).to_single();
        let a = input[index];
        let b = if index < last {
            input[index + 1]
        } else {
            input[last]
        };
        out.push(a.plus(b.minus(a).times(fraction)));
    }
    out
}

/// `after` is `before` resampled to the rate `target`: `before` itself where that
/// is its rate, else every channel resampled.
pub open spec fn is_resampling(before: Audio, target: Value, after: Audio) -> bool {
    if model::equal(before.sample_rate, target) {
        after == before
    } else {
        &&& after.sample_rate == target
        &&& after.channels.len() == before.channels.len()
        &&& forall|c: int|
            0 <= c < before.channels.len() ==> is_resampled(
                before.channels[c],
                rate_ratio(before.sample_rate, target),
                #[trigger] after.channels[c],
            )
    }
}

/// Every channel of `before` resampled to the rate `target` fits a buffer.
pub open spec fn fits(before: Audio, target: Value) -> bool {
    model::equal(before.sample_rate, target) || forall|c: int|
        0 <= c < before.channels.len() ==> resampled_len(
            (#[trigger] before.channels[c]).len(),
            rate_ratio(before.sample_rate, target),
        ) <= max_buffer_len()
}

/// Resamples every channel to `target_sample_rate`.
///
/// Returns `decoded` unchanged if its sample rate already matches.
#[must_use]
pub fn resample(decoded: DecodedAudio, target_sample_rate: Double) -> (r: DecodedAudio)
    requires
        fits(decoded@, target_sample_rate@),
    ensures
        is_resampling(decoded@, target_sample_rate@, r@),
        if model::equal(decoded.sample_rate@, target_sample_rate@) {
            r == decoded
        } else {
            r.sample_rate == target_sample_rate
        },
{
    if decoded.sample_rate.equals(target_sample_rate) {
        return decoded;
    }
    let ratio = target_sample_rate.over(decoded.sample_rate);
    let mut channels: Vec<Vec<Single>> = Vec::new();
    for c in 0..decoded.channels.len()
        invariant
            !model::equal(decoded.sample_rate@, target_sample_rate@),
            fits(decoded@, target_sample_rate@),
            ratio@ == rate_ratio(decoded.sample_rate@, target_sample_rate@),
            channels@.len() == c,
            forall|k: int|
                0 <= k < c ==> is_resampled(
                    decoded@.channels[k],
                    ratio@,
                    (#[trigger] channels@[k])@,
                ),
    {
        assert(decoded@.channels[c as int] == decoded.channels@[c as int]@);
        channels.push(resample_linear(&decoded.channels[c], ratio));
    }
    audio::decoded_audio(channels, target_sample_rate)
}

} // verus!
