//! Resampling, against the same formulas in the processor's arithmetic.
use truce_sample_loader::audio::decoded_audio;
use truce_sample_loader::resample::{output_len, resample_linear};
use truce_sample_loader::{resample, DecodedAudio, Double, Single};

fn double(x: f64) -> Double {
    Double::from_bits(x.to_bits())
}

fn singles(xs: &[f32]) -> Vec<Single> {
    xs.iter().map(|x| Single::from_bits(x.to_bits())).collect()
}

fn floats(xs: &[Single]) -> Vec<f32> {
    xs.iter().map(|x| f32::from_bits(x.to_bits())).collect()
}

fn audio(rate: f64, channels: &[&[f32]]) -> DecodedAudio {
    decoded_audio(channels.iter().map(|c| singles(c)).collect(), double(rate))
}

fn expected_len(len: usize, ratio: f64) -> usize {
    if len == 0 {
        0
    } else {
        ((len as f64) * ratio).round().max(1.0) as usize
    }
}

fn expected(input: &[f32], ratio: f64) -> Vec<f32> {
    let mut out = Vec::new();
    for i in 0..expected_len(input.len(), ratio) {
        let last = input.len() - 1;
        let position = i as f64 / ratio;
        let index = (position.floor() as usize).min(last);
        let fraction = (position - index as f64) as f32;
        let a = input[index];
        let b = input[(index + 1).min(last)];
        out.push(a + (b - a) * fraction);
    }
    out
}

fn assert_same(a: &[f32], b: &[f32]) {
    assert_eq!(a.len(), b.len());
    for (x, y) in a.iter().zip(b) {
        assert!(x.to_bits() == y.to_bits() || (x.is_nan() && y.is_nan()), "{x} vs {y}");
    }
}

#[test]
fn interpolates_like_the_processor() {
    let wave: Vec<f32> = (0..97).map(|i| (i as f32 * 0.37).sin()).collect();
    let odd = vec![1.0, -0.0, f32::MAX, f32::MIN, 1e-45, f32::INFINITY, 3.0, f32::NAN, 0.25];
    for input in [wave, odd, vec![0.5], vec![]] {
        for ratio in [
            0.5, 2.0, 1.0, 44_100.0 / 48_000.0, 48_000.0 / 44_100.0, 0.013, 3.7, 1e-30, 5e-324,
            0.0, -0.0, -0.5, -3.0, f64::NAN, f64::NEG_INFINITY,
        ] {
            let out = resample_linear(&singles(&input), double(ratio));
            assert_same(&floats(&out), &expected(&input, ratio));
        }
    }
}

#[test]
fn output_lengths_are_those_of_the_processor() {
    for len in [0, 1, 2, 3, 5, 480, 44_100, 1 << 40, (1 << 53) + 1, usize::MAX] {
        for ratio in [
            0.0, 0.1, 0.5, 0.3, 1.0, 1.5, 2.0, 1e300, -1.0, f64::NAN, f64::INFINITY,
            f64::NEG_INFINITY, 48_000.0 / 44_100.0, 0.49999999999999994,
        ] {
            assert_eq!(output_len(len, double(ratio)), expected_len(len, ratio), "{len} {ratio}");
        }
    }
}

#[test]
fn half_the_rate_halves_the_length() {
    for len in [1usize, 2, 3, 4, 479, 480, 481] {
        let input = vec![0.25f32; len];
        let r = resample(audio(48_000.0, &[&input]), double(24_000.0));
        assert_eq!(r.channels[0].len(), (len + 1) / 2);
    }
}

#[test]
fn length_scales_with_the_rate() {
    for from in [1i64, 3, 8_000, 11_025, 22_050, 44_100, 48_000, 96_000] {
        for to in [1i64, 3, 8_000, 11_025, 22_050, 44_100, 48_000, 96_000] {
            for len in [1i64, 7, 100, 1_001] {
                let ratio = double(to as f64).over(double(from as f64));
                let n = output_len(len as usize, ratio) as i64;
                if 2 * len * to < from {
                    assert_eq!(n, 1);
                } else {
                    // Half a sample, and less than one part in the exact length more.
                    assert!((2 * n * from - 2 * len * to).abs() <= from, "{len} {from} {to}");
                }
            }
        }
    }
    assert_eq!(output_len(1_000, double(48_000.0).over(double(44_100.0))), 1_088);
    assert_eq!(output_len(480, double(0.375).over(double(0.75))), 240);
    assert_eq!(output_len(480, double(5e-324).over(double(1.0))), 1);
}

#[test]
fn doubling_and_halving_gives_the_audio_back() {
    let wave: Vec<f32> = (0..101).map(|i| (i as f32 * 0.61).sin()).collect();
    let edges = [1.0f32, -1.0, 0.0, -0.0, 1e-45, -1.0, 1.0, 2f32.powi(124), -(2f32.powi(124))];
    for rate in [48_000.0f64, 44_100.0, 0.1, 5e-324, f64::MAX / 2.0] {
        let up = resample(audio(rate, &[&wave, &edges, &[], &[0.5]]), double(2.0 * rate));
        assert_eq!(up.channels[0].len(), 202);
        let back = resample(up, double(rate));
        assert_eq!(back.sample_rate.to_bits(), rate.to_bits());
        assert_eq!(floats(&back.channels[0]), wave);
        assert_eq!(floats(&back.channels[1]), edges);
        assert!(back.channels[2].is_empty());
        assert_eq!(floats(&back.channels[3]), vec![0.5]);
    }
}

#[test]
fn resampling_again_changes_nothing() {
    let input: Vec<f32> = (0..50).map(|i| i as f32 * 0.01).collect();
    let once = resample(audio(48_000.0, &[&input, &input[..3]]), double(44_100.0));
    let twice = resample(once.clone(), double(44_100.0));
    assert_eq!(once.channels.len(), 2);
    assert_eq!(twice.sample_rate.to_bits(), 44_100f64.to_bits());
    for c in 0..2 {
        assert_same(&floats(&once.channels[c]), &floats(&twice.channels[c]));
    }
    assert_eq!(once.channels[0].len(), 46);
    assert_eq!(once.channels[1].len(), 3);
}

#[test]
fn channels_of_one_length_stay_so() {
    let (a, b) = ([0.1f32, 0.2, 0.3, 0.4, 0.5], [1.0f32, 0.0, -1.0, 0.0, 1.0]);
    let r = resample(audio(44_100.0, &[&a, &b]), double(96_000.0));
    assert_eq!(r.channels[0].len(), 11);
    assert_eq!(r.channels[1].len(), 11);
}

#[test]
fn only_silence_is_empty() {
    assert_eq!(output_len(0, double(2.0)), 0);
    assert_eq!(output_len(1, double(1e-9)), 1);
    let r = resample(audio(48_000.0, &[&[], &[0.5]]), double(1.0));
    assert!(r.channels[0].is_empty());
    assert_eq!(floats(&r.channels[1]), vec![0.5]);
}

#[test]
fn constant_signal_stays_constant() {
    let input = [0.1f32; 30];
    for target in [8_000.0, 44_100.0, 96_000.0] {
        let r = resample(audio(48_000.0, &[&input]), double(target));
        assert!(floats(&r.channels[0]).iter().all(|&x| x == 0.1));
    }
    for ratio in [5e-324, 1e-300, 0.049, 0.05, 33.3, -0.5, -1e308, f64::NEG_INFINITY] {
        let out = floats(&resample_linear(&singles(&input), double(ratio)));
        assert!(out.iter().all(|&x| x == 0.1), "{ratio}");
    }
}

#[test]
fn first_sample_is_kept() {
    let input = [0.3f32, -0.9, 0.7];
    for ratio in [0.1, 0.5, 1.7, 9.0, -2.0, 5e-324, f64::NEG_INFINITY] {
        let out = floats(&resample_linear(&singles(&input), double(ratio)));
        assert_eq!(out[0], 0.3);
    }
}

#[test]
fn doubling_puts_means_between() {
    let out = floats(&resample_linear(&singles(&[0.0, 1.0, 0.5]), double(2.0)));
    assert_eq!(out, vec![0.0, 0.5, 1.0, 0.75, 0.5, 0.5]);
}

#[test]
fn finite_samples_stay_finite() {
    let big = 2f32.powi(125);
    let input = [big, -big, big, big, -big, 1e-45];
    for target in [1.0, 7_999.0, 44_100.0, 1_000_000.0] {
        let r = resample(audio(8_000.0, &[&input]), double(target));
        assert!(floats(&r.channels[0]).iter().all(|x| x.is_finite()));
    }
}

#[test]
fn rates_that_are_not_numbers_never_match() {
    let r = resample(audio(f64::NAN, &[&[0.5, 1.0]]), double(f64::NAN));
    assert!(f64::from_bits(r.sample_rate.to_bits()).is_nan());
    assert_eq!(r.channels[0].len(), 1);
    let same = resample(audio(0.0, &[&[0.5, 1.0]]), double(-0.0));
    assert_eq!(same.sample_rate.to_bits(), 0);
    assert_eq!(floats(&same.channels[0]), vec![0.5, 1.0]);
}

#[test]
fn whole_factors_keep_every_sample() {
    let input: Vec<f32> = (0..40).map(|i| (i as f32 * 0.91).cos()).collect();
    for factor in [2usize, 3, 4, 6] {
        let r = resample(audio(8_000.0, &[&input]), double(8_000.0 * factor as f64));
        let out = floats(&r.channels[0]);
        assert_eq!(out.len(), input.len() * factor);
        for (j, x) in input.iter().enumerate() {
            assert_eq!(out[factor * j], *x);
        }
    }
}
