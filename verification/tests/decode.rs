//! Decoding and resampling whole files.
use std::io::Cursor;
use truce_sample_loader::decode::{choose_decoder, Decoder};
use truce_sample_loader::{decode_file, resample, DecodeError, DecodedAudio, Double};

fn wav_bytes(sample_rate: u32, channels: u16, samples: &[f32]) -> Vec<u8> {
    let spec = hound::WavSpec {
        channels,
        sample_rate,
        bits_per_sample: 32,
        sample_format: hound::SampleFormat::Float,
    };
    let mut bytes = Cursor::new(Vec::new());
    let mut writer = hound::WavWriter::new(&mut bytes, spec).unwrap();
    for &s in samples {
        writer.write_sample(s).unwrap();
    }
    writer.finalize().unwrap();
    bytes.into_inner()
}

fn rate(audio: &DecodedAudio) -> f64 {
    f64::from_bits(audio.sample_rate.to_bits())
}

fn channel(audio: &DecodedAudio, c: usize) -> Vec<f32> {
    audio.channels[c].iter().map(|s| f32::from_bits(s.to_bits())).collect()
}

fn double(x: f64) -> Double {
    Double::from_bits(x.to_bits())
}

#[test]
fn round_trips_mono_wav() {
    let samples = [0.0f32, 0.25, -0.5, 0.75, -1.0];
    let bytes = wav_bytes(48_000, 1, &samples);

    let decoded = decode_file("mono.wav", Some("wav"), Ok(bytes)).unwrap();
    assert_eq!(rate(&decoded), 48_000.0);
    assert_eq!(decoded.channels.len(), 1);
    assert_eq!(decoded.channels[0].len(), samples.len());
    for (a, b) in channel(&decoded, 0).iter().zip(samples.iter()) {
        assert!((a - b).abs() < 1e-5, "{a} vs {b}");
    }
}

#[test]
fn round_trips_stereo_wav() {
    // The left and right channels are interleaved.
    let interleaved = [0.1f32, -0.1, 0.2, -0.2, 0.3, -0.3];
    let bytes = wav_bytes(44_100, 2, &interleaved);

    let decoded = decode_file("stereo.wav", Some("wav"), Ok(bytes)).unwrap();
    assert_eq!(decoded.channels.len(), 2);
    assert_eq!(decoded.channels[0].len(), 3);
    assert_eq!(decoded.channels[1].len(), 3);
    assert!((channel(&decoded, 0)[0] - 0.1).abs() < 1e-5);
    assert!((channel(&decoded, 1)[0] - -0.1).abs() < 1e-5);
}

#[test]
fn resample_identity_when_rate_matches() {
    let bytes = wav_bytes(48_000, 1, &[0.0, 0.5, -0.5]);

    let decoded = decode_file("id.wav", Some("wav"), Ok(bytes)).unwrap();
    let same_len = decoded.channels[0].len();
    let resampled = resample(decoded, double(48_000.0));
    assert_eq!(rate(&resampled), 48_000.0);
    assert_eq!(resampled.channels[0].len(), same_len);
}

#[test]
fn resample_scales_output_length() {
    let samples: Vec<f32> = (0..480).map(|i| (i as f32 / 480.0).sin()).collect();
    let bytes = wav_bytes(48_000, 1, &samples);

    let decoded = decode_file("scale.wav", Some("wav"), Ok(bytes)).unwrap();
    let resampled = resample(decoded, double(24_000.0));
    assert_eq!(rate(&resampled), 24_000.0);
    // Halving the rate halves the sample count, within a small tolerance.
    let ratio = resampled.channels[0].len() as f64 / 480.0;
    assert!((ratio - 0.5).abs() < 0.01, "ratio={ratio}");
    assert!(channel(&resampled, 0).iter().all(|s| s.is_finite()));
}

#[test]
fn missing_file_is_err_not_panic() {
    let missing = std::io::Error::from(std::io::ErrorKind::NotFound);
    let result = decode_file("/nonexistent/path/does-not-exist.wav", Some("wav"), Err(missing));
    assert!(matches!(result, Err(DecodeError::Io(_))));
}

#[test]
fn corrupt_file_is_err_not_panic() {
    let bytes = b"not a real wav file, just garbage bytes".to_vec();

    let result = decode_file("corrupt.wav", Some("wav"), Ok(bytes));
    assert!(result.is_err(), "corrupt file should not decode successfully");
}

#[test]
fn other_formats_need_the_other_decoders() {
    let result = decode_file("song.mp3", Some("mp3"), Ok(wav_bytes(8_000, 1, &[0.5])));
    match result {
        Err(DecodeError::UnsupportedFormat(text)) => assert_eq!(
            text,
            "unrecognized extension for song.mp3 - enable the `symphonia` feature for non-WAV formats"
        ),
        other => panic!("{other:?}"),
    }
    let missing = std::io::Error::from(std::io::ErrorKind::NotFound);
    let result = decode_file("noise", None, Err(missing));
    assert_eq!(
        result.unwrap_err().to_string(),
        "unsupported audio format: unrecognized extension for noise - enable the `symphonia` \
         feature for non-WAV formats"
    );
}

#[test]
fn case_of_the_extension_does_not_matter() {
    for extension in ["wav", "WAV", "Wav", "wAv"] {
        assert_eq!(choose_decoder(Some(extension), false), Decoder::Wav);
        assert_eq!(choose_decoder(Some(extension), true), Decoder::Wav);
        let decoded = decode_file("x", Some(extension), Ok(wav_bytes(8_000, 1, &[0.5]))).unwrap();
        assert_eq!(channel(&decoded, 0), vec![0.5]);
    }
    for extension in ["", "wa", "wave", "mp3", "w\u{e4}v", "\u{17f}av"] {
        assert_eq!(choose_decoder(Some(extension), false), Decoder::Unrecognized);
        assert_eq!(choose_decoder(Some(extension), true), Decoder::Symphonia);
    }
    assert_eq!(choose_decoder(None, false), Decoder::Unrecognized);
    assert_eq!(choose_decoder(None, true), Decoder::Symphonia);
}

#[test]
fn float_samples_come_back_bit_for_bit() {
    let samples = [0.1f32, -0.0, 1e-45, f32::MAX, -3.5, 0.0, 2.0, 1.0 / 3.0, -0.7];
    let decoded =
        decode_file("x.wav", Some("wav"), Ok(wav_bytes(96_000, 3, &samples))).unwrap();
    assert_eq!(rate(&decoded), 96_000.0);
    assert_eq!(decoded.channels.len(), 3);
    for (i, s) in samples.iter().enumerate() {
        assert_eq!(decoded.channels[i % 3][i / 3].to_bits(), s.to_bits());
    }
    for c in &decoded.channels {
        assert_eq!(c.len(), 3);
    }
}

#[test]
fn an_unreadable_file_keeps_its_error() {
    let denied = std::io::Error::new(std::io::ErrorKind::PermissionDenied, "no entry");
    match decode_file("x.wav", Some("wav"), Err(denied)) {
        Err(DecodeError::Io(e)) => {
            assert_eq!(e.kind(), std::io::ErrorKind::PermissionDenied);
            assert_eq!(
                DecodeError::Io(e).to_string(),
                "failed to read audio file: no entry"
            );
        }
        other => panic!("{other:?}"),
    }
}
