//! WAV files of every kind, and what is wrong with the others.
use std::io::Cursor;
use truce_sample_loader::audio::{deinterleave, empty_channels};
use truce_sample_loader::hound_reader::{SampleFormat, WavError, WavSpec};
use truce_sample_loader::wav::{assemble, decode_wav, normalize, read_float_words};
use truce_sample_loader::{DecodeError, DecodedAudio, Single};

fn whole_number_wav(bits: u16, channels: u16, samples: &[i32]) -> Vec<u8> {
    let spec = hound::WavSpec {
        channels,
        sample_rate: 44_100,
        bits_per_sample: bits,
        sample_format: hound::SampleFormat::Int,
    };
    let mut bytes = Cursor::new(Vec::new());
    let mut writer = hound::WavWriter::new(&mut bytes, spec).unwrap();
    for &s in samples {
        writer.write_sample(s).unwrap();
    }
    writer.finalize().unwrap();
    bytes.into_inner()
}

/// A file with a format chunk of sixteen bytes.
fn plain_wav(tag: u16, channels: u16, width: u16, bits: u16, data: &[u8]) -> Vec<u8> {
    let rate = 8_000u32;
    let block = channels * width;
    let mut f = Vec::new();
    f.extend_from_slice(&tag.to_le_bytes());
    f.extend_from_slice(&channels.to_le_bytes());
    f.extend_from_slice(&rate.to_le_bytes());
    f.extend_from_slice(&(rate * u32::from(block)).to_le_bytes());
    f.extend_from_slice(&block.to_le_bytes());
    f.extend_from_slice(&bits.to_le_bytes());
    with_format(&f, data)
}

/// A file with an extended format chunk, of whole numbers or not.
fn extended_wav(float: bool, channels: u16, width: u16, valid_bits: u16, data: &[u8]) -> Vec<u8> {
    let rate = 8_000u32;
    let block = channels * width;
    let mut f = Vec::new();
    f.extend_from_slice(&0xfffeu16.to_le_bytes());
    f.extend_from_slice(&channels.to_le_bytes());
    f.extend_from_slice(&rate.to_le_bytes());
    f.extend_from_slice(&(rate * u32::from(block)).to_le_bytes());
    f.extend_from_slice(&block.to_le_bytes());
    f.extend_from_slice(&(8 * width).to_le_bytes());
    f.extend_from_slice(&22u16.to_le_bytes());
    f.extend_from_slice(&valid_bits.to_le_bytes());
    f.extend_from_slice(&0u32.to_le_bytes());
    f.extend_from_slice(&[if float { 3 } else { 1 }, 0, 0, 0, 0, 0, 0x10, 0]);
    f.extend_from_slice(&[0x80, 0, 0, 0xaa, 0, 0x38, 0x9b, 0x71]);
    with_format(&f, data)
}

fn with_format(format: &[u8], data: &[u8]) -> Vec<u8> {
    let mut v = b"RIFF".to_vec();
    v.extend_from_slice(&(20 + format.len() as u32 + data.len() as u32).to_le_bytes());
    v.extend_from_slice(b"WAVEfmt ");
    v.extend_from_slice(&(format.len() as u32).to_le_bytes());
    v.extend_from_slice(format);
    v.extend_from_slice(b"data");
    v.extend_from_slice(&(data.len() as u32).to_le_bytes());
    v.extend_from_slice(data);
    v
}

fn channel(audio: &DecodedAudio, c: usize) -> Vec<f32> {
    audio.channels[c].iter().map(|s| f32::from_bits(s.to_bits())).collect()
}

fn message(bytes: &[u8]) -> String {
    decode_wav(bytes).unwrap_err().to_string()
}

#[test]
fn eight_bit_samples_are_normalized() {
    let audio = decode_wav(&whole_number_wav(8, 1, &[-128, -64, 0, 1, 127])).unwrap();
    assert_eq!(channel(&audio, 0), vec![-1.0, -0.5, 0.0, 1.0 / 128.0, 127.0 / 128.0]);
    assert_eq!(f64::from_bits(audio.sample_rate.to_bits()), 44_100.0);
}

#[test]
fn sixteen_bit_samples_are_normalized() {
    let audio = decode_wav(&whole_number_wav(16, 2, &[-32_768, 32_767, 1, -1, 16_384, 0])).unwrap();
    assert_eq!(channel(&audio, 0), vec![-1.0, 1.0 / 32_768.0, 0.5]);
    assert_eq!(channel(&audio, 1), vec![32_767.0 / 32_768.0, -1.0 / 32_768.0, 0.0]);
}

#[test]
fn twenty_four_bit_samples_are_normalized() {
    let audio = decode_wav(&whole_number_wav(24, 1, &[-8_388_608, 8_388_607, 1, -3])).unwrap();
    let step = 1.0 / 8_388_608.0;
    assert_eq!(channel(&audio, 0), vec![-1.0, 8_388_607.0 * step, step, -3.0 * step]);
}

#[test]
fn thirty_two_bit_samples_are_rounded() {
    let samples = [i32::MIN, i32::MAX, 1, -1, 0x1234_5678, -0x7fff_ffc0, 16_777_217];
    let audio = decode_wav(&whole_number_wav(32, 1, &samples)).unwrap();
    let expected: Vec<f32> =
        samples.iter().map(|&s| (f64::from(s) / 2_147_483_648.0) as f32).collect();
    assert_eq!(channel(&audio, 0), expected);
    assert_eq!(channel(&audio, 0)[0], -1.0);
    assert_eq!(channel(&audio, 0)[1], 1.0);
}

#[test]
fn twenty_four_bits_in_four_bytes_ignore_the_fourth() {
    let data = [1, 0, 0, 0x7f, 0xff, 0xff, 0xff, 0x12, 0, 0, 0x80, 0];
    let audio = decode_wav(&extended_wav(false, 1, 4, 24, &data)).unwrap();
    let step = 1.0 / 8_388_608.0;
    assert_eq!(channel(&audio, 0), vec![step, -step, -1.0]);
}

#[test]
fn normalizing_is_dividing_by_the_amplitude() {
    for bits in [1u16, 8, 12, 16, 24, 31, 32] {
        for sample in [0, 1, -1, 5, 127, -128, 32_767, 16_777_217, -16_777_219, i32::MAX, i32::MIN] {
            let expected = (f64::from(sample) / 2f64.powi(i32::from(bits) - 1)) as f32;
            assert_eq!(f32::from_bits(normalize(sample, bits).to_bits()), expected);
        }
        if bits < 32 {
            let lowest = -(1i32 << (bits - 1));
            assert_eq!(f32::from_bits(normalize(lowest, bits).to_bits()), -1.0);
        }
    }
}

#[test]
fn extended_float_files_decode() {
    let mut data = Vec::new();
    for x in [0.25f32, -0.75, 1.5, f32::MIN_POSITIVE] {
        data.extend_from_slice(&x.to_le_bytes());
    }
    let audio = decode_wav(&extended_wav(true, 2, 4, 32, &data)).unwrap();
    assert_eq!(channel(&audio, 0), vec![0.25, 1.5]);
    assert_eq!(channel(&audio, 1), vec![-0.75, f32::MIN_POSITIVE]);
}

#[test]
fn files_without_samples_decode_to_empty_channels() {
    for bytes in [
        plain_wav(1, 2, 2, 16, &[]),
        plain_wav(3, 2, 4, 32, &[]),
        plain_wav(1, 2, 8, 64, &[]),
        plain_wav(3, 2, 8, 32, &[]),
    ] {
        let audio = decode_wav(&bytes).unwrap();
        assert_eq!(audio.channels.len(), 2);
        assert!(audio.channels.iter().all(|c| c.is_empty()));
        assert_eq!(f64::from_bits(audio.sample_rate.to_bits()), 8_000.0);
    }
}

#[test]
fn data_that_ends_early_is_an_io_error() {
    let mut whole = whole_number_wav(16, 1, &[1, 2, 3]);
    whole.truncate(whole.len() - 1);
    let mut float = plain_wav(3, 1, 4, 32, &[0; 8]);
    float.truncate(float.len() - 1);
    for bytes in [whole, float] {
        assert!(matches!(decode_wav(&bytes), Err(DecodeError::Io(_))));
        assert_eq!(message(&bytes), "failed to read audio file: Failed to read enough bytes.");
    }
    assert!(matches!(decode_wav(b"RIFF"), Err(DecodeError::Io(_))));
    assert!(matches!(decode_wav(b""), Err(DecodeError::Io(_))));
}

#[test]
fn trailing_chunks_are_ignored() {
    let mut bytes = plain_wav(1, 1, 2, 16, &[0, 0x40]);
    bytes.extend_from_slice(b"LIST\x04\0\0\0rest");
    assert_eq!(channel(&decode_wav(&bytes).unwrap(), 0), vec![0.5]);
    let mut bytes = plain_wav(3, 1, 4, 32, &0.5f32.to_le_bytes());
    bytes.extend_from_slice(b"LIST\x04\0\0\0rest");
    assert_eq!(channel(&decode_wav(&bytes).unwrap(), 0), vec![0.5]);
}

#[test]
fn malformed_files_say_what_is_wrong() {
    let corrupt = "corrupt or malformed audio data: ";
    assert_eq!(
        message(b"not a real wav file, just garbage bytes"),
        format!("{corrupt}no RIFF tag found")
    );
    assert_eq!(
        message(&plain_wav(1, 0, 2, 16, &[])),
        format!("{corrupt}file contains zero channels")
    );
    assert_eq!(
        message(&plain_wav(1, 2, 2, 16, &[0; 6])),
        format!("{corrupt}invalid data chunk length")
    );
}

#[test]
fn wide_samples_are_corrupt() {
    let expected =
        "corrupt or malformed audio data: The sample has more bits than the destination type.";
    assert_eq!(message(&plain_wav(1, 1, 8, 64, &[0; 8])), expected);
    assert_eq!(message(&plain_wav(3, 1, 8, 32, &[0; 8])), expected);
}

#[test]
fn unsupported_encodings_are_refused() {
    let expected = "unsupported audio format: unsupported WAV encoding";
    assert_eq!(message(&plain_wav(2, 1, 2, 16, &[0; 2])), expected);
    assert_eq!(message(&plain_wav(1, 1, 2, 8, &[0; 2])), expected);
    assert_eq!(message(&extended_wav(true, 1, 4, 24, &[0; 4])), expected);
    assert_eq!(message(&extended_wav(false, 1, 2, 12, &[0; 2])), expected);
}

#[test]
fn reader_errors_become_decode_errors() {
    let io = hound::Error::IoError(std::io::Error::new(std::io::ErrorKind::Other, "gone"));
    assert_eq!(DecodeError::from(io).to_string(), "failed to read audio file: gone");
    assert!(matches!(
        DecodeError::from(hound::Error::FormatError("odd")),
        DecodeError::Corrupt(text) if text == "odd"
    ));
    assert!(matches!(
        DecodeError::from(hound::Error::Unsupported),
        DecodeError::UnsupportedFormat(text) if text == "unsupported WAV encoding"
    ));
    for (error, expected) in [
        (hound::Error::TooWide, "The sample has more bits than the destination type."),
        (
            hound::Error::UnfinishedSample,
            "The number of samples written is not a multiple of the number of channels.",
        ),
        (
            hound::Error::InvalidSampleFormat,
            "The sample format differs from the destination format.",
        ),
    ] {
        assert!(matches!(DecodeError::from(error), DecodeError::Corrupt(text) if text == expected));
    }
}

#[test]
fn texts_are_kept_for_what_the_reader_words() {
    let text = "worded by the reader".to_string();
    let error = DecodeError::from_wav(WavError::TooWide, text.clone());
    assert!(matches!(error, DecodeError::Corrupt(t) if t == text));
    let error = DecodeError::from_wav(WavError::Format("reason"), text.clone());
    assert!(matches!(error, DecodeError::Corrupt(t) if t == "reason"));
    let io = std::io::Error::from(std::io::ErrorKind::NotFound);
    let error = DecodeError::from_wav(WavError::Io(io), text);
    assert_eq!(error.describe("not there"), "failed to read audio file: not there");
}

#[test]
fn float_words_are_read_one_by_one() {
    let bytes = [1, 2, 3, 4, 0xff, 0xff, 0xff, 0xff, 9];
    assert_eq!(read_float_words(&bytes, 4, 32, 2).unwrap(), vec![0x0403_0201, -1]);
    assert_eq!(read_float_words(&bytes, 8, 64, 0).unwrap(), Vec::<i32>::new());
    assert!(matches!(read_float_words(&bytes, 4, 32, 3), Err(DecodeError::Io(_))));
    assert!(matches!(read_float_words(&bytes, 5, 32, 1), Err(DecodeError::Corrupt(_))));
    assert!(matches!(read_float_words(&bytes, 4, 24, 1), Err(DecodeError::UnsupportedFormat(_))));
    assert!(matches!(read_float_words(&bytes, 2, 16, 1), Err(DecodeError::UnsupportedFormat(_))));
}

#[test]
fn stored_samples_are_assembled() {
    let spec = WavSpec {
        channels: 2,
        sample_rate: 22_050,
        bits_per_sample: 16,
        sample_format: SampleFormat::Int,
    };
    let audio = assemble(spec, &vec![16_384, -16_384, 8_192, 0]);
    assert_eq!(channel(&audio, 0), vec![0.5, 0.25]);
    assert_eq!(channel(&audio, 1), vec![-0.5, 0.0]);
    let spec = WavSpec { sample_format: SampleFormat::Float, ..spec };
    let audio = assemble(spec, &vec![0.1f32.to_bits() as i32, (-0.2f32).to_bits() as i32]);
    assert_eq!(channel(&audio, 0), vec![0.1]);
    assert_eq!(channel(&audio, 1), vec![-0.2]);
}

#[test]
fn samples_are_dealt_out_in_turn() {
    let numbered: Vec<Single> = (0..7).map(Single::from_bits).collect();
    let mut channels = empty_channels(3);
    deinterleave(&mut channels, &numbered);
    let bits = |channels: &Vec<Vec<Single>>| -> Vec<Vec<u32>> {
        channels.iter().map(|c| c.iter().map(|s| s.to_bits()).collect()).collect()
    };
    assert_eq!(bits(&channels), vec![vec![0, 3, 6], vec![1, 4], vec![2, 5]]);

    // Whole rounds one after the other are as good as one stream.
    let mut parts = empty_channels(2);
    deinterleave(&mut parts, &numbered[..4]);
    deinterleave(&mut parts, &numbered[4..]);
    let mut stream = empty_channels(2);
    deinterleave(&mut stream, &numbered);
    assert_eq!(bits(&parts), bits(&stream));

    let mut none = empty_channels(0);
    deinterleave(&mut none, &[]);
    assert!(none.is_empty());
}
