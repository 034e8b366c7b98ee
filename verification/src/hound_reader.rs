//! The WAV reader of the `hound` crate, and what is taken on trust about it.
use vstd::prelude::*;

verus! {

#[verifier::external_type_specification]
#[verifier::external_body]
pub struct ExIoError(std::io::Error);

#[verifier::external_type_specification]
#[verifier::external_body]
pub struct ExHoundError(hound::Error);

#[verifier::external_type_specification]
#[verifier::external_body]
#[verifier::reject_recursive_types(R)]
pub struct ExWavReader<R>(hound::WavReader<R>);

/// What went wrong while reading a WAV file, with the variants of
/// `hound::Error`.
#[derive(Debug)]
pub enum WavError {
    Io(std::io::Error),
    Format(&'static str),
    TooWide,
    UnfinishedSample,
    Unsupported,
    InvalidSampleFormat,
}

/// The variant of a `hound::Error`, with its field.
pub uninterp spec fn wav_error_variant(e: hound::Error) -> WavError;

/// Tells the variants of `hound::Error` apart: each becomes the variant of the
/// same name here, and the I/O error or the reason that it carries is kept.
#[verifier::external_body]
pub(crate) fn wav_error(e: hound::Error) -> (r: WavError)
    ensures
        r == wav_error_variant(e),
{
    match e {
        hound::Error::IoError(io) => WavError::Io(io),
        hound::Error::FormatError(reason) => WavError::Format(reason),
        hound::Error::TooWide => WavError::TooWide,
        hound::Error::UnfinishedSample => WavError::UnfinishedSample,
        hound::Error::Unsupported => WavError::Unsupported,
        hound::Error::InvalidSampleFormat => WavError::InvalidSampleFormat,
    }
}

/// What `hound::Error` displays, but for an I/O error, whose text the operating
/// system words.
pub open spec fn displays(e: WavError, text: Seq<char>) -> bool {
    match e {
        WavError::Io(_) => true,
        WavError::Format(reason) => text == "Ill-formed WAVE file: "@ + reason@,
        WavError::TooWide => text == "The sample has more bits than the destination type."@,
        WavError::UnfinishedSample => text
            == "The number of samples written is not a multiple of the number of channels."@,
        WavError::Unsupported => text == "The wave format of the file is not supported."@,
        WavError::InvalidSampleFormat => text
            == "The sample format differs from the destination format."@,
    }
}

/// The text that the `Display` impl of `hound::Error` writes: one fixed sentence
/// for each variant, followed by the reason for an ill-formed file. Nothing is
/// said of the text of an I/O error.
#[verifier::external_body]
pub(crate) fn wav_error_text(e: &hound::Error) -> (text: String)
    ensures
        displays(wav_error_variant(*e), text@),
{
    e.to_string()
}

/// Whether a WAV file stores its samples as numbers with a fraction.
#[derive(Clone, Copy, Debug, PartialEq, Eq, Structural)]
pub enum SampleFormat {
    Float,
    Int,
}

/// What the header of a WAV file says of its audio.
#[derive(Clone, Copy, Debug, PartialEq, Eq, Structural)]
pub struct WavSpec {
    pub channels: u16,
    pub sample_rate: u32,
    pub bits_per_sample: u16,
    pub sample_format: SampleFormat,
}

/// Where a WAV reader stands: what the header said, how many bytes hold one
/// sample, how many samples the data chunk has, how many were asked for, and
/// the bytes that were not read yet.
pub struct Position {
    pub spec: WavSpec,
    pub width: u16,
    pub len: u32,
    pub asked: nat,
    pub unread: Seq<u8>,
}

/// Where a reader over bytes in memory stands.
pub uninterp spec fn position(reader: hound::WavReader<&[u8]>) -> Position;

/// What becomes of `bytes` when their WAV header is read.
pub uninterp spec fn wav_start(bytes: Seq<u8>) -> Result<Position, hound::Error>;

/// Where the reader stands, if there is one.
pub open spec fn started(r: Result<hound::WavReader<&[u8]>, hound::Error>) -> Result<
    Position,
    hound::Error,
> {
    match r {
        Ok(reader) => Ok(position(reader)),
        Err(e) => Err(e),
    }
}

/// The number that the first `n` of `bytes` spell, low byte first.
pub open spec fn little_endian(bytes: Seq<u8>, n: nat) -> nat
    decreases n,
{
    if n == 0 {
        0
    } else {
        bytes[0] as nat + 256 * little_endian(bytes.skip(1), (n - 1) as nat)
    }
}

/// The reader stands at the first byte of the data chunk of `bytes`, whose length
/// in bytes is in the four bytes before, and the chunk holds whole samples for
/// every channel.
pub open spec fn at_data(bytes: Seq<u8>, p: Position) -> bool {
    let start = bytes.len() - p.unread.len();
    &&& start >= 8
    &&& p.unread == bytes.skip(start)
    &&& p.asked == 0
    &&& p.width > 0
    &&& p.len * p.width == little_endian(bytes.skip(start - 4), 4)
    &&& p.spec.channels > 0 ==> p.len as int % p.spec.channels as int == 0
}

/// A reader that was made stands at the data of `bytes`.
pub open spec fn made_at_data(
    r: Result<hound::WavReader<&[u8]>, hound::Error>,
    bytes: Seq<u8>,
) -> bool {
    match r {
        Ok(reader) => at_data(bytes, position(reader)),
        Err(_) => true,
    }
}

/// Reads the header of a WAV file in memory with `hound::WavReader::new`. What it
/// makes of the bytes is a function of them alone; a reader that it returns
/// stands at the content of the data chunk, whose length was checked to be a
/// whole number of samples for every channel.
#[verifier::external_body]
pub(crate) fn open_wav<'a>(bytes: &'a [u8]) -> (r: Result<hound::WavReader<&'a [u8]>, hound::Error>)
    ensures
        started(r) == wav_start(bytes@),
        made_at_data(r, bytes@),
{
    hound::WavReader::new(bytes)
}

/// What the header said, from `hound::WavReader::spec`.
#[verifier::external_body]
pub(crate) fn wav_spec(reader: &hound::WavReader<&[u8]>) -> (r: WavSpec)
    ensures
        r == position(*reader).spec,
{
    let spec = reader.spec();
    WavSpec {
        channels: spec.channels,
        sample_rate: spec.sample_rate,
        bits_per_sample: spec.bits_per_sample,
        sample_format: match spec.sample_format {
            hound::SampleFormat::Float => SampleFormat::Float,
            hound::SampleFormat::Int => SampleFormat::Int,
        },
    }
}

/// The number of samples in the data chunk, from `hound::WavReader::len`.
#[verifier::external_body]
pub(crate) fn wav_len(reader: &hound::WavReader<&[u8]>) -> (r: u32)
    ensures
        r == position(*reader).len,
{
    reader.len()
}

/// The bytes that were not read yet, from `hound::WavReader::into_inner`.
#[verifier::external_body]
pub(crate) fn wav_unread<'a>(reader: hound::WavReader<&'a [u8]>) -> (r: &'a [u8])
    ensures
        r@ == position(reader).unread,
{
    reader.into_inner()
}

/// The storage sizes and bit depths that can be read as whole numbers.
pub open spec fn readable(width: u16, bits: u16) -> bool {
    ||| width == 1 && bits == 8
    ||| width == 2 && bits == 16
    ||| width == 3 && bits == 24
    ||| width == 4 && bits == 24
    ||| width == 4 && bits == 32
}

/// The value of a sample of `bits` bits at the start of `input`: eight bits count
/// from 128, more are in two's complement.
pub open spec fn sample_value(input: Seq<u8>, bits: u16) -> int {
    let n = little_endian(input, (bits / 8) as nat) as int;
    let half = vstd::arithmetic::power2::pow2((bits - 1) as nat) as int;
    if bits == 8 {
        n - half
    } else if n >= half {
        n - 2 * half
    } else {
        n
    }
}

/// The I/O error of a read of `width` bytes from an input that is too short.
pub uninterp spec fn short_read(input: Seq<u8>, width: u16) -> std::io::Error;

/// What comes of reading one whole-number sample from the start of `input`.
pub open spec fn sample_outcome(input: Seq<u8>, width: u16, bits: u16) -> Result<i32, WavError> {
    sample_or(input, width, bits, short_read(input, width))
}

/// What comes of reading one whole-number sample from the start of `input`, where
/// `short` is the I/O error if the input is too short.
pub open spec fn sample_or(
    input: Seq<u8>,
    width: u16,
    bits: u16,
    short: std::io::Error,
) -> Result<i32, WavError> {
    if readable(width, bits) {
        if input.len() >= width {
            Ok(sample_value(input, bits) as i32)
        } else {
            Err(WavError::Io(short))
        }
    } else if width > 4 {
        Err(WavError::TooWide)
    } else {
        Err(WavError::Unsupported)
    }
}

/// A result with its error's variant.
pub open spec fn outcome(r: Result<i32, hound::Error>) -> Result<i32, WavError> {
    match r {
        Ok(sample) => Ok(sample),
        Err(e) => Err(wav_error_variant(e)),
    }
}

/// Reads one sample of `width` bytes and `bits` bits from the start of `input`
/// with the `read` of `hound::Sample` for `i32`, which consumes those bytes where
/// it succeeds. How much a failed read consumes is left open.
#[verifier::external_body]
pub(crate) fn read_sample(input: &mut &[u8], width: u16, bits: u16) -> (r: Result<i32, hound::Error>)
    ensures
        outcome(r) == sample_or(old(input)@, width, bits, short_read(old(input)@, width)),
        r is Ok ==> final(input)@ == old(input)@.skip(width as int),
{
    hound::Sample::read(input, hound::SampleFormat::Int, width, bits)
}

/// What the next sample of a reader at `p` is, if there is one left.
pub open spec fn next_outcome(p: Position) -> Option<Result<i32, WavError>> {
    if p.asked >= p.len {
        None
    } else if p.spec.sample_format is Float {
        Some(Err(WavError::InvalidSampleFormat))
    } else {
        Some(sample_outcome(p.unread, p.width, p.spec.bits_per_sample))
    }
}

/// A sample that may be there, with its error's variant.
pub open spec fn optional_outcome(r: Option<Result<i32, hound::Error>>) -> Option<
    Result<i32, WavError>,
> {
    match r {
        None => None,
        Some(sample) => Some(outcome(sample)),
    }
}

/// Asks for the next sample as a whole number, with `next` of the iterator that
/// `hound::WavReader::samples` returns for `i32`. A sample that was read is
/// consumed. How much a failed read consumes is left open.
#[verifier::external_body]
pub(crate) fn next_sample(reader: &mut hound::WavReader<&[u8]>) -> (r: Option<
    Result<i32, hound::Error>,
>)
    ensures
        optional_outcome(r) == next_outcome(position(*old(reader))),
        r is None ==> position(*final(reader)) == position(*old(reader)),
        r matches Some(Ok(_)) ==> position(*final(reader)) == (Position {
            asked: position(*old(reader)).asked + 1,
            unread: position(*old(reader)).unread.skip(position(*old(reader)).width as int),
            ..position(*old(reader))
        }),
{
    reader.samples::<i32>().next()
}

} // verus!
