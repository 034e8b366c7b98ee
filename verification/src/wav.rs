//! Decoding WAV files.
use crate::audio;
use crate::audio::{Audio, DecodedAudio};
use crate::error;
use crate::error::{DecodeError, Failure};
use crate::float::laws;
use crate::float::model;
use crate::float::model::{Format, Value};
use crate::float::{Double, Single};
use crate::hound_reader;
use crate::hound_reader::{Position, SampleFormat, WavError, WavSpec};
use vstd::arithmetic::power2;
use vstd::prelude::*;

verus! {

/// The number that a whole-number sample of `bits` bits stands for: the sample
/// over the amplitude of that depth, two to the `bits - 1`.
pub open spec fn normalized(sample: i32, bits: u16) -> Value {
    let magnitude = if sample < 0 {
        -sample
    } else {
        sample as int
    };
    model::round(
        Format::Single,
        sample < 0,
        magnitude as nat * power2::pow2(1 + Format::Single.unit() as nat),
        power2::pow2(bits as nat),
    )
}

/// A whole-number sample of `bits` bits, over the amplitude of that depth.
pub fn normalize(sample: i32, bits: u16) -> (r: Single)
    ensures
        r@ == normalized(sample, bits),
{
    let magnitude: i64 = if sample < 0 {
        -(sample as i64)
    } else {
        sample as i64
    };
    Single::scaled(sample < 0, magnitude as u32, 1, bits)
}

/// The sample `x` is what the stored sample `raw` stands for: its bit pattern
/// where the file holds single-precision numbers, the normalized one where it
/// holds whole numbers.
pub open spec fn stands_for(spec: WavSpec, raw: i32, x: Single) -> bool {
    match spec.sample_format {
        SampleFormat::Float => x.bits == raw as u32,
        SampleFormat::Int => x@ == normalized(raw, spec.bits_per_sample),
    }
}

/// `audio` is what the stored samples `raw`, interleaved, stand for.
pub open spec fn is_audio(spec: WavSpec, raw: Seq<i32>, audio: Audio) -> bool {
    let n = spec.channels as nat;
    &&& audio.sample_rate == model::whole(Format::Double, spec.sample_rate as nat)
    &&& audio.channels.len() == n
    &&& forall|c: int|
        0 <= c < n ==> (#[trigger] audio.channels[c]).len() == audio::lane(raw, n, c).len()
    &&& forall|c: int, j: int|
        0 <= c < n && 0 <= j < audio.channels[c].len() ==> stands_for(
            spec,
            audio::lane(raw, n, c)[j],
            #[trigger] audio.channels[c][j],
        )
}

/// Makes audio of the stored samples of a WAV file.
pub fn assemble(spec: WavSpec, raw: &Vec<i32>) -> (r: DecodedAudio)
    requires
        spec.channels > 0,
    ensures
        is_audio(spec, raw@, r@),
{
    let mut samples: Vec<Single> = Vec::new();
    for i in 0..raw.len()
        invariant
            samples@.len() == i,
            forall|k: int| 0 <= k < i ==> stands_for(spec, raw@[k], #[trigger] samples@[k]),
    {
        let sample = match spec.sample_format {
            SampleFormat::Float => Single::from_bits(raw[i] as u32),
            SampleFormat::Int => normalize(raw[i], spec.bits_per_sample),
        };
        samples.push(sample);
    }
    let mut channels = audio::empty_channels(spec.channels as usize);
    audio::deinterleave(&mut channels, samples.as_slice());
    let r = audio::decoded_audio(channels, Double::from_whole(spec.sample_rate as u64));
    proof {
        let n = spec.channels as nat;
        assert forall|c: int| 0 <= c < n implies (#[trigger] r@.channels[c]) == audio::lane(
            samples@,
            n,
            c,
        ) by {
            assert(Seq::<Single>::empty() + audio::lane(samples@, n, c) =~= audio::lane(
                samples@,
                n,
                c,
            ));
        }
        assert forall|c: int, j: int|
            0 <= c < n && 0 <= j < r@.channels[c].len() implies stands_for(
            spec,
            audio::lane(raw@, n, c)[j],
            #[trigger] r@.channels[c][j],
        ) by {
            audio::lemma_lane_index(raw@.len(), n, c, j);
        }
    }
    r
}

/// The outcome of reading `n` samples of `width` bytes and `bits` bits that
/// follow each other: all of them, or the first failure.
pub open spec fn samples_from(input: Seq<u8>, width: u16, bits: u16, n: nat) -> Result<
    Seq<i32>,
    Failure,
>
    decreases n,
{
    if n == 0 {
        Ok(Seq::empty())
    } else {
        match hound_reader::sample_outcome(input, width, bits) {
            Ok(sample) => preceded(
                seq![sample],
                samples_from(input.skip(width as int), width, bits, (n - 1) as nat),
            ),
            Err(e) => Err(error::wav_failure(e)),
        }
    }
}

/// `first`, then the samples of `rest` unless that is a failure.
pub open spec fn preceded(first: Seq<i32>, rest: Result<Seq<i32>, Failure>) -> Result<
    Seq<i32>,
    Failure,
> {
    match rest {
        Ok(samples) => Ok(first + samples),
        Err(failure) => Err(failure),
    }
}

/// What comes of reading the stored samples of a file from where its data starts.
/// A file of single-precision numbers stores them in four bytes each.
pub open spec fn stored_samples(p: Position) -> Result<Seq<i32>, Failure> {
    match p.spec.sample_format {
        SampleFormat::Int => samples_from(
            p.unread,
            p.width,
            p.spec.bits_per_sample,
            p.len as nat,
        ),
        SampleFormat::Float => float_words(p.unread, p.width, p.spec.bits_per_sample, p.len as nat),
    }
}

/// What comes of reading `n` single-precision numbers as their bit patterns.
pub open spec fn float_words(input: Seq<u8>, width: u16, bits: u16, n: nat) -> Result<
    Seq<i32>,
    Failure,
> {
    if n == 0 || (width == 4 && bits == 32) {
        samples_from(input, 4, 32, n)
    } else if width > 4 {
        Err(error::wav_failure(WavError::TooWide))
    } else {
        Err(error::wav_failure(WavError::Unsupported))
    }
}

/// What a result of reading samples says.
pub open spec fn samples_view(r: Result<Vec<i32>, DecodeError>) -> Result<Seq<i32>, Failure> {
    match r {
        Ok(samples) => Ok(samples@),
        Err(e) => Err(e@),
    }
}

/// The samples read so far go before those that are left.
proof fn lemma_one_more(
    so_far: Seq<i32>,
    input: Seq<u8>,
    width: u16,
    bits: u16,
    n: nat,
    sample: i32,
)
    requires
        n > 0,
        hound_reader::sample_outcome(input, width, bits) == Ok::<i32, WavError>(sample),
    ensures
        preceded(so_far, samples_from(input, width, bits, n)) == preceded(
            so_far.push(sample),
            samples_from(input.skip(width as int), width, bits, (n - 1) as nat),
        ),
{
    match samples_from(input.skip(width as int), width, bits, (n - 1) as nat) {
        Ok(rest) => {
            assert(so_far + (seq![sample] + rest) =~= so_far.push(sample) + rest);
        },
        Err(_) => {},
    }
}

/// Reads the samples of a file that stores whole numbers.
fn read_whole_numbers(source: hound::WavReader<&[u8]>) -> (r: Result<Vec<i32>, DecodeError>)
    requires
        hound_reader::position(source).asked == 0,
        hound_reader::position(source).spec.sample_format is Int,
    ensures
        samples_view(r) == stored_samples(hound_reader::position(source)),
{
    let ghost start = hound_reader::position(source);
    let ghost bits = start.spec.bits_per_sample;
    let len = hound_reader::wav_len(&source);
    let mut reader = source;
    let mut samples: Vec<i32> = Vec::new();
    let mut asked: u32 = 0;
    proof {
        lemma_preceded_by_nothing(stored_samples(start));
    }
    while asked < len
        invariant
            asked <= len,
            start == hound_reader::position(source),
            len == start.len,
            start.spec.sample_format is Int,
            bits == start.spec.bits_per_sample,
            hound_reader::position(reader) == (Position {
                asked: asked as nat,
                unread: hound_reader::position(reader).unread,
                ..start
            }),
            stored_samples(start) == preceded(
                samples@,
                samples_from(
                    hound_reader::position(reader).unread,
                    start.width,
                    bits,
                    (len - asked) as nat,
                ),
            ),
        decreases len - asked,
    {
        let ghost p = hound_reader::position(reader);
        match hound_reader::next_sample(&mut reader) {
            Some(Ok(sample)) => {
                proof {
                    lemma_one_more(
                        samples@,
                        p.unread,
                        start.width,
                        bits,
                        (len - asked) as nat,
                        sample,
                    );
                }
                samples.push(sample);
                asked = asked + 1;
            },
            Some(Err(e)) => {
                return Err(DecodeError::from(e));
            },
            None => {
                assert(false);
            },
        }
    }
    assert(samples@ + Seq::<i32>::empty() =~= samples@);
    Ok(samples)
}

proof fn lemma_preceded_by_nothing(r: Result<Seq<i32>, Failure>)
    ensures
        preceded(Seq::empty(), r) == r,
{
    match r {
        Ok(samples) => {
            assert(Seq::<i32>::empty() + samples =~= samples);
        },
        Err(_) => {},
    }
}

/// Reads `len` single-precision numbers of `width` bytes and `bits` bits as
/// their bit patterns.
pub fn read_float_words(input: &[u8], width: u16, bits: u16, len: u32) -> (r: Result<
    Vec<i32>,
    DecodeError,
>)
    ensures
        samples_view(r) == float_words(input@, width, bits, len as nat),
{
    let mut samples: Vec<i32> = Vec::new();
    if len == 0 {
        return Ok(samples);
    }
    if width != 4 || bits != 32 {
        return Err(
            if width > 4 {
                DecodeError::Corrupt(
                    "The sample has more bits than the destination type.".to_string(),
                )
            } else {
                DecodeError::UnsupportedFormat("unsupported WAV encoding".to_string())
            },
        );
    }
    let mut unread = input;
    let mut asked: u32 = 0;
    proof {
        lemma_preceded_by_nothing(samples_from(input@, 4, 32, len as nat));
    }
    while asked < len
        invariant
            asked <= len,
            width == 4,
            bits == 32,
            samples_from(input@, 4, 32, len as nat) == preceded(
                samples@,
                samples_from(unread@, 4, 32, (len - asked) as nat),
            ),
        decreases len - asked,
    {
        let ghost left = unread@;
        match hound_reader::read_sample(&mut unread, 4, 32) {
            Ok(word) => {
                proof {
                    lemma_one_more(samples@, left, 4, 32, (len - asked) as nat, word);
                }
                samples.push(word);
                asked = asked + 1;
            },
            Err(e) => {
                return Err(DecodeError::from(e));
            },
        }
    }
    assert(samples@ + Seq::<i32>::empty() =~= samples@);
    Ok(samples)
}

/// The number that four bytes from `at` on spell, low byte first.
fn length_field(bytes: &[u8], at: usize) -> (r: u32)
    requires
        at + 4 <= bytes@.len(),
    ensures
        r == hound_reader::little_endian(bytes@.skip(at as int), 4),
{
    proof {
        let s = bytes@.skip(at as int);
        reveal_with_fuel(hound_reader::little_endian, 5);
        assert(s.skip(1).skip(1) =~= s.skip(2));
        assert(s.skip(2).skip(1) =~= s.skip(3));
    }
    bytes[at] as u32 + 256 * (bytes[at + 1] as u32 + 256 * (bytes[at + 2] as u32 + 256 * (bytes[at
        + 3] as u32)))
}

/// What comes of decoding `bytes` as a WAV file: the failure, or the header's
/// statement and the stored samples.
pub open spec fn wav_outcome(bytes: Seq<u8>) -> Result<(WavSpec, Seq<i32>), Failure> {
    match hound_reader::wav_start(bytes) {
        Err(e) => Err(error::wav_failure(hound_reader::wav_error_variant(e))),
        Ok(p) => if p.spec.channels == 0 {
            Err(Failure::Corrupt("WAV file declares 0 channels"@))
        } else {
            match stored_samples(p) {
                Ok(raw) => Ok((p.spec, raw)),
                Err(failure) => Err(failure),
            }
        },
    }
}

/// Every channel has as many samples as every other.
pub open spec fn is_even(audio: Audio) -> bool {
    forall|c: int, d: int|
        0 <= c < audio.channels.len() && 0 <= d < audio.channels.len() ==> (
        #[trigger] audio.channels[c]).len() == (#[trigger] audio.channels[d]).len()
}

proof fn lemma_whole_rounds_are_even(spec: WavSpec, raw: Seq<i32>, audio: Audio)
    requires
        is_audio(spec, raw, audio),
        raw.len() as int % spec.channels as int == 0,
    ensures
        is_even(audio),
{
    let n = spec.channels as nat;
    assert forall|c: int, d: int| 0 <= c < n && 0 <= d < n implies (
    #[trigger] audio.channels[c]).len() == (#[trigger] audio.channels[d]).len() by {
        audio::law_whole_rounds_fill_evenly(raw, n, c);
        audio::law_whole_rounds_fill_evenly(raw, n, d);
    }
}

/// The audio holds all that the header of `bytes` announces and the data stores:
/// the rate, the channels, for each of them one sample of every round, and the
/// sample of round `j` of channel `c` is the one stored at place `c` of it.
pub open spec fn holds_every_sample(bytes: Seq<u8>, audio: Audio) -> bool {
    hound_reader::wav_start(bytes) matches Ok(p) && {
        let n = p.spec.channels as int;
        &&& audio.sample_rate == (Value::Finite {
            negative: false,
            magnitude: p.spec.sample_rate as nat * power2::pow2(1074),
        })
        &&& audio.channels.len() == n > 0
        &&& forall|c: int|
            0 <= c < n ==> (#[trigger] audio.channels[c]).len() == p.len as int / n
        &&& forall|c: int, j: int|
            0 <= c < n && 0 <= j < p.len as int / n ==> match p.spec.sample_format {
                SampleFormat::Float => (#[trigger] audio.channels[c][j]).bits
                    == hound_reader::little_endian(p.unread.skip(4 * (j * n + c)), 4),
                SampleFormat::Int => audio.channels[c][j]@ == normalized(
                    hound_reader::sample_value(
                        p.unread.skip((j * n + c) * p.width),
                        p.spec.bits_per_sample,
                    ) as i32,
                    p.spec.bits_per_sample,
                ),
            }
    }
}

/// Decodes a WAV file in memory. The channels that come out are equally long.
pub fn decode_wav(bytes: &[u8]) -> (r: Result<DecodedAudio, DecodeError>)
    ensures
        match wav_outcome(bytes@) {
            Ok((spec, raw)) => r matches Ok(audio) && is_audio(spec, raw, audio@),
            Err(failure) => r matches Err(e) && e@ == failure,
        },
        r matches Ok(audio) ==> is_even(audio@),
        r matches Ok(audio) ==> holds_every_sample(bytes@, audio@),
        r is Ok && hound_reader::wav_start(bytes@) is Ok ==> {
            let p = hound_reader::wav_start(bytes@)->Ok_0;
            &&& r->Ok_0@.channels.len() == p.spec.channels
            &&& forall|c: int|
                0 <= c < p.spec.channels ==> (#[trigger] r->Ok_0@.channels[c]).len() == p.len as int
                    / p.spec.channels as int
        },
{
    let reader = match hound_reader::open_wav(bytes) {
        Ok(reader) => reader,
        Err(e) => {
            return Err(DecodeError::from(e));
        },
    };
    let ghost start = hound_reader::position(reader);
    let spec = hound_reader::wav_spec(&reader);
    if spec.channels == 0 {
        return Err(DecodeError::Corrupt("WAV file declares 0 channels".to_string()));
    }
    let stored = match spec.sample_format {
        SampleFormat::Int => read_whole_numbers(reader),
        SampleFormat::Float => {
            let len = hound_reader::wav_len(&reader);
            let unread = hound_reader::wav_unread(reader);
            if len == 0 {
                read_float_words(unread, 4, 32, 0)
            } else {
                let data_len = length_field(bytes, bytes.len() - unread.len() - 4);
                proof {
                    assert(data_len / len == start.width) by (nonlinear_arith)
                        requires
                            data_len == start.len * start.width,
                            len == start.len,
                            len > 0,
                    ;
                }
                read_float_words(unread, (data_len / len) as u16, spec.bits_per_sample, len)
            }
        },
    };
    match stored {
        Ok(raw) => {
            let audio = assemble(spec, &raw);
            proof {
                let width = if spec.sample_format is Int {
                    start.width
                } else {
                    4
                };
                let bits = if spec.sample_format is Int {
                    spec.bits_per_sample
                } else {
                    32
                };
                law_reading_succeeds_on_enough_data(start.unread, width, bits, start.len as nat);
                lemma_whole_rounds_are_even(spec, raw@, audio@);
                law_audio_holds_every_sample(bytes@, start, spec, raw@, audio@);
            }
            Ok(audio)
        },
        Err(e) => Err(e),
    }
}

/// Data that is long enough gives every sample its value.
pub proof fn law_enough_data_reads_every_sample(input: Seq<u8>, width: u16, bits: u16, n: nat)
    requires
        hound_reader::readable(width, bits),
        input.len() >= n * width,
    ensures
        samples_from(input, width, bits, n) matches Ok(raw) && raw.len() == n && forall|i: int|
            0 <= i < n ==> #[trigger] raw[i] == hound_reader::sample_value(
                input.skip(i * width),
                bits,
            ) as i32,
    decreases n,
{
    if n > 0 {
        let w = width as int;
        let m = (n - 1) as nat;
        assert(n * w == w + m * w) by (nonlinear_arith)
            requires
                n == m + 1,
        ;
        assert(m * w >= 0) by (nonlinear_arith)
            requires
                m >= 0,
                w >= 0,
        ;
        law_enough_data_reads_every_sample(input.skip(w), width, bits, m);
        let rest = samples_from(input.skip(w), width, bits, m)->Ok_0;
        let raw = samples_from(input, width, bits, n)->Ok_0;
        assert forall|i: int| 0 <= i < n implies #[trigger] raw[i] == hound_reader::sample_value(
            input.skip(i * w),
            bits,
        ) as i32 by {
            if i == 0 {
                assert(input.skip(0 * w) =~= input);
            } else {
                assert(raw[i] == rest[i - 1]);
                assert(w + (i - 1) * w == i * w) by (nonlinear_arith);
                assert((i - 1) * w >= 0 && i * w <= n * w) by (nonlinear_arith)
                    requires
                        1 <= i <= n,
                        w >= 0,
                ;
                assert(input.skip(w).skip((i - 1) * w) =~= input.skip(i * w));
            }
        }
    }
}

/// Data that ends before the last sample fails as an I/O error does.
pub proof fn law_short_data_is_an_io_error(input: Seq<u8>, width: u16, bits: u16, n: nat)
    requires
        hound_reader::readable(width, bits),
        input.len() < n * width,
    ensures
        samples_from(input, width, bits, n) matches Err(Failure::Io(_)),
    decreases n,
{
    let w = width as int;
    if n == 0 {
        assert(n * w == 0) by (nonlinear_arith)
            requires
                n == 0,
        ;
    } else if input.len() >= w {
        let m = (n - 1) as nat;
        assert(n * w == w + m * w) by (nonlinear_arith)
            requires
                n == m + 1,
        ;
        law_short_data_is_an_io_error(input.skip(w), width, bits, m);
    }
}

/// Reading succeeds exactly where every sample can be read and the data is long
/// enough for all of them; then there are as many as were asked for.
pub proof fn law_reading_succeeds_on_enough_data(input: Seq<u8>, width: u16, bits: u16, n: nat)
    ensures
        samples_from(input, width, bits, n) is Ok <==> n == 0 || (hound_reader::readable(width, bits)
            && input.len() >= n * width),
        samples_from(input, width, bits, n) matches Ok(raw) ==> raw.len() == n,
{
    if n > 0 && hound_reader::readable(width, bits) {
        if input.len() >= n * width {
            law_enough_data_reads_every_sample(input, width, bits, n);
        } else {
            law_short_data_is_an_io_error(input, width, bits, n);
        }
    }
}

/// A file of single-precision numbers that decodes gives those numbers back, bit
/// for bit: sample `j` of channel `c` is the one stored in round `j`, place `c`.
pub proof fn law_float_file_reads_back(p: Position, raw: Seq<i32>, audio: Audio, c: int, j: int)
    requires
        p.spec.sample_format is Float,
        stored_samples(p) == Ok::<Seq<i32>, Failure>(raw),
        is_audio(p.spec, raw, audio),
        0 <= c < p.spec.channels,
        0 <= j < audio.channels[c].len(),
    ensures
        audio.channels[c][j].bits == hound_reader::little_endian(
            p.unread.skip(4 * (j * p.spec.channels + c)),
            4,
        ),
{
    let n = p.spec.channels as nat;
    law_reading_succeeds_on_enough_data(p.unread, 4, 32, p.len as nat);
    audio::lemma_lane_index(raw.len(), n, c, j);
    law_enough_data_reads_every_sample(p.unread, 4, 32, p.len as nat);
    let i = j * n + c;
    assert(stands_for(p.spec, raw[i], audio.channels[c][j]));
    assert(i * 4 == 4 * i);
    lemma_word(p.unread.skip(4 * i));
}

/// A file of whole numbers that decodes gives them normalized: sample `j` of
/// channel `c` is the one stored in round `j`, place `c`, over the amplitude.
pub proof fn law_whole_number_file_is_normalized(
    p: Position,
    raw: Seq<i32>,
    audio: Audio,
    c: int,
    j: int,
)
    requires
        p.spec.sample_format is Int,
        stored_samples(p) == Ok::<Seq<i32>, Failure>(raw),
        is_audio(p.spec, raw, audio),
        0 <= c < p.spec.channels,
        0 <= j < audio.channels[c].len(),
    ensures
        audio.channels[c][j]@ == normalized(
            hound_reader::sample_value(
                p.unread.skip((j * p.spec.channels + c) * p.width),
                p.spec.bits_per_sample,
            ) as i32,
            p.spec.bits_per_sample,
        ),
{
    let n = p.spec.channels as nat;
    let bits = p.spec.bits_per_sample;
    law_reading_succeeds_on_enough_data(p.unread, p.width, bits, p.len as nat);
    audio::lemma_lane_index(raw.len(), n, c, j);
    law_enough_data_reads_every_sample(p.unread, p.width, bits, p.len as nat);
    assert(stands_for(p.spec, raw[j * n + c], audio.channels[c][j]));
}

/// What a WAV file decodes to holds every sample that its header announces, each
/// channel as many of them as there are rounds, and the header's rate.
pub proof fn law_audio_holds_every_sample(
    bytes: Seq<u8>,
    p: Position,
    spec: WavSpec,
    raw: Seq<i32>,
    audio: Audio,
)
    requires
        hound_reader::wav_start(bytes) == Ok::<Position, hound::Error>(p),
        p.spec.channels > 0 ==> p.len as int % p.spec.channels as int == 0,
        wav_outcome(bytes) == Ok::<(WavSpec, Seq<i32>), Failure>((spec, raw)),
        is_audio(spec, raw, audio),
    ensures
        holds_every_sample(bytes, audio),
        audio.sample_rate == (Value::Finite {
            negative: false,
            magnitude: p.spec.sample_rate as nat * power2::pow2(1074),
        }),
        p.spec.channels > 0,
        audio.channels.len() == p.spec.channels,
        forall|c: int|
            0 <= c < p.spec.channels ==> (#[trigger] audio.channels[c]).len() == p.len as int
                / p.spec.channels as int,
        forall|c: int, j: int|
            p.spec.sample_format is Float && 0 <= c < p.spec.channels && 0 <= j < p.len as int
                / p.spec.channels as int ==> (#[trigger] audio.channels[c][j]).bits
                == hound_reader::little_endian(
                p.unread.skip(4 * (j * p.spec.channels + c)),
                4,
            ),
        forall|c: int, j: int|
            p.spec.sample_format is Int && 0 <= c < p.spec.channels && 0 <= j < p.len as int
                / p.spec.channels as int ==> (#[trigger] audio.channels[c][j])@ == normalized(
                hound_reader::sample_value(
                    p.unread.skip((j * p.spec.channels + c) * p.width),
                    p.spec.bits_per_sample,
                ) as i32,
                p.spec.bits_per_sample,
            ),
{
    let n = p.spec.channels as nat;
    let (width, bits) = if p.spec.sample_format is Int {
        (p.width, p.spec.bits_per_sample)
    } else {
        (4u16, 32u16)
    };
    law_reading_succeeds_on_enough_data(p.unread, width, bits, p.len as nat);
    assert(raw.len() == p.len);
    power2::lemma2_to64();
    power2::lemma2_to64_rest();
    laws::law_whole_is_exact(Format::Double, p.spec.sample_rate as nat);
    assert forall|c: int| 0 <= c < n implies (#[trigger] audio.channels[c]).len() == p.len as int
        / n as int by {
        audio::law_whole_rounds_fill_evenly(raw, n, c);
    }
    assert forall|c: int, j: int|
        0 <= c < n && 0 <= j < p.len as int / n as int implies match p.spec.sample_format {
        SampleFormat::Float => (#[trigger] audio.channels[c][j]).bits
            == hound_reader::little_endian(p.unread.skip(4 * (j * n as int + c)), 4),
        SampleFormat::Int => audio.channels[c][j]@ == normalized(
            hound_reader::sample_value(
                p.unread.skip((j * n as int + c) * p.width),
                p.spec.bits_per_sample,
            ) as i32,
            p.spec.bits_per_sample,
        ),
    } by {
        assert(audio.channels[c].len() == p.len as int / n as int);
        if p.spec.sample_format is Float {
            law_float_file_reads_back(p, raw, audio, c, j);
        } else {
            law_whole_number_file_is_normalized(p, raw, audio, c, j);
        }
    }
}

/// A WAV file decodes exactly where its header can be read, declares a channel,
/// and announces samples that can be read and that its data has room for.
pub proof fn law_wav_file_decodes_exactly_where_it_is_whole(bytes: Seq<u8>)
    ensures
        wav_outcome(bytes) is Ok <==> {
            &&& hound_reader::wav_start(bytes) matches Ok(p)
            &&& p.spec.channels > 0
            &&& p.len == 0 || (p.spec.sample_format is Int && hound_reader::readable(
                p.width,
                p.spec.bits_per_sample,
            ) && p.unread.len() >= p.len * p.width) || (p.spec.sample_format is Float && p.width == 4
                && p.spec.bits_per_sample == 32 && p.unread.len() >= p.len * 4)
        },
{
    if let Ok(p) = hound_reader::wav_start(bytes) {
        law_reading_succeeds_on_enough_data(
            p.unread,
            p.width,
            p.spec.bits_per_sample,
            p.len as nat,
        );
        law_reading_succeeds_on_enough_data(p.unread, 4, 32, p.len as nat);
    }
}

/// Why a WAV file does not decode: its header cannot be read, it declares no
/// channel, its samples are of a size that cannot be read, or its data ends early.
pub proof fn law_wav_failure_says_what_is_wrong(bytes: Seq<u8>)
    ensures
        hound_reader::wav_start(bytes) matches Err(e) ==> wav_outcome(bytes) == Err::<
            (WavSpec, Seq<i32>),
            Failure,
        >(error::wav_failure(hound_reader::wav_error_variant(e))),
        hound_reader::wav_start(bytes) matches Ok(p) ==> {
            let readable = if p.spec.sample_format is Int {
                hound_reader::readable(p.width, p.spec.bits_per_sample)
            } else {
                p.width == 4 && p.spec.bits_per_sample == 32
            };
            &&& p.spec.channels == 0 ==> wav_outcome(bytes) == Err::<(WavSpec, Seq<i32>), Failure>(
                Failure::Corrupt("WAV file declares 0 channels"@),
            )
            &&& p.spec.channels > 0 && p.len > 0 && !readable && p.width > 4 ==> wav_outcome(bytes)
                == Err::<(WavSpec, Seq<i32>), Failure>(
                Failure::Corrupt("The sample has more bits than the destination type."@),
            )
            &&& p.spec.channels > 0 && p.len > 0 && !readable && p.width <= 4 ==> wav_outcome(bytes)
                == Err::<(WavSpec, Seq<i32>), Failure>(
                Failure::UnsupportedFormat("unsupported WAV encoding"@),
            )
            &&& p.spec.channels > 0 && readable && p.unread.len() < p.len * p.width ==> (
            wav_outcome(bytes) matches Err(Failure::Io(_)))
        },
{
    if let Ok(p) = hound_reader::wav_start(bytes) {
        if hound_reader::readable(p.width, p.spec.bits_per_sample) && p.unread.len() < p.len
            * p.width {
            law_short_data_is_an_io_error(
                p.unread,
                p.width,
                p.spec.bits_per_sample,
                p.len as nat,
            );
        }
    }
}

/// A file of 32-bit single-precision numbers decodes exactly where its data is
/// long enough for all of them.
pub proof fn law_float_file_decodes_on_enough_data(p: Position)
    requires
        p.spec.sample_format is Float,
        p.spec.bits_per_sample == 32,
        p.width == 4,
    ensures
        stored_samples(p) is Ok <==> p.unread.len() >= 4 * p.len,
{
    assert(p.len as nat * 4 == 4 * p.len);
    law_reading_succeeds_on_enough_data(p.unread, 4, 32, p.len as nat);
}

/// A signed word has the bits of the unsigned one.
proof fn lemma_word(input: Seq<u8>)
    ensures
        (hound_reader::sample_value(input, 32) as i32) as u32 == hound_reader::little_endian(
            input,
            4,
        ),
{
    let n = hound_reader::little_endian(input, 4);
    reveal_with_fuel(hound_reader::little_endian, 5);
    power2::lemma2_to64();
    assert(n <= u32::MAX);
    assert(4u16 == 32u16 / 8);
    let v = hound_reader::sample_value(input, 32) as i32;
    assert(v < 0 ==> v as u32 == v + 0x1_0000_0000) by (bit_vector);
}

/// Whole-number samples within the amplitude of their depth become numbers from
/// minus one to one.
pub proof fn law_normalized_within_one(sample: i32, bits: u16)
    requires
        bits > 0,
        -(power2::pow2((bits - 1) as nat) as int) <= sample <= power2::pow2((bits - 1) as nat),
    ensures
        normalized(sample, bits) matches Value::Finite { negative, magnitude } && negative == (sample
            < 0) && magnitude <= model::one(Format::Single),
{
    let m = (if sample < 0 {
        -sample
    } else {
        sample as int
    }) as nat;
    let one = model::one(Format::Single);
    let amplitude = power2::pow2((bits - 1) as nat);
    let den = power2::pow2(bits as nat);
    power2::lemma_pow2_pos(bits as nat);
    power2::lemma_pow2_unfold(bits as nat);
    power2::lemma_pow2_unfold(150);
    power2::lemma2_to64();
    assert(one == 1 * power2::pow2(149));
    assert(laws::is_parts(Format::Single, one, 1, 149));
    assert(m * (2 * one) <= one * den) by (nonlinear_arith)
        requires
            m <= amplitude,
            den == 2 * amplitude,
            one >= 0,
    ;
    laws::law_rounding_stays_below(Format::Single, sample < 0, m * (2 * one), den, one);
}

/// Samples of at most 24 bits lose nothing: the number is exactly the sample over
/// the amplitude.
pub proof fn law_narrow_samples_are_exact(sample: i32, bits: u16)
    requires
        bits <= 150,
        -0x100_0000 < sample < 0x100_0000,
    ensures
        normalized(sample, bits) == (Value::Finite {
            negative: sample < 0,
            magnitude: ((if sample < 0 {
                -sample
            } else {
                sample as int
            }) * power2::pow2((150 - bits) as nat)) as nat,
        }),
{
    let m = (if sample < 0 {
        -sample
    } else {
        sample as int
    }) as nat;
    let magnitude = m * power2::pow2((150 - bits) as nat);
    let den = power2::pow2(bits as nat);
    power2::lemma2_to64();
    power2::lemma_pow2_pos(bits as nat);
    power2::lemma_pow2_adds((150 - bits) as nat, bits as nat);
    let lift = power2::pow2((150 - bits) as nat);
    assert(m * (lift * den) == (m * lift) * den) by (nonlinear_arith);
    assert(laws::is_parts(Format::Single, magnitude, m, (150 - bits) as nat));
    laws::law_representable_is_kept(Format::Single, sample < 0, magnitude * den, den, magnitude);
}

/// The lowest sample of a depth becomes minus one.
pub proof fn law_full_scale_is_minus_one(sample: i32, bits: u16)
    requires
        bits > 0,
        sample == -(power2::pow2((bits - 1) as nat) as int),
    ensures
        normalized(sample, bits) == (Value::Finite {
            negative: true,
            magnitude: model::one(Format::Single),
        }),
{
    let one = model::one(Format::Single);
    let amplitude = power2::pow2((bits - 1) as nat);
    let den = power2::pow2(bits as nat);
    power2::lemma_pow2_pos((bits - 1) as nat);
    power2::lemma_pow2_unfold(bits as nat);
    power2::lemma_pow2_unfold(150);
    power2::lemma2_to64();
    assert(one == 1 * power2::pow2(149));
    assert(laws::is_parts(Format::Single, one, 1, 149));
    assert(amplitude * (2 * one) == one * den) by (nonlinear_arith)
        requires
            den == 2 * amplitude,
    ;
    laws::law_representable_is_kept(Format::Single, true, one * den, den, one);
}

/// No number of single precision is nearer to the sample over the amplitude than
/// what it is normalized to, which has the sample's sign.
pub proof fn law_normalized_is_nearest(sample: i32, bits: u16, other: nat)
    requires
        0 < bits <= 64,
        laws::representable(Format::Single, other),
    ensures
        ({
            let size = (if sample < 0 {
                -sample
            } else {
                sample as int
            }) as nat;
            normalized(sample, bits) matches Value::Finite { negative, magnitude } && negative == (
            sample < 0) && laws::distance(
                size * power2::pow2(150),
                power2::pow2(bits as nat),
                magnitude,
            ) <= laws::distance(size * power2::pow2(150), power2::pow2(bits as nat), other)
        }),
{
    let size = (if sample < 0 {
        -sample
    } else {
        sample as int
    }) as nat;
    let num = size * power2::pow2(150);
    let den = power2::pow2(bits as nat);
    let bound = power2::pow2(182);
    power2::lemma2_to64();
    power2::lemma_pow2_pos(bits as nat);
    power2::lemma_pow2_pos(150);
    power2::lemma_pow2_adds(32, 150);
    laws::lemma_power_is_representable(Format::Single, 182);
    assert(num <= bound * den) by (nonlinear_arith)
        requires
            num == size * power2::pow2(150),
            size <= 0x1_0000_0000,
            bound == 0x1_0000_0000 * power2::pow2(150),
            den >= 1,
    {
        assert(num <= bound);
        assert(bound <= bound * den);
    }
    laws::law_rounding_stays_below(Format::Single, sample < 0, num, den, bound);
    laws::law_rounded_is_nearest(Format::Single, sample < 0, num, den, other);
}

/// A larger sample becomes no smaller a number.
pub proof fn law_normalizing_keeps_order(a: i32, b: i32, bits: u16)
    requires
        0 < bits <= 64,
        a <= b,
    ensures
        normalized(a, bits) matches Value::Finite { negative: x, magnitude: m } && (normalized(
            b,
            bits,
        ) matches Value::Finite { negative: y, magnitude: n } && model::signed(x, m)
            <= model::signed(y, n)),
{
    let scale = power2::pow2(150);
    let den = power2::pow2(bits as nat);
    power2::lemma2_to64();
    power2::lemma_pow2_pos(bits as nat);
    power2::lemma_pow2_pos(8);
    assert(0 * power2::pow2(0) == 0) by (nonlinear_arith);
    assert(laws::is_parts(Format::Single, 0, 0, 0));
    law_normalized_is_nearest(a, bits, 0);
    law_normalized_is_nearest(b, bits, 0);
    if a >= 0 {
        let (m, n) = (a as nat, b as nat);
        assert(m * scale <= n * scale) by (nonlinear_arith)
            requires
                m <= n,
        ;
        laws::law_rounding_keeps_order(Format::Single, false, m * scale, n * scale, den);
    } else if b < 0 {
        let (m, n) = ((-a) as nat, (-b) as nat);
        assert(n * scale <= m * scale) by (nonlinear_arith)
            requires
                n <= m,
        ;
        laws::law_rounding_keeps_order(Format::Single, true, n * scale, m * scale, den);
    }
}

} // verus!
