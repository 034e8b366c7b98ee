//! Decoding packet by packet.
use std::io::Cursor;
use truce_sample_loader::error::IoErrorKind;
use truce_sample_loader::stream::{Action, Event, Session, Stage, StreamError, Track};
use truce_sample_loader::{DecodeError, DecodedAudio, Single};

/// Makes an error of one kind out of its text.
type Kind = fn(String) -> StreamError;

fn unreadable() -> StreamError {
    StreamError::Io(std::io::Error::new(std::io::ErrorKind::PermissionDenied, "keep out"))
}

/// The I/O error of [`unreadable`] itself came out.
fn is_unreadable(result: Result<DecodedAudio, DecodeError>) -> bool {
    matches!(
        result,
        Err(DecodeError::Io(e))
            if e.kind() == std::io::ErrorKind::PermissionDenied && e.to_string() == "keep out"
    )
}

fn is_unsupported(result: Result<DecodedAudio, DecodeError>, expected: &str) -> bool {
    matches!(result, Err(DecodeError::UnsupportedFormat(text)) if text == expected)
}

fn is_corrupt(result: Result<DecodedAudio, DecodeError>, expected: &str) -> bool {
    matches!(result, Err(DecodeError::Corrupt(text)) if text == expected)
}

fn track(id: u32, decodable: bool, sample_rate: Option<u32>, channels: Option<usize>) -> Track {
    Track { id, decodable, sample_rate, channels }
}

fn singles(xs: &[f32]) -> Vec<Single> {
    xs.iter().map(|x| Single::from_bits(x.to_bits())).collect()
}

fn channel(audio: &DecodedAudio, c: usize) -> Vec<f32> {
    audio.channels[c].iter().map(|s| f32::from_bits(s.to_bits())).collect()
}

fn finished(action: Action) -> Result<DecodedAudio, DecodeError> {
    match action {
        Action::Finish(result) => result,
        other => panic!("{other:?}"),
    }
}

/// A session that reads packets of track 7, with two channels.
fn reading() -> Session {
    let (s, action) = Session::new().step(Event::Opened(Ok(())));
    assert!(matches!(action, Action::Probe));
    let tracks = vec![
        track(3, false, Some(1), Some(1)),
        track(7, true, Some(44_100), Some(2)),
        track(9, true, Some(8_000), Some(1)),
    ];
    let (s, action) = s.step(Event::Probed(Ok(tracks)));
    assert!(matches!(action, Action::MakeDecoder { track: 1 }));
    let (s, action) = s.step(Event::DecoderMade(Ok(())));
    assert!(matches!(action, Action::ReadPacket));
    s
}

fn frame(s: Session, samples: &[f32]) -> Session {
    let (s, action) = s.step(Event::PacketRead(Ok(7)));
    assert!(matches!(action, Action::DecodePacket));
    let (s, action) = s.step(Event::FrameDecoded(Ok(singles(samples))));
    assert!(matches!(action, Action::ReadPacket));
    s
}

#[test]
fn a_file_that_cannot_be_opened_is_an_io_error() {
    let missing = std::io::Error::from(std::io::ErrorKind::NotFound);
    let (_, action) = Session::new().step(Event::Opened(Err(missing)));
    assert!(matches!(
        finished(action),
        Err(DecodeError::Io(e)) if e.kind() == std::io::ErrorKind::NotFound
    ));
}

fn probe_fails(e: StreamError) -> Result<DecodedAudio, DecodeError> {
    let (s, _) = Session::new().step(Event::Opened(Ok(())));
    finished(s.step(Event::Probed(Err(e))).1)
}

fn decoder_fails(e: StreamError) -> Result<DecodedAudio, DecodeError> {
    let (s, _) = Session::new().step(Event::Opened(Ok(())));
    let (s, _) = s.step(Event::Probed(Ok(vec![track(1, true, Some(8_000), Some(1))])));
    finished(s.step(Event::DecoderMade(Err(e))).1)
}

fn packet_fails(e: StreamError) -> Result<DecodedAudio, DecodeError> {
    let s = frame(reading(), &[0.5, 0.25]);
    finished(s.step(Event::PacketRead(Err(e))).1)
}

fn frame_fails(e: StreamError) -> Result<DecodedAudio, DecodeError> {
    let (s, _) = reading().step(Event::PacketRead(Ok(7)));
    finished(s.step(Event::FrameDecoded(Err(e))).1)
}

#[test]
fn a_file_that_cannot_be_read_is_an_io_error() {
    assert!(is_unreadable(probe_fails(unreadable())));
    assert!(is_unreadable(decoder_fails(unreadable())));
    assert!(is_unreadable(packet_fails(unreadable())));
    assert!(is_unreadable(frame_fails(unreadable())));
}

#[test]
fn an_unsupported_encoding_is_an_unsupported_format() {
    let unsupported = || StreamError::Unsupported("not this one".to_string());
    assert!(is_unsupported(probe_fails(unsupported()), "not this one"));
    assert!(is_unsupported(decoder_fails(unsupported()), "not this one"));
    assert!(is_unsupported(packet_fails(unsupported()), "not this one"));
    assert!(is_unsupported(frame_fails(unsupported()), "not this one"));
}

#[test]
fn malformed_data_is_corrupt() {
    let malformed = || StreamError::Decode("broken".to_string());
    assert!(is_corrupt(probe_fails(malformed()), "broken"));
    assert!(is_corrupt(decoder_fails(malformed()), "broken"));
    assert!(is_corrupt(packet_fails(malformed()), "broken"));
}

#[test]
fn other_errors_before_the_first_packet_are_unsupported_formats() {
    let others: [Kind; 4] = [
        StreamError::EndOfFile,
        StreamError::Seek,
        StreamError::Limit,
        StreamError::ResetRequired,
    ];
    for kind in others {
        assert!(is_unsupported(probe_fails(kind("other".to_string())), "other"));
        assert!(is_unsupported(decoder_fails(kind("other".to_string())), "other"));
    }
}

#[test]
fn other_errors_of_packets_are_corrupt() {
    let others: [Kind; 2] = [StreamError::Seek, StreamError::Limit];
    for kind in others {
        assert!(is_corrupt(packet_fails(kind("other".to_string())), "other"));
        assert!(is_corrupt(frame_fails(kind("other".to_string())), "other"));
    }
    let ends: [Kind; 2] = [StreamError::EndOfFile, StreamError::ResetRequired];
    for kind in ends {
        assert!(is_corrupt(frame_fails(kind("other".to_string())), "other"));
    }
}

#[test]
fn an_early_end_is_told_from_other_io_errors() {
    let text = || "worded".to_string();
    let early = std::io::Error::new(std::io::ErrorKind::UnexpectedEof, "early");
    assert!(matches!(StreamError::from_io(early, text()), StreamError::EndOfFile(t) if t == "worded"));
    for kind in [std::io::ErrorKind::NotFound, std::io::ErrorKind::Other] {
        let other = std::io::Error::new(kind, "other");
        assert!(matches!(StreamError::from_io(other, text()), StreamError::Io(e) if e.kind() == kind));
    }
    let io = || std::io::Error::new(std::io::ErrorKind::Other, "other");
    assert!(matches!(
        StreamError::from_io_kind(io(), text(), IoErrorKind::UnexpectedEof),
        StreamError::EndOfFile(t) if t == "worded"
    ));
    assert!(matches!(
        StreamError::from_io_kind(io(), text(), IoErrorKind::Other),
        StreamError::Io(_)
    ));
}

#[test]
fn the_first_decodable_track_has_to_say_enough() {
    let probe = |tracks: Vec<Track>| -> String {
        let (s, _) = Session::new().step(Event::Opened(Ok(())));
        let (_, action) = s.step(Event::Probed(Ok(tracks)));
        finished(action).unwrap_err().to_string()
    };
    let unsupported = "unsupported audio format: no decodable audio track";
    assert_eq!(probe(vec![]), unsupported);
    assert_eq!(probe(vec![track(1, false, Some(1), Some(1))]), unsupported);
    let corrupt = "corrupt or malformed audio data: ";
    let good = track(2, true, Some(8_000), Some(1));
    assert_eq!(
        probe(vec![track(1, true, None, None), good]),
        format!("{corrupt}track has no sample rate")
    );
    assert_eq!(
        probe(vec![track(1, true, Some(8_000), None), good]),
        format!("{corrupt}track has no channel layout")
    );
}

#[test]
fn frames_are_joined_and_the_rest_leaves_no_trace() {
    let s = frame(reading(), &[0.1, -0.1, 0.2, -0.2]);
    // A packet of another track.
    let (s, action) = s.step(Event::PacketRead(Ok(9)));
    assert!(matches!(action, Action::ReadPacket));
    // One that is malformed.
    let (s, action) = s.step(Event::PacketRead(Ok(7)));
    assert!(matches!(action, Action::DecodePacket));
    let (s, action) = s.step(Event::FrameDecoded(Err(StreamError::Decode("bad".to_string()))));
    assert!(matches!(action, Action::ReadPacket));
    let s = frame(s, &[]);
    let s = frame(s, &[0.3, -0.3]);
    let (_, action) = s.step(Event::PacketRead(Err(StreamError::EndOfFile("end".to_string()))));
    let audio = finished(action).unwrap();
    assert_eq!(f64::from_bits(audio.sample_rate.to_bits()), 44_100.0);
    assert_eq!(channel(&audio, 0), vec![0.1, 0.2, 0.3]);
    assert_eq!(channel(&audio, 1), vec![-0.1, -0.2, -0.3]);
}

#[test]
fn a_reset_ends_the_decoding_with_what_there_is() {
    let s = frame(reading(), &[0.5, 0.25]);
    assert_eq!(s.stage(), Stage::Reading);
    let (s, action) = s.step(Event::PacketRead(Err(StreamError::ResetRequired(String::new()))));
    assert_eq!(s.stage(), Stage::Finished);
    let audio = finished(action).unwrap();
    assert_eq!(channel(&audio, 0), vec![0.5]);
    assert_eq!(channel(&audio, 1), vec![0.25]);
}

fn stream_error(e: symphonia::core::errors::Error) -> StreamError {
    let text = e.to_string();
    match e {
        symphonia::core::errors::Error::IoError(io) => StreamError::from_io(io, text),
        symphonia::core::errors::Error::DecodeError(_) => StreamError::Decode(text),
        symphonia::core::errors::Error::SeekError(_) => StreamError::Seek(text),
        symphonia::core::errors::Error::Unsupported(_) => StreamError::Unsupported(text),
        symphonia::core::errors::Error::LimitError(_) => StreamError::Limit(text),
        symphonia::core::errors::Error::ResetRequired => StreamError::ResetRequired(text),
    }
}

/// Runs a session on a file in memory.
fn decode(bytes: &[u8], extension: &str) -> Result<DecodedAudio, DecodeError> {
    let source = Box::new(Cursor::new(bytes.to_vec()));
    let stream = symphonia::core::io::MediaSourceStream::new(source, symphonia::core::io::MediaSourceStreamOptions::default());
    let (s, _) = Session::new().step(Event::Opened(Ok(())));
    let mut hint = symphonia::core::probe::Hint::new();
    hint.with_extension(extension);
    let probed = symphonia::default::get_probe().format(
        &hint,
        stream,
        &symphonia::core::formats::FormatOptions::default(),
        &symphonia::core::meta::MetadataOptions::default(),
    );
    let mut format = match probed {
        Ok(probed) => probed.format,
        Err(e) => return finished(s.step(Event::Probed(Err(stream_error(e)))).1),
    };
    let tracks = format
        .tracks()
        .iter()
        .map(|t| Track {
            id: t.id,
            decodable: t.codec_params.codec != symphonia::core::codecs::CODEC_TYPE_NULL,
            sample_rate: t.codec_params.sample_rate,
            channels: t.codec_params.channels.map(|c| c.count()),
        })
        .collect();
    let (s, action) = s.step(Event::Probed(Ok(tracks)));
    let chosen = match action {
        Action::MakeDecoder { track } => track,
        other => return finished(other),
    };
    let mut decoder = symphonia::default::get_codecs()
        .make(&format.tracks()[chosen].codec_params, &symphonia::core::codecs::DecoderOptions::default())
        .unwrap();
    let (mut s, _) = s.step(Event::DecoderMade(Ok(())));
    loop {
        let packet = match format.next_packet() {
            Ok(packet) => packet,
            Err(e) => return finished(s.step(Event::PacketRead(Err(stream_error(e)))).1),
        };
        let (next, action) = s.step(Event::PacketRead(Ok(packet.track_id())));
        s = next;
        if matches!(action, Action::DecodePacket) {
            let frame = decoder.decode(&packet).unwrap();
            let mut buffer = symphonia::core::audio::SampleBuffer::<f32>::new(frame.capacity() as u64, *frame.spec());
            buffer.copy_interleaved_ref(frame);
            s = s.step(Event::FrameDecoded(Ok(singles(buffer.samples())))).0;
        }
    }
}

/// An AIFF file of 16-bit samples at 8000 Hz.
fn aiff(channels: u16, samples: &[i16]) -> Vec<u8> {
    let mut body = b"AIFFCOMM".to_vec();
    body.extend_from_slice(&18u32.to_be_bytes());
    body.extend_from_slice(&channels.to_be_bytes());
    body.extend_from_slice(&(samples.len() as u32 / u32::from(channels)).to_be_bytes());
    body.extend_from_slice(&16u16.to_be_bytes());
    body.extend_from_slice(&[0x40, 0x0b, 0xfa, 0, 0, 0, 0, 0, 0, 0]);
    body.extend_from_slice(b"SSND");
    body.extend_from_slice(&(8 + 2 * samples.len() as u32).to_be_bytes());
    body.extend_from_slice(&[0; 8]);
    for s in samples {
        body.extend_from_slice(&s.to_be_bytes());
    }
    let mut v = b"FORM".to_vec();
    v.extend_from_slice(&(body.len() as u32).to_be_bytes());
    v.extend_from_slice(&body);
    v
}

#[test]
fn unsupported_extension_without_matching_track_errs() {
    let result = decode(b"not actually an mp3", "mp3");
    assert!(result.is_err());
}

#[test]
fn an_aiff_file_decodes() {
    let samples: Vec<i16> = (0..5_000).map(|i| (i * 13 % 65_536 - 32_768) as i16).collect();
    let audio = decode(&aiff(2, &samples), "aiff").unwrap();
    assert_eq!(f64::from_bits(audio.sample_rate.to_bits()), 8_000.0);
    assert_eq!(audio.channels.len(), 2);
    for c in 0..2 {
        let expected: Vec<f32> =
            samples.iter().skip(c).step_by(2).map(|&s| f32::from(s) / 32_768.0).collect();
        assert_eq!(channel(&audio, c), expected);
    }
}
