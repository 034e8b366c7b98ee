//! Decoding a file packet by packet with the `symphonia` decoders.
//!
//! Opening the file, probing it, reading packets and decoding them is the
//! caller's part. A [`Session`] decides: it is told what each step gave and
//! answers what to do next.
use crate::audio;
use crate::audio::{Audio, DecodedAudio};
use crate::error;
use crate::error::{DecodeError, Failure, IoErrorKind};
use crate::float::laws;
use crate::float::model;
use crate::float::model::{Format, Value};
use crate::float::{Double, Single};
use vstd::arithmetic::power2;
use vstd::prelude::*;

verus! {

/// What the container says of a track.
#[derive(Clone, Copy, Debug, PartialEq, Eq, Structural)]
pub struct Track {
    pub id: u32,
    /// The track has a codec.
    pub decodable: bool,
    pub sample_rate: Option<u32>,
    pub channels: Option<usize>,
}

/// What went wrong in a step, with the text of the error. An I/O error is kept
/// itself.
#[derive(Debug)]
pub enum StreamError {
    /// The input ended.
    EndOfFile(String),
    /// The file cannot be read, for any other reason.
    Io(std::io::Error),
    /// The data is malformed.
    Decode(String),
    Seek(String),
    /// The encoding is not recognized or not supported.
    Unsupported(String),
    Limit(String),
    /// The decoding would have to start over.
    ResetRequired(String),
}

/// What a [`StreamError`] says.
pub enum StreamFailure {
    EndOfFile(Seq<char>),
    Io(std::io::Error),
    Decode(Seq<char>),
    Seek(Seq<char>),
    Unsupported(Seq<char>),
    Limit(Seq<char>),
    ResetRequired(Seq<char>),
}

impl View for StreamError {
    type V = StreamFailure;

    open spec fn view(&self) -> StreamFailure {
        match *self {
            StreamError::EndOfFile(text) => StreamFailure::EndOfFile(text@),
            StreamError::Io(e) => StreamFailure::Io(e),
            StreamError::Decode(text) => StreamFailure::Decode(text@),
            StreamError::Seek(text) => StreamFailure::Seek(text@),
            StreamError::Unsupported(text) => StreamFailure::Unsupported(text@),
            StreamError::Limit(text) => StreamFailure::Limit(text@),
            StreamError::ResetRequired(text) => StreamFailure::ResetRequired(text@),
        }
    }
}

/// Why a file could not be decoded whose container was not recognized, or whose
/// track has no decoder: what cannot be read is an I/O error, malformed data is
/// corrupt, and everything else an unsupported format.
pub open spec fn opening_failure(e: StreamFailure) -> Failure {
    match e {
        StreamFailure::Io(io) => Failure::Io(io),
        StreamFailure::Decode(text) => Failure::Corrupt(text),
        StreamFailure::EndOfFile(text) => Failure::UnsupportedFormat(text),
        StreamFailure::Seek(text) => Failure::UnsupportedFormat(text),
        StreamFailure::Unsupported(text) => Failure::UnsupportedFormat(text),
        StreamFailure::Limit(text) => Failure::UnsupportedFormat(text),
        StreamFailure::ResetRequired(text) => Failure::UnsupportedFormat(text),
    }
}

/// Why a file could not be decoded whose packets were being read or decoded: what
/// cannot be read is an I/O error, what is not supported an unsupported format,
/// and everything else is corrupt.
pub open spec fn packet_failure(e: StreamFailure) -> Failure {
    match e {
        StreamFailure::Io(io) => Failure::Io(io),
        StreamFailure::Unsupported(text) => Failure::UnsupportedFormat(text),
        StreamFailure::EndOfFile(text) => Failure::Corrupt(text),
        StreamFailure::Decode(text) => Failure::Corrupt(text),
        StreamFailure::Seek(text) => Failure::Corrupt(text),
        StreamFailure::Limit(text) => Failure::Corrupt(text),
        StreamFailure::ResetRequired(text) => Failure::Corrupt(text),
    }
}

/// An I/O error of a step, with its text: one of this kind that tells of an end of
/// the input is no failure to read.
pub open spec fn io_failure(e: std::io::Error, text: Seq<char>, kind: IoErrorKind) -> StreamFailure {
    match kind {
        IoErrorKind::UnexpectedEof => StreamFailure::EndOfFile(text),
        IoErrorKind::Other => StreamFailure::Io(e),
    }
}

/// What a step that the session asked for gave.
#[derive(Debug)]
pub enum Event {
    /// The file was opened, or not.
    Opened(Result<(), std::io::Error>),
    /// The container was recognized and has these tracks, or it was not.
    Probed(Result<Vec<Track>, StreamError>),
    /// There is a decoder for the track, or there is none.
    DecoderMade(Result<(), StreamError>),
    /// A packet of this track was read, or none could be.
    PacketRead(Result<u32, StreamError>),
    /// The packet held these interleaved samples, or could not be decoded.
    FrameDecoded(Result<Vec<Single>, StreamError>),
}

/// What an [`Event`] says.
pub enum Happened {
    Opened(Result<(), std::io::Error>),
    Probed(Result<Seq<Track>, StreamFailure>),
    DecoderMade(Result<(), StreamFailure>),
    PacketRead(Result<u32, StreamFailure>),
    FrameDecoded(Result<Seq<Single>, StreamFailure>),
}

impl View for Event {
    type V = Happened;

    open spec fn view(&self) -> Happened {
        match *self {
            Event::Opened(r) => Happened::Opened(r),
            Event::Probed(Ok(tracks)) => Happened::Probed(Ok(tracks@)),
            Event::Probed(Err(e)) => Happened::Probed(Err(e@)),
            Event::DecoderMade(Ok(x)) => Happened::DecoderMade(Ok(x)),
            Event::DecoderMade(Err(e)) => Happened::DecoderMade(Err(e@)),
            Event::PacketRead(Ok(id)) => Happened::PacketRead(Ok(id)),
            Event::PacketRead(Err(e)) => Happened::PacketRead(Err(e@)),
            Event::FrameDecoded(Ok(samples)) => Happened::FrameDecoded(Ok(samples@)),
            Event::FrameDecoded(Err(e)) => Happened::FrameDecoded(Err(e@)),
        }
    }
}

/// What to do next.
#[derive(Debug)]
pub enum Action {
    /// Recognize the container.
    Probe,
    /// Make a decoder for the track at this place in the list.
    MakeDecoder { track: usize },
    /// Read the next packet.
    ReadPacket,
    /// Decode the packet that was read.
    DecodePacket,
    /// Nothing: this is the result.
    Finish(Result<DecodedAudio, DecodeError>),
}

/// What an [`Action`] says.
pub enum Asked {
    Probe,
    MakeDecoder { track: int },
    ReadPacket,
    DecodePacket,
    Finish(Result<Audio, Failure>),
}

impl View for Action {
    type V = Asked;

    open spec fn view(&self) -> Asked {
        match *self {
            Action::Probe => Asked::Probe,
            Action::MakeDecoder { track } => Asked::MakeDecoder { track: track as int },
            Action::ReadPacket => Asked::ReadPacket,
            Action::DecodePacket => Asked::DecodePacket,
            Action::Finish(Ok(audio)) => Asked::Finish(Ok(audio@)),
            Action::Finish(Err(e)) => Asked::Finish(Err(e@)),
        }
    }
}

/// What a session waits for.
#[derive(Clone, Copy, Debug, PartialEq, Eq, Structural)]
pub enum Stage {
    Opening,
    Probing,
    MakingDecoder,
    Reading,
    Decoding,
    Finished,
}

/// The decoding of one file.
#[derive(Debug)]
pub struct Session {
    stage: Stage,
    /// The track that is decoded, once one was chosen.
    track_id: u32,
    /// The sample rate of that track.
    sample_rate: u32,
    /// What was decoded so far.
    channels: Vec<Vec<Single>>,
}

/// What a [`Session`] holds.
pub struct Progress {
    pub stage: Stage,
    pub track_id: u32,
    pub sample_rate: u32,
    pub channels: Seq<Seq<Single>>,
}

impl View for Session {
    type V = Progress;

    closed spec fn view(&self) -> Progress {
        Progress {
            stage: self.stage,
            track_id: self.track_id,
            sample_rate: self.sample_rate,
            channels: Seq::new(self.channels@.len(), |c: int| self.channels@[c]@),
        }
    }
}

/// The place of the first track that has a codec, or the number of tracks.
pub open spec fn first_decodable(tracks: Seq<Track>) -> int
    decreases tracks.len(),
{
    if tracks.len() == 0 || tracks[0].decodable {
        0
    } else {
        1 + first_decodable(tracks.skip(1))
    }
}

/// `channels` with the interleaved `samples` dealt out behind them.
pub open spec fn dealt(channels: Seq<Seq<Single>>, samples: Seq<Single>) -> Seq<Seq<Single>> {
    Seq::new(
        channels.len(),
        |c: int| channels[c] + audio::lane(samples, channels.len(), c),
    )
}

/// The end of a session with `result`.
pub open spec fn ended(s: Progress, result: Result<Audio, Failure>) -> (Progress, Asked) {
    (
        Progress { stage: Stage::Finished, channels: Seq::empty(), ..s },
        Asked::Finish(result),
    )
}

/// What becomes of a session once the tracks are known: the first one that has a
/// codec is taken, and it has to state its sample rate and channel layout.
pub open spec fn chosen(s: Progress, tracks: Seq<Track>) -> (Progress, Asked) {
    let i = first_decodable(tracks);
    if i >= tracks.len() {
        ended(s, Err(Failure::UnsupportedFormat("no decodable audio track"@)))
    } else {
        match (tracks[i].sample_rate, tracks[i].channels) {
            (None, _) => ended(s, Err(Failure::Corrupt("track has no sample rate"@))),
            (_, None) => ended(s, Err(Failure::Corrupt("track has no channel layout"@))),
            (Some(rate), Some(n)) => (
                Progress {
                    stage: Stage::MakingDecoder,
                    track_id: tracks[i].id,
                    sample_rate: rate,
                    channels: Seq::new(n as nat, |c: int| Seq::<Single>::empty()),
                },
                Asked::MakeDecoder { track: i },
            ),
        }
    }
}

/// The audio that a session has decoded.
pub open spec fn decoded(s: Progress) -> Audio {
    Audio {
        channels: s.channels,
        sample_rate: model::whole(Format::Double, s.sample_rate as nat),
    }
}

/// What a session does on an event. The input ending at a packet, or having to
/// start over there, ends the decoding with what there is. A packet of another
/// track is passed over, and so is one that is malformed. Every other error ends
/// the decoding with a failure that says what went wrong.
pub open spec fn next(s: Progress, event: Happened) -> (Progress, Asked) {
    match event {
        Happened::Opened(Ok(_)) => (Progress { stage: Stage::Probing, ..s }, Asked::Probe),
        Happened::Opened(Err(e)) => ended(s, Err(Failure::Io(e))),
        Happened::Probed(Ok(tracks)) => chosen(s, tracks),
        Happened::Probed(Err(e)) => ended(s, Err(opening_failure(e))),
        Happened::DecoderMade(Ok(_)) => (
            Progress { stage: Stage::Reading, ..s },
            Asked::ReadPacket,
        ),
        Happened::DecoderMade(Err(e)) => ended(s, Err(opening_failure(e))),
        Happened::PacketRead(Ok(id)) => if id == s.track_id {
            (Progress { stage: Stage::Decoding, ..s }, Asked::DecodePacket)
        } else {
            (s, Asked::ReadPacket)
        },
        Happened::PacketRead(Err(e)) => if e is EndOfFile || e is ResetRequired {
            ended(s, Ok(decoded(s)))
        } else {
            ended(s, Err(packet_failure(e)))
        },
        Happened::FrameDecoded(Ok(samples)) => (
            Progress { stage: Stage::Reading, channels: dealt(s.channels, samples), ..s },
            Asked::ReadPacket,
        ),
        Happened::FrameDecoded(Err(e)) => if e is Decode {
            (Progress { stage: Stage::Reading, ..s }, Asked::ReadPacket)
        } else {
            ended(s, Err(packet_failure(e)))
        },
    }
}

/// The event is the outcome of what the session asked for last, and a frame that
/// holds samples comes to a track that has channels.
pub open spec fn accepts(s: Progress, event: Happened) -> bool {
    match event {
        Happened::Opened(_) => s.stage is Opening,
        Happened::Probed(_) => s.stage is Probing,
        Happened::DecoderMade(_) => s.stage is MakingDecoder,
        Happened::PacketRead(_) => s.stage is Reading,
        Happened::FrameDecoded(Ok(samples)) => s.stage is Decoding && (samples.len() > 0
            ==> s.channels.len() > 0),
        Happened::FrameDecoded(Err(_)) => s.stage is Decoding,
    }
}

fn find_decodable(tracks: &Vec<Track>) -> (r: usize)
    ensures
        r == first_decodable(tracks@),
        r <= tracks@.len(),
{
    let mut i: usize = 0;
    assert(tracks@.skip(0) =~= tracks@);
    while i < tracks.len() && !tracks[i].decodable
        invariant
            i <= tracks@.len(),
            first_decodable(tracks@) == i + first_decodable(tracks@.skip(i as int)),
        decreases tracks@.len() - i,
    {
        assert(tracks@.skip(i as int).skip(1) =~= tracks@.skip(i + 1));
        i = i + 1;
    }
    i
}

impl StreamError {
    /// The error of a step that failed with an I/O error displayed as `text`.
    pub fn from_io(e: std::io::Error, text: String) -> (r: StreamError)
        ensures
            r@ == io_failure(e, text@, error::io_error_kind(e)),
    {
        let kind = error::kind_of(&e);
        StreamError::from_io_kind(e, text, kind)
    }

    /// The error of a step that failed with an I/O error of this kind, displayed
    /// as `text`.
    pub fn from_io_kind(e: std::io::Error, text: String, kind: IoErrorKind) -> (r: StreamError)
        ensures
            r@ == io_failure(e, text@, kind),
    {
        match kind {
            IoErrorKind::UnexpectedEof => StreamError::EndOfFile(text),
            IoErrorKind::Other => StreamError::Io(e),
        }
    }

    fn into_opening_failure(self) -> (r: DecodeError)
        ensures
            r@ == opening_failure(self@),
    {
        match self {
            StreamError::Io(io) => DecodeError::from(io),
            StreamError::Decode(text) => DecodeError::Corrupt(text),
            StreamError::EndOfFile(text)
            | StreamError::Seek(text)
            | StreamError::Unsupported(text)
            | StreamError::Limit(text)
            | StreamError::ResetRequired(text) => DecodeError::UnsupportedFormat(text),
        }
    }

    fn into_packet_failure(self) -> (r: DecodeError)
        ensures
            r@ == packet_failure(self@),
    {
        match self {
            StreamError::Io(io) => DecodeError::from(io),
            StreamError::Unsupported(text) => DecodeError::UnsupportedFormat(text),
            StreamError::EndOfFile(text)
            | StreamError::Decode(text)
            | StreamError::Seek(text)
            | StreamError::Limit(text)
            | StreamError::ResetRequired(text) => DecodeError::Corrupt(text),
        }
    }
}

impl Session {
    /// A session that waits for its file to be opened.
    pub fn new() -> (r: Session)
        ensures
            r@ == (Progress {
                stage: Stage::Opening,
                track_id: 0,
                sample_rate: 0,
                channels: Seq::empty(),
            }),
    {
        let r = Session { stage: Stage::Opening, track_id: 0, sample_rate: 0, channels: Vec::new() };
        assert(r@.channels =~= Seq::<Seq<Single>>::empty());
        r
    }

    /// What the session waits for.
    pub fn stage(&self) -> (r: Stage)
        ensures
            r == self@.stage,
    {
        self.stage
    }

    /// How many channels the decoded track has: none before one was chosen, nor
    /// once the session has finished.
    pub fn channel_count(&self) -> (r: usize)
        ensures
            r == self@.channels.len(),
    {
        self.channels.len()
    }

    fn end(self, result: Result<DecodedAudio, DecodeError>) -> (r: (Session, Action))
        ensures
            (r.0@, r.1@) == ended(
                self@,
                match result {
                    Ok(audio) => Ok(audio@),
                    Err(e) => Err(e@),
                },
            ),
    {
        let s = Session {
            stage: Stage::Finished,
            track_id: self.track_id,
            sample_rate: self.sample_rate,
            channels: Vec::new(),
        };
        assert(s@.channels =~= Seq::<Seq<Single>>::empty());
        (s, Action::Finish(result))
    }

    fn take_track(self, tracks: Vec<Track>) -> (r: (Session, Action))
        ensures
            (r.0@, r.1@) == chosen(self@, tracks@),
    {
        let i = find_decodable(&tracks);
        if i == tracks.len() {
            return self.end(
                Err(DecodeError::UnsupportedFormat("no decodable audio track".to_string())),
            );
        }
        let track = tracks[i];
        let sample_rate = match track.sample_rate {
            Some(rate) => rate,
            None => {
                return self.end(Err(DecodeError::Corrupt("track has no sample rate".to_string())));
            },
        };
        let n = match track.channels {
            Some(n) => n,
            None => {
                return self.end(
                    Err(DecodeError::Corrupt("track has no channel layout".to_string())),
                );
            },
        };
        let s = Session {
            stage: Stage::MakingDecoder,
            track_id: track.id,
            sample_rate,
            channels: audio::empty_channels(n),
        };
        assert(s@.channels =~= Seq::new(n as nat, |c: int| Seq::<Single>::empty()));
        (s, Action::MakeDecoder { track: i })
    }

    fn finish(self) -> (r: (Session, Action))
        ensures
            (r.0@, r.1@) == ended(self@, Ok(decoded(self@))),
    {
        let rate = Double::from_whole(self.sample_rate as u64);
        let ghost before = self@;
        let Session { stage, track_id, sample_rate, channels } = self;
        let audio = audio::decoded_audio(channels, rate);
        assert(audio@.channels =~= before.channels);
        (Session { stage, track_id, sample_rate, channels: Vec::new() }).end(Ok(audio))
    }

    fn at(self, stage: Stage) -> (r: Session)
        ensures
            r@ == (Progress { stage, ..self@ }),
    {
        Session {
            stage,
            track_id: self.track_id,
            sample_rate: self.sample_rate,
            channels: self.channels,
        }
    }

    /// Takes in what the last step gave and says what to do next.
    pub fn step(self, event: Event) -> (r: (Session, Action))
        requires
            accepts(self@, event@),
        ensures
            (r.0@, r.1@) == next(self@, event@),
    {
        match event {
            Event::Opened(Ok(_)) => (self.at(Stage::Probing), Action::Probe),
            Event::Opened(Err(e)) => self.end(Err(DecodeError::from(e))),
            Event::Probed(Ok(tracks)) => self.take_track(tracks),
            Event::Probed(Err(e)) => self.end(Err(e.into_opening_failure())),
            Event::DecoderMade(Ok(_)) => (self.at(Stage::Reading), Action::ReadPacket),
            Event::DecoderMade(Err(e)) => self.end(Err(e.into_opening_failure())),
            Event::PacketRead(Ok(id)) => if id == self.track_id {
                (self.at(Stage::Decoding), Action::DecodePacket)
            } else {
                (self, Action::ReadPacket)
            },
            Event::PacketRead(Err(e)) => match e {
                StreamError::EndOfFile(_) | StreamError::ResetRequired(_) => self.finish(),
                other => self.end(Err(other.into_packet_failure())),
            },
            Event::FrameDecoded(Ok(samples)) => {
                let mut s = self.at(Stage::Reading);
                let ghost before = s@.channels;
                audio::deinterleave(&mut s.channels, samples.as_slice());
                assert(s@.channels =~= dealt(before, samples@));
                (s, Action::ReadPacket)
            },
            Event::FrameDecoded(Err(e)) => match e {
                StreamError::Decode(_) => (self.at(Stage::Reading), Action::ReadPacket),
                other => self.end(Err(other.into_packet_failure())),
            },
        }
    }
}

/// A session waits for what it asked for last, and once it has finished it waits
/// for nothing.
pub proof fn law_waits_for_what_it_asked(s: Progress, event: Happened)
    requires
        accepts(s, event),
    ensures
        ({
            let (after, asked) = next(s, event);
            match asked {
                Asked::Probe => after.stage is Probing,
                Asked::MakeDecoder { .. } => after.stage is MakingDecoder,
                Asked::ReadPacket => after.stage is Reading,
                Asked::DecodePacket => after.stage is Decoding,
                Asked::Finish(_) => forall|e: Happened| !#[trigger] accepts(after, e),
            }
        }),
{
}

/// Whatever a step that was asked for gives is taken in, but for samples of a
/// track without channels.
pub proof fn law_answers_are_taken_in(
    s: Progress,
    event: Happened,
    tracks: Result<Seq<Track>, StreamFailure>,
    made: Result<(), StreamFailure>,
    id: Result<u32, StreamFailure>,
    samples: Seq<Single>,
    error: StreamFailure,
)
    requires
        accepts(s, event),
    ensures
        ({
            let (t, asked) = next(s, event);
            &&& asked is Probe ==> accepts(t, Happened::Probed(tracks))
            &&& asked is MakeDecoder ==> accepts(t, Happened::DecoderMade(made))
            &&& asked is ReadPacket ==> accepts(t, Happened::PacketRead(id))
            &&& asked is DecodePacket ==> accepts(t, Happened::FrameDecoded(Err(error)))
            &&& asked is DecodePacket && t.channels.len() > 0 ==> accepts(
                t,
                Happened::FrameDecoded(Ok(samples)),
            )
        }),
{
}

/// A step that fails because the file cannot be read ends the decoding with that
/// very I/O error, whichever step it is.
pub proof fn law_unreadable_file_is_an_io_error(s: Progress, io: std::io::Error)
    ensures
        next(s, Happened::Opened(Err(io))).1 == Asked::Finish(Err(Failure::Io(io))),
        next(s, Happened::Probed(Err(StreamFailure::Io(io)))).1 == Asked::Finish(
            Err(Failure::Io(io)),
        ),
        next(s, Happened::DecoderMade(Err(StreamFailure::Io(io)))).1 == Asked::Finish(
            Err(Failure::Io(io)),
        ),
        next(s, Happened::PacketRead(Err(StreamFailure::Io(io)))).1 == Asked::Finish(
            Err(Failure::Io(io)),
        ),
        next(s, Happened::FrameDecoded(Err(StreamFailure::Io(io)))).1 == Asked::Finish(
            Err(Failure::Io(io)),
        ),
{
}

/// A step that finds an encoding that is not supported ends the decoding with an
/// unsupported format, whichever step it is.
pub proof fn law_unsupported_encoding_is_an_unsupported_format(s: Progress, text: Seq<char>)
    ensures
        ({
            let error = StreamFailure::Unsupported(text);
            let end = Asked::Finish(Err(Failure::UnsupportedFormat(text)));
            &&& next(s, Happened::Probed(Err(error))).1 == end
            &&& next(s, Happened::DecoderMade(Err(error))).1 == end
            &&& next(s, Happened::PacketRead(Err(error))).1 == end
            &&& next(s, Happened::FrameDecoded(Err(error))).1 == end
        }),
{
}

/// A step that finds malformed data ends the decoding as corrupt, but for a
/// malformed packet, which is passed over.
pub proof fn law_malformed_data_is_corrupt(s: Progress, text: Seq<char>)
    ensures
        ({
            let error = StreamFailure::Decode(text);
            let end = Asked::Finish(Err(Failure::Corrupt(text)));
            &&& next(s, Happened::Probed(Err(error))).1 == end
            &&& next(s, Happened::DecoderMade(Err(error))).1 == end
            &&& next(s, Happened::PacketRead(Err(error))).1 == end
            &&& next(s, Happened::FrameDecoded(Err(error))).1 == Asked::ReadPacket
        }),
{
}

/// The track that is decoded has a codec, and none before it has one.
pub proof fn law_first_decodable_track_is_taken(s: Progress, tracks: Seq<Track>)
    ensures
        ({
            let i = first_decodable(tracks);
            &&& 0 <= i <= tracks.len()
            &&& forall|k: int| 0 <= k < i ==> !(#[trigger] tracks[k]).decodable
            &&& i < tracks.len() ==> tracks[i].decodable
        }),
        chosen(s, tracks).1 matches Asked::MakeDecoder { track } ==> track == first_decodable(
            tracks,
        ) && chosen(s, tracks).0.track_id == tracks[track].id,
    decreases tracks.len(),
{
    if tracks.len() > 0 && !tracks[0].decodable {
        law_first_decodable_track_is_taken(s, tracks.skip(1));
        let i = first_decodable(tracks);
        assert forall|k: int| 0 <= k < i implies !(#[trigger] tracks[k]).decodable by {
            if k > 0 {
                assert(tracks[k] == tracks.skip(1)[k - 1]);
            }
        }
    }
}

/// A packet, and what decoding it gives.
pub enum Packet {
    /// One of another track.
    Other { track_id: u32 },
    /// One of the decoded track that is malformed, with what the decoder says.
    Malformed { text: Seq<char> },
    /// One of the decoded track that holds these interleaved samples.
    Frame { samples: Seq<Single> },
}

/// What becomes of a session that waits for a packet and gets this one.
pub open spec fn after_packet(s: Progress, packet: Packet) -> Progress {
    match packet {
        Packet::Other { track_id } => next(s, Happened::PacketRead(Ok(track_id))).0,
        Packet::Malformed { text } => {
            next(
                next(s, Happened::PacketRead(Ok(s.track_id))).0,
                Happened::FrameDecoded(Err(StreamFailure::Decode(text))),
            ).0
        },
        Packet::Frame { samples } => next(
            next(s, Happened::PacketRead(Ok(s.track_id))).0,
            Happened::FrameDecoded(Ok(samples)),
        ).0,
    }
}

/// What becomes of a session that gets these packets one by one.
pub open spec fn after_packets(s: Progress, packets: Seq<Packet>) -> Progress
    decreases packets.len(),
{
    if packets.len() == 0 {
        s
    } else {
        after_packet(after_packets(s, packets.drop_last()), packets.last())
    }
}

/// The samples of all frames among the packets, one after the other.
pub open spec fn all_samples(packets: Seq<Packet>) -> Seq<Single>
    decreases packets.len(),
{
    if packets.len() == 0 {
        Seq::empty()
    } else {
        let before = all_samples(packets.drop_last());
        match packets.last() {
            Packet::Frame { samples } => before + samples,
            _ => before,
        }
    }
}

/// The packet fits a session: one of another track has another number, and a
/// frame holds as many samples for each channel.
pub open spec fn fits(s: Progress, packet: Packet) -> bool {
    match packet {
        Packet::Other { track_id } => track_id != s.track_id,
        Packet::Malformed { .. } => true,
        Packet::Frame { samples } => samples.len() as int % s.channels.len() as int == 0,
    }
}

/// The channels hold what the frames of the decoded track held, dealt out as if
/// they had been one stream. Packets of other tracks and malformed ones leave no
/// trace.
pub proof fn law_frames_are_joined(s: Progress, packets: Seq<Packet>)
    requires
        s.stage is Reading,
        s.channels.len() > 0,
        forall|i: int| 0 <= i < packets.len() ==> fits(s, #[trigger] packets[i]),
    ensures
        after_packets(s, packets) == (Progress {
            channels: dealt(s.channels, all_samples(packets)),
            ..s
        }),
        all_samples(packets).len() as int % s.channels.len() as int == 0,
    decreases packets.len(),
{
    let n = s.channels.len();
    if packets.len() == 0 {
        let none = Seq::<Single>::empty();
        vstd::arithmetic::div_mod::lemma_small_mod(0, n);
        assert forall|c: int| 0 <= c < n implies s.channels[c] =~= dealt(s.channels, none)[c] by {
            audio::law_whole_rounds_fill_evenly(none, n, c);
        }
        assert(dealt(s.channels, none) =~= s.channels);
    } else {
        let before = packets.drop_last();
        let held = all_samples(before);
        law_frames_are_joined(s, before);
        assert(fits(s, packets[packets.len() - 1]));
        match packets.last() {
            Packet::Frame { samples } => {
                assert forall|c: int| 0 <= c < n implies dealt(
                    dealt(s.channels, held),
                    samples,
                )[c] =~= dealt(s.channels, held + samples)[c] by {
                    audio::law_streams_join(held, samples, n, c);
                }
                assert(dealt(dealt(s.channels, held), samples) =~= dealt(
                    s.channels,
                    held + samples,
                ));
                vstd::arithmetic::div_mod::lemma_mod_adds(
                    held.len() as int,
                    samples.len() as int,
                    n as int,
                );
            },
            _ => {},
        }
    }
}

/// A file that ends, or would have to start over, after these packets decodes to
/// everything that its frames held.
pub proof fn law_end_keeps_every_frame(s: Progress, packets: Seq<Packet>, error: StreamFailure)
    requires
        s.stage is Reading,
        s.channels.len() > 0,
        forall|i: int| 0 <= i < packets.len() ==> fits(s, #[trigger] packets[i]),
        error is EndOfFile || error is ResetRequired,
    ensures
        next(after_packets(s, packets), Happened::PacketRead(Err(error))).1 == Asked::Finish(
            Ok(
                Audio {
                    channels: dealt(s.channels, all_samples(packets)),
                    sample_rate: model::whole(Format::Double, s.sample_rate as nat),
                },
            ),
        ),
{
    law_frames_are_joined(s, packets);
}

/// `i` is the place of the first track that has a codec.
pub open spec fn comes_first(tracks: Seq<Track>, i: int) -> bool {
    &&& 0 <= i < tracks.len()
    &&& tracks[i].decodable
    &&& forall|k: int| 0 <= k < i ==> !(#[trigger] tracks[k]).decodable
}

proof fn lemma_comes_first(tracks: Seq<Track>, i: int)
    requires
        comes_first(tracks, i),
    ensures
        first_decodable(tracks) == i,
    decreases tracks.len(),
{
    if i > 0 {
        assert(!tracks[0].decodable);
        assert forall|k: int| 0 <= k < i - 1 implies !(#[trigger] tracks.skip(1)[k]).decodable by {
            assert(tracks.skip(1)[k] == tracks[k + 1]);
        }
        lemma_comes_first(tracks.skip(1), i - 1);
    }
}

/// What becomes of a session on these events, one after the other.
pub open spec fn after(s: Progress, events: Seq<Happened>) -> Progress
    decreases events.len(),
{
    if events.len() == 0 {
        s
    } else {
        next(after(s, events.drop_last()), events.last()).0
    }
}

/// Each event is the outcome of what the session asked for before.
pub open spec fn in_order(s: Progress, events: Seq<Happened>) -> bool
    decreases events.len(),
{
    events.len() > 0 ==> in_order(s, events.drop_last()) && accepts(
        after(s, events.drop_last()),
        events.last(),
    )
}

/// All samples that the decoded frames among the events held, in their order.
pub open spec fn held(events: Seq<Happened>) -> Seq<Single>
    decreases events.len(),
{
    if events.len() == 0 {
        Seq::empty()
    } else {
        match events.last() {
            Happened::FrameDecoded(Ok(samples)) => held(events.drop_last()) + samples,
            _ => held(events.drop_last()),
        }
    }
}

/// Every decoded frame among the events holds as many samples for each of `n`
/// channels.
pub open spec fn whole_rounds(events: Seq<Happened>, n: nat) -> bool {
    forall|k: int|
        0 <= k < events.len() ==> (#[trigger] events[k] matches Happened::FrameDecoded(Ok(samples))
            ==> samples.len() as int % n as int == 0)
}

/// What a session knows of its track stays as it is until it finishes.
proof fn lemma_run_keeps_the_track(s: Progress, events: Seq<Happened>)
    requires
        s.stage is MakingDecoder,
        in_order(s, events),
    ensures
        ({
            let t = after(s, events);
            &&& t.stage !is Opening
            &&& t.stage !is Probing
            &&& t.stage !is Finished ==> t.track_id == s.track_id && t.sample_rate == s.sample_rate
                && t.channels.len() == s.channels.len()
        }),
    decreases events.len(),
{
    if events.len() > 0 {
        lemma_run_keeps_the_track(s, events.drop_last());
    }
}

/// The channels hold the frames so far, dealt out as one stream.
proof fn lemma_run_joins_frames(s: Progress, events: Seq<Happened>)
    requires
        s.stage is MakingDecoder,
        s.channels.len() > 0,
        in_order(s, events),
        whole_rounds(events, s.channels.len()),
    ensures
        after(s, events).stage !is Finished ==> after(s, events).channels == dealt(
            s.channels,
            held(events),
        ),
        held(events).len() as int % s.channels.len() as int == 0,
    decreases events.len(),
{
    let n = s.channels.len();
    if events.len() == 0 {
        let none = Seq::<Single>::empty();
        vstd::arithmetic::div_mod::lemma_small_mod(0, n);
        assert forall|c: int| 0 <= c < n implies s.channels[c] =~= dealt(s.channels, none)[c] by {
            audio::law_whole_rounds_fill_evenly(none, n, c);
        }
        assert(dealt(s.channels, none) =~= s.channels);
    } else {
        let before = events.drop_last();
        let so_far = held(before);
        assert forall|k: int| 0 <= k < before.len() implies (
        #[trigger] before[k] matches Happened::FrameDecoded(Ok(samples)) ==> samples.len() as int
            % n as int == 0) by {
            assert(before[k] == events[k]);
        }
        lemma_run_joins_frames(s, before);
        lemma_run_keeps_the_track(s, before);
        assert(events[events.len() - 1] == events.last());
        match events.last() {
            Happened::FrameDecoded(Ok(samples)) => {
                assert forall|c: int| 0 <= c < n implies dealt(
                    dealt(s.channels, so_far),
                    samples,
                )[c] =~= dealt(s.channels, so_far + samples)[c] by {
                    audio::law_streams_join(so_far, samples, n, c);
                }
                assert(dealt(dealt(s.channels, so_far), samples) =~= dealt(
                    s.channels,
                    so_far + samples,
                ));
                vstd::arithmetic::div_mod::lemma_mod_adds(
                    so_far.len() as int,
                    samples.len() as int,
                    n as int,
                );
            },
            _ => {},
        }
    }
}

/// A decoding succeeds only at a packet where the input ends or would have to
/// start over, and always there.
pub proof fn law_success_comes_at_the_end(s: Progress, event: Happened)
    requires
        accepts(s, event),
    ensures
        next(s, event).1 matches Asked::Finish(Ok(_)) <==> (event matches Happened::PacketRead(Err(
            error,
        )) && (error is EndOfFile || error is ResetRequired)),
{
}

/// From the tracks to the result: whatever happens in between, the audio has the
/// sample rate of the first track that has a codec, and as many channels as it.
pub proof fn law_audio_has_the_rate_and_channels_of_its_track(
    start: Progress,
    tracks: Seq<Track>,
    events: Seq<Happened>,
    last: Happened,
    audio: Audio,
)
    requires
        ({
            let s = next(start, Happened::Probed(Ok(tracks))).0;
            &&& in_order(s, events)
            &&& accepts(after(s, events), last)
            &&& next(after(s, events), last).1 == Asked::Finish(Ok::<Audio, Failure>(audio))
        }),
    ensures
        exists|i: int|
            #[trigger] comes_first(tracks, i) && (tracks[i].sample_rate matches Some(rate)
                && audio.sample_rate == (Value::Finite {
                negative: false,
                magnitude: rate as nat * power2::pow2(1074),
            })) && (tracks[i].channels matches Some(n) && audio.channels.len() == n),
{
    let s = next(start, Happened::Probed(Ok(tracks))).0;
    let i = first_decodable(tracks);
    law_first_decodable_track_is_taken(start, tracks);
    if s.stage is Finished {
        lemma_finished_stays(s, events);
    } else {
        assert(comes_first(tracks, i));
        lemma_run_keeps_the_track(s, events);
        power2::lemma2_to64();
        power2::lemma2_to64_rest();
        laws::law_whole_is_exact(Format::Double, tracks[i].sample_rate->0 as nat);
    }
}

proof fn lemma_finished_stays(s: Progress, events: Seq<Happened>)
    requires
        s.stage is Finished,
        in_order(s, events),
    ensures
        after(s, events) == s,
    decreases events.len(),
{
    if events.len() > 0 {
        lemma_finished_stays(s, events.drop_last());
    }
}

/// From the tracks to the result: the audio holds every sample of every decoded
/// frame and no other, each in its channel and in its order.
pub proof fn law_audio_holds_every_frame(
    start: Progress,
    tracks: Seq<Track>,
    i: int,
    n: usize,
    events: Seq<Happened>,
    last: Happened,
    audio: Audio,
)
    requires
        comes_first(tracks, i),
        tracks[i].channels == Some(n),
        n > 0,
        whole_rounds(events, n as nat),
        ({
            let s = next(start, Happened::Probed(Ok(tracks))).0;
            &&& in_order(s, events)
            &&& accepts(after(s, events), last)
            &&& next(after(s, events), last).1 == Asked::Finish(Ok::<Audio, Failure>(audio))
        }),
    ensures
        audio.channels.len() == n,
        held(events).len() as int % n as int == 0,
        forall|c: int|
            0 <= c < n ==> (#[trigger] audio.channels[c]).len() == held(events).len() as int
                / n as int,
        forall|c: int, j: int|
            0 <= c < n && 0 <= j < held(events).len() as int / n as int ==> (
            #[trigger] audio.channels[c][j]) == held(events)[j * n + c],
{
    let s = next(start, Happened::Probed(Ok(tracks))).0;
    let samples = held(events);
    lemma_comes_first(tracks, i);
    if s.stage is Finished {
        lemma_finished_stays(s, events);
    } else {
        assert(s.channels.len() == n);
        lemma_run_joins_frames(s, events);
        lemma_run_keeps_the_track(s, events);
        assert forall|c: int| 0 <= c < n implies (#[trigger] audio.channels[c]) == audio::lane(
            samples,
            n as nat,
            c,
        ) by {
            assert(Seq::<Single>::empty() + audio::lane(samples, n as nat, c) =~= audio::lane(
                samples,
                n as nat,
                c,
            ));
        }
        assert forall|c: int| 0 <= c < n implies (#[trigger] audio.channels[c]).len()
            == samples.len() as int / n as int by {
            audio::law_whole_rounds_fill_evenly(samples, n as nat, c);
        }
        assert forall|c: int, j: int|
            0 <= c < n && 0 <= j < samples.len() as int / n as int implies (
        #[trigger] audio.channels[c][j]) == samples[j * n + c] by {
            assert(audio.channels[c] == audio::lane(samples, n as nat, c));
            audio::law_whole_rounds_fill_evenly(samples, n as nat, c);
        }
    }
}

/// At every point of a run, the packets that are decoded are those of the first
/// track that has a codec; the others change nothing.
pub proof fn law_only_packets_of_the_track_are_decoded(
    start: Progress,
    tracks: Seq<Track>,
    i: int,
    events: Seq<Happened>,
    id: u32,
)
    requires
        comes_first(tracks, i),
        in_order(next(start, Happened::Probed(Ok(tracks))).0, events),
        after(next(start, Happened::Probed(Ok(tracks))).0, events).stage is Reading,
    ensures
        ({
            let s = after(next(start, Happened::Probed(Ok(tracks))).0, events);
            let (t, asked) = next(s, Happened::PacketRead(Ok(id)));
            &&& id == tracks[i].id ==> asked is DecodePacket && t.stage is Decoding && t.channels
                == s.channels
            &&& id != tracks[i].id ==> asked is ReadPacket && t == s
        }),
{
    let s = next(start, Happened::Probed(Ok(tracks))).0;
    lemma_comes_first(tracks, i);
    if s.stage is Finished {
        lemma_finished_stays(s, events);
    } else {
        lemma_run_keeps_the_track(s, events);
    }
}

/// What the tracks have to say for one to be decoded: one has a codec, and the
/// first such one states its sample rate and its channels.
pub proof fn law_track_has_to_say_enough(s: Progress, tracks: Seq<Track>, i: int)
    ensures
        (forall|k: int| 0 <= k < tracks.len() ==> !(#[trigger] tracks[k]).decodable) ==> next(
            s,
            Happened::Probed(Ok(tracks)),
        ).1 == Asked::Finish(Err(Failure::UnsupportedFormat("no decodable audio track"@))),
        comes_first(tracks, i) ==> {
            let asked = next(s, Happened::Probed(Ok(tracks))).1;
            &&& tracks[i].sample_rate is None ==> asked == Asked::Finish(
                Err(Failure::Corrupt("track has no sample rate"@)),
            )
            &&& tracks[i].sample_rate is Some && tracks[i].channels is None ==> asked
                == Asked::Finish(Err(Failure::Corrupt("track has no channel layout"@)))
            &&& tracks[i].sample_rate is Some && tracks[i].channels is Some ==> asked
                == Asked::MakeDecoder { track: i }
        },
{
    law_first_decodable_track_is_taken(s, tracks);
    if comes_first(tracks, i) {
        lemma_comes_first(tracks, i);
    }
}

/// A step that succeeds leads to the next one, and keeps what was decoded.
pub proof fn law_steps_lead_on(s: Progress)
    ensures
        next(s, Happened::Opened(Ok(()))).1 is Probe,
        next(s, Happened::DecoderMade(Ok(()))).1 is ReadPacket,
        next(s, Happened::DecoderMade(Ok(()))).0.channels == s.channels,
        forall|samples: Seq<Single>|
            (#[trigger] next(s, Happened::FrameDecoded(Ok(samples)))).1 is ReadPacket,
{
}

/// The errors that tell neither of an unreadable file, nor of malformed data, nor
/// of an unsupported encoding: before the first packet the format counts as
/// unsupported, after that the data as corrupt. Where a packet is read, an end or
/// a reset is no error.
pub proof fn law_other_errors_go_by_the_step(s: Progress, error: StreamFailure, text: Seq<char>)
    requires
        error == StreamFailure::EndOfFile(text) || error == StreamFailure::Seek(text) || error
            == StreamFailure::Limit(text) || error == StreamFailure::ResetRequired(text),
    ensures
        ({
            let unsupported = Asked::Finish(Err(Failure::UnsupportedFormat(text)));
            let corrupt = Asked::Finish(Err(Failure::Corrupt(text)));
            &&& next(s, Happened::Probed(Err(error))).1 == unsupported
            &&& next(s, Happened::DecoderMade(Err(error))).1 == unsupported
            &&& next(s, Happened::FrameDecoded(Err(error))).1 == corrupt
            &&& error is Seek || error is Limit ==> next(s, Happened::PacketRead(Err(error))).1
                == corrupt
        }),
{
}

/// A frame of any length: sample `k` goes behind what its channel held, and
/// nothing else changes.
pub proof fn law_frame_goes_behind(s: Progress, samples: Seq<Single>, k: int)
    requires
        s.channels.len() > 0,
        0 <= k < samples.len(),
    ensures
        ({
            let n = s.channels.len() as int;
            let t = next(s, Happened::FrameDecoded(Ok(samples))).0;
            let c = k % n;
            let j = s.channels[c].len() + k / n;
            &&& t.channels.len() == n
            &&& j < t.channels[c].len()
            &&& t.channels[c][j] == samples[k]
            &&& t.track_id == s.track_id
            &&& t.sample_rate == s.sample_rate
        }),
        forall|c: int|
            #![trigger s.channels[c]]
            0 <= c < s.channels.len() ==> {
                let after = next(s, Happened::FrameDecoded(Ok(samples))).0.channels[c];
                let before = s.channels[c];
                let more = after.len() - before.len();
                &&& after.take(before.len() as int) == before
                &&& more * s.channels.len() + c >= samples.len()
                &&& more > 0 ==> (more - 1) * s.channels.len() + c < samples.len()
            },
{
    let n = s.channels.len();
    audio::law_sample_has_its_place(samples, n, k);
    assert forall|c: int|
        #![trigger s.channels[c]]
        0 <= c < n implies {
        let after = next(s, Happened::FrameDecoded(Ok(samples))).0.channels[c];
        let before = s.channels[c];
        let more = after.len() - before.len();
        &&& after.take(before.len() as int) == before
        &&& more * n + c >= samples.len()
        &&& more > 0 ==> (more - 1) * n + c < samples.len()
    } by {
        let after = next(s, Happened::FrameDecoded(Ok(samples))).0.channels[c];
        assert(after.take(s.channels[c].len() as int) =~= s.channels[c]);
        let more = after.len() - s.channels[c].len();
        audio::law_channel_takes_its_turn(samples, n, c, more - 1);
    }
}

/// An I/O error tells of the end of the input where it is of that kind, and is
/// itself otherwise.
pub proof fn law_io_error_goes_by_its_kind(e: std::io::Error, text: Seq<char>)
    ensures
        io_failure(e, text, IoErrorKind::UnexpectedEof) == StreamFailure::EndOfFile(text),
        io_failure(e, text, IoErrorKind::Other) == StreamFailure::Io(e),
{
}

/// An error says what it holds.
pub proof fn law_stream_error_says_what_it_holds(error: StreamError)
    ensures
        match error {
            StreamError::EndOfFile(text) => error@ == StreamFailure::EndOfFile(text@),
            StreamError::Io(e) => error@ == StreamFailure::Io(e),
            StreamError::Decode(text) => error@ == StreamFailure::Decode(text@),
            StreamError::Seek(text) => error@ == StreamFailure::Seek(text@),
            StreamError::Unsupported(text) => error@ == StreamFailure::Unsupported(text@),
            StreamError::Limit(text) => error@ == StreamFailure::Limit(text@),
            StreamError::ResetRequired(text) => error@ == StreamFailure::ResetRequired(text@),
        },
{
}

/// An event says all that it holds.
pub proof fn law_event_says_what_it_holds(event: Event)
    ensures
        match event {
            Event::Opened(r) => event@ == Happened::Opened(r),
            Event::Probed(Ok(tracks)) => event@ == Happened::Probed(
                Ok::<Seq<Track>, StreamFailure>(tracks@),
            ),
            Event::Probed(Err(e)) => event@ == Happened::Probed(
                Err::<Seq<Track>, StreamFailure>(e@),
            ),
            Event::DecoderMade(Ok(x)) => event@ == Happened::DecoderMade(
                Ok::<(), StreamFailure>(x),
            ),
            Event::DecoderMade(Err(e)) => event@ == Happened::DecoderMade(
                Err::<(), StreamFailure>(e@),
            ),
            Event::PacketRead(Ok(id)) => event@ == Happened::PacketRead(
                Ok::<u32, StreamFailure>(id),
            ),
            Event::PacketRead(Err(e)) => event@ == Happened::PacketRead(
                Err::<u32, StreamFailure>(e@),
            ),
            Event::FrameDecoded(Ok(samples)) => event@ == Happened::FrameDecoded(
                Ok::<Seq<Single>, StreamFailure>(samples@),
            ),
            Event::FrameDecoded(Err(e)) => event@ == Happened::FrameDecoded(
                Err::<Seq<Single>, StreamFailure>(e@),
            ),
        },
{
}

/// An action says all that it holds.
pub proof fn law_action_says_what_it_holds(action: Action)
    ensures
        match action {
            Action::Probe => action@ is Probe,
            Action::MakeDecoder { track } => action@ == (Asked::MakeDecoder { track: track as int }),
            Action::ReadPacket => action@ is ReadPacket,
            Action::DecodePacket => action@ is DecodePacket,
            Action::Finish(Ok(audio)) => action@ == Asked::Finish(Ok::<Audio, Failure>(audio@)),
            Action::Finish(Err(e)) => action@ == Asked::Finish(Err::<Audio, Failure>(e@)),
        },
{
}

} // verus!
