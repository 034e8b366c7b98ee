//! Why a file could not be decoded.
use crate::hound_reader;
use crate::hound_reader::WavError;
use vstd::prelude::*;
use vstd::string::StringExecFns;

verus! {

/// Why a file could not be decoded.
#[derive(Debug)]
pub enum DecodeError {
    /// The file cannot be opened or read.
    Io(std::io::Error),
    /// The encoding is not recognized or not supported.
    UnsupportedFormat(String),
    /// The data is malformed.
    Corrupt(String),
}

/// What a [`DecodeError`] says.
pub enum Failure {
    Io(std::io::Error),
    UnsupportedFormat(Seq<char>),
    Corrupt(Seq<char>),
}

impl View for DecodeError {
    type V = Failure;

    open spec fn view(&self) -> Failure {
        match *self {
            DecodeError::Io(e) => Failure::Io(e),
            DecodeError::UnsupportedFormat(text) => Failure::UnsupportedFormat(text@),
            DecodeError::Corrupt(text) => Failure::Corrupt(text@),
        }
    }
}

/// The sentence for a failure, where `cause` is what the I/O error displays if it
/// is one.
pub open spec fn description(failure: Failure, cause: Seq<char>) -> Seq<char> {
    match failure {
        Failure::Io(_) => "failed to read audio file: "@ + cause,
        Failure::UnsupportedFormat(what) => "unsupported audio format: "@ + what,
        Failure::Corrupt(what) => "corrupt or malformed audio data: "@ + what,
    }
}

/// The failure that an error of the WAV reader stands for.
pub open spec fn wav_failure(e: WavError) -> Failure {
    match e {
        WavError::Io(io) => Failure::Io(io),
        WavError::Format(reason) => Failure::Corrupt(reason@),
        WavError::Unsupported => Failure::UnsupportedFormat("unsupported WAV encoding"@),
        WavError::TooWide => Failure::Corrupt(
            "The sample has more bits than the destination type."@,
        ),
        WavError::UnfinishedSample => Failure::Corrupt(
            "The number of samples written is not a multiple of the number of channels."@,
        ),
        WavError::InvalidSampleFormat => Failure::Corrupt(
            "The sample format differs from the destination format."@,
        ),
    }
}

impl From<hound::Error> for DecodeError {
    fn from(e: hound::Error) -> (r: DecodeError)
        ensures
            r@ == wav_failure(hound_reader::wav_error_variant(e)),
    {
        let text = hound_reader::wav_error_text(&e);
        DecodeError::from_wav(hound_reader::wav_error(e), text)
    }
}

impl vstd::std_specs::convert::FromSpecImpl<hound::Error> for DecodeError {
    open spec fn obeys_from_spec() -> bool {
        false
    }

    open spec fn from_spec(e: hound::Error) -> DecodeError {
        arbitrary()
    }
}

impl From<std::io::Error> for DecodeError {
    fn from(e: std::io::Error) -> (r: DecodeError)
        ensures
            r == DecodeError::Io(e),
    {
        DecodeError::Io(e)
    }
}

impl vstd::std_specs::convert::FromSpecImpl<std::io::Error> for DecodeError {
    open spec fn obeys_from_spec() -> bool {
        true
    }

    open spec fn from_spec(e: std::io::Error) -> DecodeError {
        DecodeError::Io(e)
    }
}

impl DecodeError {
    /// The error for what the WAV reader reported, where `text` is what its
    /// error displays.
    pub fn from_wav(e: WavError, text: String) -> (r: DecodeError)
        ensures
            r@ == match e {
                WavError::Io(io) => Failure::Io(io),
                WavError::Format(reason) => Failure::Corrupt(reason@),
                WavError::Unsupported => Failure::UnsupportedFormat("unsupported WAV encoding"@),
                _ => Failure::Corrupt(text@),
            },
    {
        match e {
            WavError::Io(io) => DecodeError::Io(io),
            WavError::Format(reason) => DecodeError::Corrupt(reason.to_string()),
            WavError::Unsupported => DecodeError::UnsupportedFormat(
                "unsupported WAV encoding".to_string(),
            ),
            WavError::TooWide | WavError::UnfinishedSample | WavError::InvalidSampleFormat => {
                DecodeError::Corrupt(text)
            },
        }
    }

    /// The error as a sentence. That of an I/O error ends with its own text,
    /// which the operating system words.
    pub fn to_string(&self) -> (text: String)
        ensures
            exists|cause: Seq<char>| text@ == #[trigger] description(self@, cause),
    {
        match self {
            DecodeError::Io(e) => {
                let cause = io_error_text(e);
                self.describe(cause.as_str())
            },
            _ => self.describe(""),
        }
    }

    /// The error as a sentence, where `cause` is what the I/O error displays if
    /// it is one.
    pub fn describe(&self, cause: &str) -> (text: String)
        ensures
            text@ == description(self@, cause@),
    {
        match self {
            DecodeError::Io(_) => "failed to read audio file: ".to_string().concat(cause),
            DecodeError::UnsupportedFormat(what) => {
                "unsupported audio format: ".to_string().concat(what.as_str())
            },
            DecodeError::Corrupt(what) => {
                "corrupt or malformed audio data: ".to_string().concat(what.as_str())
            },
        }
    }
}

/// The text that the `Display` impl of `std::io::Error` writes. The operating
/// system words it, so nothing is said of it.
#[verifier::external_body]
fn io_error_text(e: &std::io::Error) -> (text: String) {
    e.to_string()
}

/// The kinds of I/O errors that are told apart.
#[derive(Clone, Copy, Debug, PartialEq, Eq, Structural)]
pub enum IoErrorKind {
    /// The input ended too early.
    UnexpectedEof,
    /// Any other kind.
    Other,
}

/// The kind of an I/O error.
pub uninterp spec fn io_error_kind(e: std::io::Error) -> IoErrorKind;

/// Tells the kinds of errors apart with `std::io::Error::kind`: `UnexpectedEof` is
/// itself, every other kind is `Other`. The kind belongs to the error and does not
/// change; which errors are of which kind is left open.
#[verifier::external_body]
pub(crate) fn kind_of(e: &std::io::Error) -> (kind: IoErrorKind)
    ensures
        kind == io_error_kind(*e),
{
    match e.kind() {
        std::io::ErrorKind::UnexpectedEof => IoErrorKind::UnexpectedEof,
        _ => IoErrorKind::Other,
    }
}

/// An error says what it holds.
pub proof fn law_error_says_what_it_holds(error: DecodeError)
    ensures
        match error {
            DecodeError::Io(e) => error@ == Failure::Io(e),
            DecodeError::UnsupportedFormat(text) => error@ == Failure::UnsupportedFormat(text@),
            DecodeError::Corrupt(text) => error@ == Failure::Corrupt(text@),
        },
{
}

/// Every error of the WAV reader has its failure: an I/O error is kept, what is
/// unsupported is an unsupported format, and everything else is corrupt, with what
/// the reader says of it.
pub proof fn law_wav_errors_become_failures(io: std::io::Error, reason: &'static str)
    ensures
        wav_failure(WavError::Io(io)) == Failure::Io(io),
        wav_failure(WavError::Format(reason)) == Failure::Corrupt(reason@),
        wav_failure(WavError::Unsupported) == Failure::UnsupportedFormat(
            "unsupported WAV encoding"@,
        ),
        forall|e: WavError, text: Seq<char>|
            e is TooWide || e is UnfinishedSample || e is InvalidSampleFormat ==> (
            #[trigger] hound_reader::displays(e, text) <==> wav_failure(e) == Failure::Corrupt(
                text,
            )),
{
}

/// The sentence for a failure ends with its own text, whole, behind what kind of
/// failure it is.
pub proof fn law_sentence_ends_with_the_text(failure: Failure, cause: Seq<char>)
    ensures
        ({
            let sentence = description(failure, cause);
            let (start, text) = match failure {
                Failure::Io(_) => ("failed to read audio file: "@, cause),
                Failure::UnsupportedFormat(what) => ("unsupported audio format: "@, what),
                Failure::Corrupt(what) => ("corrupt or malformed audio data: "@, what),
            };
            &&& sentence.len() == start.len() + text.len()
            &&& sentence.take(start.len() as int) == start
            &&& sentence.skip(start.len() as int) == text
        }),
{
    let sentence = description(failure, cause);
    let (start, text) = match failure {
        Failure::Io(_) => ("failed to read audio file: "@, cause),
        Failure::UnsupportedFormat(what) => ("unsupported audio format: "@, what),
        Failure::Corrupt(what) => ("corrupt or malformed audio data: "@, what),
    };
    assert(sentence.take(start.len() as int) =~= start);
    assert(sentence.skip(start.len() as int) =~= text);
}

} // verus!
