//! Decoding an audio file. WAV is always on; other formats need the `symphonia`
//! decoders.
use crate::audio::DecodedAudio;
use crate::error::{DecodeError, Failure};
use crate::wav;
use vstd::prelude::*;
use vstd::string::{StrSliceExecFns, StringExecFns};

verus! {

/// What decodes a file.
#[derive(Clone, Copy, Debug, PartialEq, Eq, Structural)]
pub enum Decoder {
    /// The WAV decoder.
    Wav,
    /// The decoders for the other formats.
    Symphonia,
    /// Nothing: the other formats are off.
    Unrecognized,
}

/// `c` with the case of an ASCII letter taken away.
pub open spec fn ascii_lowercase(c: char) -> char {
    if 'A' <= c && c <= 'Z' {
        (c as u8 + 32) as char
    } else {
        c
    }
}

/// The texts differ in nothing but the case of ASCII letters.
pub open spec fn equal_ignoring_case(a: Seq<char>, b: Seq<char>) -> bool {
    &&& a.len() == b.len()
    &&& forall|i: int| 0 <= i < a.len() ==> ascii_lowercase(a[i]) == ascii_lowercase(#[trigger] b[i])
}

/// The text is `wav` in capital or small letters.
pub open spec fn spells_wav(text: Seq<char>) -> bool {
    &&& text.len() == 3
    &&& text[0] == 'w' || text[0] == 'W'
    &&& text[1] == 'a' || text[1] == 'A'
    &&& text[2] == 'v' || text[2] == 'V'
}

/// What decodes a file with the given extension, where `symphonia` says whether
/// the decoders for other formats than WAV are on.
pub open spec fn decoder_for(extension: Option<&str>, symphonia: bool) -> Decoder {
    if extension is Some && equal_ignoring_case(extension->0@, "wav"@) {
        Decoder::Wav
    } else if symphonia {
        Decoder::Symphonia
    } else {
        Decoder::Unrecognized
    }
}

fn lowercase(c: char) -> (r: char)
    ensures
        r == ascii_lowercase(c),
{
    if 'A' <= c && c <= 'Z' {
        (c as u8 + 32) as char
    } else {
        c
    }
}

fn same_ignoring_case(a: &str, b: &str) -> (r: bool)
    ensures
        r == equal_ignoring_case(a@, b@),
{
    let len = a.unicode_len();
    if len != b.unicode_len() {
        return false;
    }
    for i in 0..len
        invariant
            len == a@.len() == b@.len(),
            forall|k: int|
                0 <= k < i ==> ascii_lowercase(a@[k]) == ascii_lowercase(#[trigger] b@[k]),
    {
        if lowercase(a.get_char(i)) != lowercase(b.get_char(i)) {
            return false;
        }
    }
    true
}

/// What decodes a file with the given extension, where `symphonia` says whether
/// the decoders for other formats than WAV are on.
pub fn choose_decoder(extension: Option<&str>, symphonia: bool) -> (r: Decoder)
    ensures
        r == decoder_for(extension, symphonia),
        r is Wav <==> extension is Some && spells_wav(extension->0@),
        r is Symphonia <==> symphonia && !(extension is Some && spells_wav(extension->0@)),
{
    proof {
        law_every_file_has_its_decoder(extension, symphonia);
    }
    let is_wav = match extension {
        Some(e) => same_ignoring_case(e, "wav"),
        None => false,
    };
    if is_wav {
        Decoder::Wav
    } else if symphonia {
        Decoder::Symphonia
    } else {
        Decoder::Unrecognized
    }
}

/// The refusal of a file that only the other decoders could take.
pub open spec fn unrecognized(path: Seq<char>) -> Failure {
    Failure::UnsupportedFormat(
        "unrecognized extension for "@ + path
            + " - enable the `symphonia` feature for non-WAV formats"@,
    )
}

/// Decodes an audio file, with the WAV decoder alone.
///
/// `path` is the path as shown to a user, `extension` what follows the last dot
/// of its file name, and `contents` what reading the file gave. Only a WAV file
/// has its contents looked at.
pub fn decode_file(
    path: &str,
    extension: Option<&str>,
    contents: Result<Vec<u8>, std::io::Error>,
) -> (r: Result<DecodedAudio, DecodeError>)
    ensures
        match (decoder_for(extension, false), contents) {
            (Decoder::Wav, Err(e)) => r matches Err(failed) && failed@ == Failure::Io(e),
            (Decoder::Wav, Ok(bytes)) => match wav::wav_outcome(bytes@) {
                Ok((spec, raw)) => r matches Ok(audio) && wav::is_audio(spec, raw, audio@),
                Err(failure) => r matches Err(failed) && failed@ == failure,
            },
            _ => r matches Err(failed) && failed@ == unrecognized(path@),
        },
        r matches Ok(audio) ==> wav::is_even(audio@),
        r is Ok ==> extension is Some && spells_wav(extension->0@) && contents is Ok,
        r matches Ok(audio) ==> wav::holds_every_sample(contents->Ok_0@, audio@),
        extension is Some && spells_wav(extension->0@) && contents is Err ==> r == Err::<
            DecodedAudio,
            DecodeError,
        >(DecodeError::Io(contents->Err_0)),
        !(extension is Some && spells_wav(extension->0@)) ==> r is Err
            && r->Err_0 is UnsupportedFormat,
{
    proof {
        law_every_file_has_its_decoder(extension, false);
    }
    match choose_decoder(extension, false) {
        Decoder::Wav => match contents {
            Ok(bytes) => wav::decode_wav(bytes.as_slice()),
            Err(e) => Err(DecodeError::from(e)),
        },
        _ => Err(
            DecodeError::UnsupportedFormat(
                "unrecognized extension for ".to_string().concat(path).concat(
                    " - enable the `symphonia` feature for non-WAV formats",
                ),
            ),
        ),
    }
}

/// A file is decoded as WAV exactly where its extension is `wav` in capital or
/// small letters. Every other file goes to the other decoders where they are on,
/// and only where they are off is it unrecognized.
pub proof fn law_every_file_has_its_decoder(extension: Option<&str>, symphonia: bool)
    ensures
        decoder_for(extension, symphonia) is Wav <==> extension is Some && {
            let text = extension->0@;
            &&& text.len() == 3
            &&& text[0] == 'w' || text[0] == 'W'
            &&& text[1] == 'a' || text[1] == 'A'
            &&& text[2] == 'v' || text[2] == 'V'
        },
        decoder_for(extension, symphonia) is Wav <==> extension is Some && spells_wav(
            extension->0@,
        ),
        symphonia ==> decoder_for(extension, symphonia) !is Unrecognized,
        !symphonia ==> decoder_for(extension, symphonia) !is Symphonia,
{
    reveal_strlit("wav");
    let wav = "wav"@;
    assert(wav.len() == 3 && wav[0] == 'w' && wav[1] == 'a' && wav[2] == 'v');
    if extension is Some {
        let text = extension->0@;
        lemma_lowercase_is(text[0], 'w');
        lemma_lowercase_is(text[1], 'a');
        lemma_lowercase_is(text[2], 'v');
        if equal_ignoring_case(text, wav) {
            assert(ascii_lowercase(text[0]) == ascii_lowercase(wav[0]));
            assert(ascii_lowercase(text[1]) == ascii_lowercase(wav[1]));
            assert(ascii_lowercase(text[2]) == ascii_lowercase(wav[2]));
        }
    }
}

proof fn lemma_lowercase_is(c: char, small: char)
    requires
        'a' <= small <= 'z',
    ensures
        ascii_lowercase(small) == small,
        ascii_lowercase(c) == small <==> c == small || c as u32 + 32 == small as u32,
{
    if 'A' <= c && c <= 'Z' {
        assert((c as u8 + 32) as char as u32 == c as u32 + 32);
    }
}

/// The refusal of a file names its path, whole and in its place.
pub proof fn law_refusal_names_the_path(path: Seq<char>)
    ensures
        unrecognized(path) matches Failure::UnsupportedFormat(text) && {
            let start = "unrecognized extension for "@;
            let end = " - enable the `symphonia` feature for non-WAV formats"@;
            &&& text.len() == start.len() + path.len() + end.len()
            &&& text.take(start.len() as int) == start
            &&& text.subrange(start.len() as int, (start.len() + path.len()) as int) == path
            &&& text.skip((start.len() + path.len()) as int) == end
        },
{
    let start = "unrecognized extension for "@;
    let end = " - enable the `symphonia` feature for non-WAV formats"@;
    let text = start + path + end;
    assert(text.take(start.len() as int) =~= start);
    assert(text.subrange(start.len() as int, (start.len() + path.len()) as int) =~= path);
    assert(text.skip((start.len() + path.len()) as int) =~= end);
}

/// The case of an extension's letters does not matter to what decodes the file.
pub proof fn law_extension_case_is_ignored(a: &str, b: &str, symphonia: bool)
    requires
        equal_ignoring_case(a@, b@),
    ensures
        decoder_for(Some(a), symphonia) == decoder_for(Some(b), symphonia),
{
    let wav = "wav"@;
    if equal_ignoring_case(a@, wav) {
        assert forall|i: int| 0 <= i < b@.len() implies ascii_lowercase(b@[i]) == ascii_lowercase(
            #[trigger] wav[i],
        ) by {
            assert(ascii_lowercase(a@[i]) == ascii_lowercase(b@[i]));
        }
    }
    if equal_ignoring_case(b@, wav) {
        assert forall|i: int| 0 <= i < a@.len() implies ascii_lowercase(a@[i]) == ascii_lowercase(
            #[trigger] wav[i],
        ) by {
            assert(ascii_lowercase(a@[i]) == ascii_lowercase(b@[i]));
        }
    }
}

} // verus!
