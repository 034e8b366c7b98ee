//! [`decode_file`] and [`resample()`] decode and resample audio files.
//!
//! The library computes on what it is handed: the bytes of a file, not the file.
//! Samples and sample rates are floating-point numbers, held as their bit
//! patterns ([`Single`] and [`Double`]).
//!
//! Neither function is real-time safe: both allocate.
pub mod audio;
pub mod decode;
pub mod error;
pub mod float;
pub mod hound_reader;
pub mod resample;
pub mod stream;
pub mod wav;

pub use audio::DecodedAudio;
pub use decode::decode_file;
pub use error::DecodeError;
pub use float::{Double, Single};
pub use resample::resample;
