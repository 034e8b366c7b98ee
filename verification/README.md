# truce_sample_loader

Decodes audio files into one buffer per channel and resamples them by linear
interpolation. The library in `src/` is proved in Verus.

- `src/` is the library. It computes on what it is handed: the bytes of a WAV
  file, or what the `symphonia` decoders gave for another format. `decode`
  decides what decodes a file, `wav` decodes WAV files with the reader of the
  `hound` crate, `stream` decides how a file is decoded packet by packet,
  `resample` resamples, and `error` says why a file could not be decoded.
- Samples and sample rates are floating-point numbers held as their bit patterns.
  `float::model` says what arithmetic on them gives, and `float` computes it,
  rounded to nearest with ties to even.
- What is taken on trust about `hound` stands in `hound_reader`; `Arc::from` in
  `audio` and the text and kind of an I/O error in `error` are the other trusted
  calls.
- Functions whose names start with `law_` state what holds of the library as a
  whole.
- `app/` reads files, runs the `symphonia` decoders and offers the library with
  the processor's floating-point types.

Neither decoding nor resampling is real-time safe: both allocate.
