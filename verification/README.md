# audio_compressor

The verified core of an audio compressor, in Verus, and the two command-line programs
around it.

- `src/` is the library. Every function carries a contract, and Verus proves all of them.
  - `bits`, `le`: how numbers read as bits and as little-endian bytes.
  - `rice`, `code`: the Rice parameter and the Golomb-Rice code as mathematics, with the
    law that decoding undoes encoding.
  - `entropy`, `reader`: the bit writer, the frame encoder, the bit reader and the decoder.
  - `ingest`: the RIFF/WAVE chunk walk, typed samples, framing.
  - `lpc`: exact integer autocorrelation, plain and in lanes.
  - `sarcophagus`, `decompress`: the archive and WAV byte formats, and the step from
    residuals back to samples.
  - `stream`: the decoder's frame loop, with the law that a stream of several frames comes
    back bit for bit.
  - `pipeline`: decisions of the compressor's main loop.
- `tests/` runs the library on concrete values.
- `app/` is ordinary Rust: file mapping, printing, and the floating-point part of linear
  prediction.

The lossless laws are about residuals `sample - predict(..)` of a predictor that gives whole
numbers. The programs differ from that by a rounding: the compressor codes the rounded
difference of a sample and a floating-point prediction, the decompressor adds the rounded
prediction. At a tie the two do not cancel. For the sample 1 and the prediction 0.5 the
difference 0.5 rounds to 1, the prediction rounds to 1, and 2 comes back.

The 26-byte archive header that `sarcophagus` lays out and the 36-byte header that
`decompress` reads share their tag, their version and the place of the sample rate, and no
more.

Floating-point numbers never enter the library. Float samples are held as their bit
patterns, residuals as rounded integers, durations as fractions, and the Rice parameter is
found by comparing exact squares.
