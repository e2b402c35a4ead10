# audio-stack-rs

The signal path of an audio player as a verified library, with the plumbing of
a player around it.

- `src/` is the library. Its behaviour is stated in contracts and proved by
  Verus: the effect chain and its playhead timeline, partitioned convolution,
  the linear-phase equaliser, impulse-response convolution, time stretch, pitch
  shift, tempo and key analysis, and what a file's tags and name say about it.
- `app/` runs it: single precision with `realfft`, `rubato` and `timestretch`,
  files read with `lofty`, the events and the engine handle.
- `tests/` exercises both number systems.

## Numbers

The library is written over a number system (`numeric::Numeric` and the traits
that build on it). `numeric::Fixed` is an integer system in which everything
can be proved and run: its circle, powers, logarithms and tones are reckoned bit
by bit, to within their rounding, and its stretching engine plays grains. It is
slow. A host with floating point brings its own; `app/system.rs` is one. Time
ratios, tempos, mixes and cents are integers with thirty-two bits behind the
point, and source time is counted in ticks of a frame's 2^32nd part, so that no
position is ever rounded.

## What is trusted

Sharing an `Arc`, appending a character to a `String`, the parts of a path, and
base64 encoding are taken from their documentation.
Each stands in one small function whose doc comment says what is claimed.
