# mpeg2toh264

A verified library that converts MPEG-1 and MPEG-2 video to H.264 without fully
decoding it, and the containers around it.

The source's macroblock types, motion vectors and reference relationships are reused:
each picture is planned from its headers, each macroblock's prediction is mapped into
H.264's, and the slices, parameter sets and access units are written around the
requantised coefficients. Every function of the library carries a contract that Verus
proves.

## Layout

- `src/bits.rs`, `src/bitreader.rs`: bit strings as mathematical values, and reading them.
- `src/mpeg2/`: headers, macroblock syntax and variable length codes of MPEG-1 and MPEG-2.
  `standalone.rs`, `reparse.rs` and `carried.rs` show that a picture cut out of its stream
  still says what it said there, `pattern.rs` what a decoded macroblock holds.
- `src/h264/`: bit writing, NAL units, parameter sets, slice headers, motion mapping,
  motion and intra prediction, and what a decoder adds to it. `reading.rs`,
  `header_reading.rs` and `set_reading.rs` state what a decoder reads back.
- `src/container/mpegts/`: taking transport streams apart. `streaming.rs`, `sound.rs` and
  `ending.rs` state what holds however a stream is cut, whatever it says, and at its end.
- `src/container/fmp4/`: timelines, sample timing and fragmented MP4 boxes. `samples.rs`
  states how samples lie in a unit's bytes.
- `src/job.rs`: what a conversion carries along, and what a picture is coded against.
- `src/transcode/`: units.
  - `plan.rs` decides what a unit becomes, `incremental.rs` runs a stream unit by unit;
  - `encoder.rs` reads and decodes one picture, `macroblocks.rs`, `motion.rs`,
    `predict.rs`, `residual.rs`, `vectors.rs` and `steps.rs` plan its macroblocks,
    `picture.rs` lays it out as slices and puts it together;
  - `walk.rs` decides what is to be coded when, and asks for it; `intra.rs` keeps the
    samples of a picture that predicts from itself, in the orders of `scans.rs`;
  - `agreement.rs`, `handover.rs`, `marks.rs`, `restarts.rs` and `decoder.rs` relate plans
    to timelines, to jobs, to what is written and to what a decoder makes of it.
- `app/`: ordinary Rust around the library: the loop that answers a walk's questions and
  the wording of errors. Requantisation is floating point and enters through a trait.
- `tests/`: what the library does on concrete streams.

Properties that relate several functions are public proof functions whose names begin
with `law_`.
