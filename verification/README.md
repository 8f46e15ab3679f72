# crabmix

Reading and writing RIFF containers, decoding WAV sample data, and building, mixing and
splitting waveforms, verified with Verus.

- `src/riff.rs`: four-character codes and RIFF chunks (`RIFF` roots, `LIST`s and plain
  chunks), their reading from bytes and writing to bytes, with the reading, writing and
  size functions specified over a mathematical model (`SpecChunk`) and the round-trip
  laws proved.
- `src/wav.rs`: the WAV layer on top of RIFF: format codes, sample rates, channel counts,
  and the decoding of `fmt ` and `data` chunks into stored samples (`Sample`).
- `src/wave.rs`: waveforms generic over their sample type, with creation, mixing and
  splitting and their validation errors.
- `app/`: stream I/O, `std::error::Error` types, and the scaling of stored samples to
  `f64`.
