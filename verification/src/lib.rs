//! Reading and writing RIFF containers, WAV sample data and in-memory waveforms.
pub mod riff;
pub mod wav;
pub mod wave;
