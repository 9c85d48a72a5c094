//! A text-to-speech bridge library.
//!
//! The library holds the verified core of a speech-synthesis server: the
//! audio codec that converts integer PCM samples into a canonical
//! floating-point waveform and writes it out as a WAVE container, and the
//! protocol that hands concurrent requests one at a time to a single
//! inference worker.
//!
//! Floating-point samples are represented throughout by their IEEE-754
//! single-precision bit patterns (`u32`), so every conversion is an exact
//! integer computation with a full specification.

pub mod protocol;
pub mod sample;
pub mod service;
pub mod wav;
