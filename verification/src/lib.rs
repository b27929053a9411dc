//! Greedy CTC transcription: waveform preparation and frame-wise decoding.

pub mod binary32;
pub mod collapse;
pub mod decoder;
pub mod scores;
pub mod vocabulary;
pub mod waveform;
