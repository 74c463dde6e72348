//! Local call transcription: the verified core.
//!
//! A session captures audio, cuts it into chunks at the pauses of speech, has each chunk transcribed by
//! whisper.cpp, and can have the transcript summarized by a local Ollama server. This library decides:
//! which samples go where, when a chunk is complete, what is told to the front-end, what is asked of
//! the outside programs and what their answers come to. The programs around it do the input and
//! output, and the arithmetic on samples.

pub mod audio;
pub mod chunker;
pub mod cli;
pub mod clock;
pub mod config;
pub mod dsp;
pub mod engine;
pub mod gui;
pub mod summarize;
pub mod text;
pub mod whisper;
pub mod worker;
