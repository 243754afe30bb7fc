//! Verified core of the TTS worker: phonemizer punctuation handling, the
//! stdin line protocol, model paths, prompt construction, speech-code
//! generation and streaming decode bookkeeping.

pub mod codec;
pub mod espeak;
pub mod json;
pub mod llm;
pub mod npy;
pub mod paths;
pub mod phonemize;
pub mod protocol;
pub mod stream;
pub mod text;
pub mod worker;
