//! Verified core of a streaming speech-to-text pipeline: display-text
//! normalisation, Chinese-numeral inverse text normalisation, the similarity
//! score that decides whether an offline refinement may replace the streaming
//! transcript, and the decisions of the streaming session.

pub mod text;
pub mod itn;
pub mod display;
pub mod wide;
pub mod refine_score;
pub mod logger;
pub mod config;
pub mod recognizer;
pub mod capture;
pub mod wav_source;
pub mod session;
