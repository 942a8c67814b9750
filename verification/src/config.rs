//! Built-in defaults of the configuration file (`config.toml`); a field that
//! the file leaves out takes these values. The floating-point defaults (the
//! detector's probability threshold and maximum segment length) live with the
//! configuration type itself, outside this crate.

use vstd::prelude::*;

verus! {

broadcast use vstd::string::group_string_axioms;

/// Directory of the recognition models: `./models`.
pub fn default_model_dir() -> (res: String)
    ensures
        res@ == "./models"@,
{
    "./models".to_string()
}

/// Path of the voice activity detector model: `./models/ten-vad.onnx`.
pub fn default_vad_model_path() -> (res: String)
    ensures
        res@ == "./models/ten-vad.onnx"@,
{
    "./models/ten-vad.onnx".to_string()
}

/// Silence that ends a segment, in milliseconds: 1200.
pub fn default_vad_min_silence_ms() -> (res: u32)
    ensures
        res == 1200,
{
    1200
}

/// Shortest speech kept as a segment, in milliseconds: 500.
pub fn default_vad_min_speech_ms() -> (res: u32)
    ensures
        res == 500,
{
    500
}

/// Detector window in samples: 256 (16 ms at 16 kHz).
pub fn default_vad_window_size() -> (res: i32)
    ensures
        res == 256,
{
    256
}

/// Inference threads of the detector: 2.
pub fn default_vad_num_threads() -> (res: i32)
    ensures
        res == 2,
{
    2
}

/// Execution provider of the detector: `cpu`.
pub fn default_vad_provider() -> (res: String)
    ensures
        res@ == "cpu"@,
{
    "cpu".to_string()
}

/// Hot key of the graphical mode: `F3`.
pub fn default_hotkey() -> (res: String)
    ensures
        res@ == "F3"@,
{
    "F3".to_string()
}

} // verus!
