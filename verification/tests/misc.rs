use cinnabar::config::{
    default_hotkey, default_model_dir, default_vad_min_silence_ms, default_vad_min_speech_ms,
    default_vad_model_path, default_vad_num_threads, default_vad_provider,
    default_vad_window_size,
};
use cinnabar::capture::{capture_plan, supports_target_mono, CapturePlan, InputRange, TARGET_SAMPLE_RATE};
use cinnabar::recognizer::{classify_round, ProcessOutcome};
use cinnabar::wav_source::{is_supported_format, ChunkBuffer, DEFAULT_CHUNK_SAMPLES};

#[test]
fn config_defaults() {
    assert_eq!(default_model_dir(), "./models");
    assert_eq!(default_vad_model_path(), "./models/ten-vad.onnx");
    assert_eq!(default_vad_min_silence_ms(), 1200);
    assert_eq!(default_vad_min_speech_ms(), 500);
    assert_eq!(default_vad_window_size(), 256);
    assert_eq!(default_vad_num_threads(), 2);
    assert_eq!(default_vad_provider(), "cpu");
    assert_eq!(default_hotkey(), "F3");
}

#[test]
fn rounds_are_classified() {
    let mut id = 0u64;
    assert!(matches!(classify_round("", false, &mut id), ProcessOutcome::Idle));
    match classify_round("今天", false, &mut id) {
        ProcessOutcome::Partial(t) => assert_eq!(t, "今天"),
        other => panic!("unexpected {:?}", other),
    }
    match classify_round("今天好", true, &mut id) {
        ProcessOutcome::SegmentEnded { text, segment_id } => {
            assert_eq!(text, "今天好");
            assert_eq!(segment_id, 0);
        }
        other => panic!("unexpected {:?}", other),
    }
    assert_eq!(id, 1);
    let mut max = u64::MAX;
    classify_round("", true, &mut max);
    assert_eq!(max, u64::MAX);
}

#[test]
fn wav_format_check() {
    assert!(is_supported_format(16_000, 1, 16, true));
    assert!(!is_supported_format(16_000, 2, 16, true));
    assert!(!is_supported_format(44_100, 1, 16, true));
    assert!(!is_supported_format(16_000, 1, 32, false));
}

fn chunks_of(n: usize, chunk: usize) -> (u64, Vec<Vec<i16>>) {
    let mut buf = ChunkBuffer::new(chunk);
    let mut out = Vec::new();
    for i in 0..n {
        if let Some(c) = buf.push((i % 1000) as i16) {
            out.push(c);
        }
    }
    let total = buf.total();
    if let Some(c) = buf.finish() {
        out.push(c);
    }
    (total, out)
}

#[test]
fn chunks_divisible_input() {
    let (total, chunks) = chunks_of(960, DEFAULT_CHUNK_SAMPLES);
    assert_eq!(total, 960);
    assert_eq!(chunks.iter().map(|c| c.len()).collect::<Vec<_>>(), vec![480, 480]);
}

#[test]
fn tail_chunk_carries_remainder_of_samples() {
    let (total, chunks) = chunks_of(1000, 480);
    assert_eq!(total, 1000);
    assert_eq!(chunks.iter().map(|c| c.len()).collect::<Vec<_>>(), vec![480, 480, 40]);
    let flat: Vec<i16> = chunks.concat();
    assert_eq!(flat, (0..1000).map(|i| (i % 1000) as i16).collect::<Vec<_>>());
}

#[test]
fn zero_chunk_size_gives_single_samples() {
    let (_, chunks) = chunks_of(3, 0);
    assert_eq!(chunks.len(), 3);
}

#[test]
fn capture_format_choice() {
    let mono_16k = InputRange { channels: 1, min_rate: 8_000, max_rate: 48_000 };
    let stereo = InputRange { channels: 2, min_rate: 8_000, max_rate: 48_000 };
    let mono_44k = InputRange { channels: 1, min_rate: 44_100, max_rate: 48_000 };
    assert!(supports_target_mono(&[stereo, mono_16k]));
    assert!(!supports_target_mono(&[stereo, mono_44k]));
    assert!(!supports_target_mono(&[]));
    assert_eq!(
        capture_plan(true, 2, 48_000),
        CapturePlan { channels: 1, sample_rate: TARGET_SAMPLE_RATE, resample: false }
    );
    assert_eq!(
        capture_plan(false, 2, 48_000),
        CapturePlan { channels: 2, sample_rate: 48_000, resample: true }
    );
    assert_eq!(
        capture_plan(false, 1, 16_000),
        CapturePlan { channels: 1, sample_rate: 16_000, resample: false }
    );
}
