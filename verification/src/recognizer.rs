//! What one round of the graphical mode's recognition engine reports: after
//! the new audio has been fed to the recogniser and the detector, the round
//! is a segment end, a partial result or nothing.

use vstd::prelude::*;

verus! {

/// The outcome of one round of the recognition engine.
#[derive(Clone, Debug)]
pub enum ProcessOutcome {
    /// No new audio, or nothing recognised yet.
    Idle,
    /// New partial text of the streaming recogniser.
    Partial(String),
    /// The detector cut a segment: its final text and its number within the
    /// session.
    SegmentEnded { text: String, segment_id: u64 },
}

/// Classifies a round from the trimmed recogniser text and whether the
/// detector cut a segment. A segment end takes the next segment number
/// (which then advances, saturating at `u64::MAX`), even when the text is
/// empty; otherwise non-empty text is a partial result and empty text is
/// `Idle`.
pub fn classify_round(text: &str, segment_ended: bool, next_segment_id: &mut u64) -> (res:
    ProcessOutcome)
    ensures
        segment_ended ==> (res matches ProcessOutcome::SegmentEnded { text: t, segment_id: id }
            && t@ == text@ && id == *old(next_segment_id)),
        segment_ended ==> *final(next_segment_id) == (if *old(next_segment_id) == u64::MAX {
            u64::MAX
        } else {
            (*old(next_segment_id) + 1) as u64
        }),
        !segment_ended ==> *final(next_segment_id) == *old(next_segment_id),
        !segment_ended && text@.len() > 0 ==> (res matches ProcessOutcome::Partial(t) && t@
            == text@),
        !segment_ended && text@.len() == 0 ==> res is Idle,
{
    if segment_ended {
        let id = *next_segment_id;
        *next_segment_id = next_segment_id.saturating_add(1);
        return ProcessOutcome::SegmentEnded { text: text.to_string(), segment_id: id };
    }
    if !text.is_empty() {
        return ProcessOutcome::Partial(text.to_string());
    }
    ProcessOutcome::Idle
}

} // verus!
