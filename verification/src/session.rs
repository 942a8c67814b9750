//! The decisions of a streaming recognition session, separated from the
//! audio, the recognisers, the clock and the terminal: the caller feeds in
//! what the recognisers produced and carries out what each step returns
//! (log an event, print a line, replace the final line).
//!
//! - Each change of the streaming text is logged at once with the next
//!   sequence number (`printed = false`); it is printed when it differs from
//!   what is on screen and the debounce interval has passed, and that print
//!   is logged again with the same number (`printed = true`).
//! - Each segment cut by the voice activity detector is logged; its final
//!   text, when not empty, is printed and committed.
//! - A refinement of the segment replaces the final line unless the score
//!   rejects it or it is the same text.
//! - When the session closes without a pending segment, printed text that
//!   was never committed is committed then.
//!
//! The logged texts are the raw recogniser output; numeral normalisation
//! applies to the screen only.

use vstd::prelude::*;
use crate::logger::{duration_ms_spec, segment_commit_info, SegmentCommitInfo};
use crate::refine_score::{
    combined_score,
    decision_spec,
    is_score_of,
    refine_decision,
    RefineDecision,
    Score,
};

verus! {

broadcast use vstd::string::group_string_axioms;

/// `a + b`, saturating at `u64::MAX`.
pub open spec fn saturating_add_spec(a: u64, b: u64) -> u64 {
    if a + b > u64::MAX {
        u64::MAX
    } else {
        (a + b) as u64
    }
}

/// Whether closing the session with `drained` final segments has printed
/// text to commit: no segment, and printed text that is not the last
/// committed one.
pub open spec fn needs_closing_commit(s: StreamingSession, drained: nat) -> bool {
    drained == 0 && s.last_printed@.len() > 0 && s.last_printed@ != s.last_committed_final@
}

/// A partial result to write to the session log.
pub struct PartialEvent {
    /// The sequence number of the text within the current utterance chain.
    pub seq: u64,
    /// The raw recogniser text.
    pub text: String,
    /// The number of 16 kHz samples fed to the recogniser so far.
    pub samples_so_far: u64,
    /// `false` when the recogniser produced the text, `true` when it was
    /// printed.
    pub printed: bool,
}

/// What the caller does after new recogniser output: log the decoded text,
/// and print (and log) the text to show.
pub struct PartialStep {
    pub logged: Option<PartialEvent>,
    pub printed: Option<PartialEvent>,
}

/// What the caller does for a segment cut by the detector: log the commit,
/// and print (and log) the final text when there is one.
pub struct SegmentStep {
    pub commit: SegmentCommitInfo,
    pub final_text: Option<String>,
}

/// The outcome of a refinement: its score and decision, and whether the
/// final line is to be replaced by the refined text.
pub struct RefineStep {
    pub score: Score,
    pub decision: RefineDecision,
    pub replace: bool,
}

/// The state of a session.
pub struct StreamingSession {
    /// The latest non-empty recogniser text of the current utterance.
    pub last_result: String,
    /// The text last shown on screen.
    pub last_printed: String,
    /// The text last committed as a final result.
    pub last_committed_final: String,
    /// The sequence number of the latest logged partial result.
    pub partial_seq: u64,
    /// The number of 16 kHz samples fed to the recogniser.
    pub samples_in_session: u64,
    /// The number of the next segment.
    pub segment_id: u64,
}

impl StreamingSession {
    /// A session that has seen nothing.
    pub fn new() -> (res: StreamingSession)
        ensures
            res.last_result@ == Seq::<char>::empty(),
            res.last_printed@ == Seq::<char>::empty(),
            res.last_committed_final@ == Seq::<char>::empty(),
            res.partial_seq == 0,
            res.samples_in_session == 0,
            res.segment_id == 0,
    {
        StreamingSession {
            last_result: String::new(),
            last_printed: String::new(),
            last_committed_final: String::new(),
            partial_seq: 0,
            samples_in_session: 0,
            segment_id: 0,
        }
    }

    /// New recogniser output `text` (trimmed) after `n_samples` more samples;
    /// `since_print_ms` is the time since the last print and `debounce_ms`
    /// the shortest interval between two prints.
    ///
    /// A non-empty text that differs from the latest one becomes the latest
    /// text, takes the next sequence number and is logged. Then the latest
    /// text is printed when it is not empty, differs from what is on screen,
    /// and the interval has passed.
    pub fn on_decoded(&mut self, text: &str, n_samples: u64, since_print_ms: u64, debounce_ms: u64)
        -> (res: PartialStep)
        ensures
            final(self).samples_in_session == saturating_add_spec(
                old(self).samples_in_session,
                n_samples,
            ),
            final(self).last_committed_final == old(self).last_committed_final,
            final(self).segment_id == old(self).segment_id,
            ({
                let changed = text@.len() > 0 && text@ != old(self).last_result@;
                &&& changed ==> {
                    &&& final(self).last_result@ == text@
                    &&& final(self).partial_seq == saturating_add_spec(old(self).partial_seq, 1)
                    &&& res.logged matches Some(e) && e.seq == final(self).partial_seq && e.text@
                        == text@ && e.samples_so_far == final(self).samples_in_session
                        && !e.printed
                }
                &&& !changed ==> {
                    &&& final(self).last_result == old(self).last_result
                    &&& final(self).partial_seq == old(self).partial_seq
                    &&& res.logged is None
                }
            }),
            ({
                let show = final(self).last_result@.len() > 0 && final(self).last_result@ != old(self).last_printed@ && since_print_ms >= debounce_ms;
                &&& show ==> {
                    &&& final(self).last_printed@ == final(self).last_result@
                    &&& res.printed matches Some(e) && e.seq == final(self).partial_seq && e.text@
                        == final(self).last_result@ && e.samples_so_far == final(self).samples_in_session && e.printed
                }
                &&& !show ==> {
                    &&& final(self).last_printed == old(self).last_printed
                    &&& res.printed is None
                }
            }),
    {
        self.samples_in_session = self.samples_in_session.saturating_add(n_samples);
        let t = text.to_string();
        let mut logged: Option<PartialEvent> = None;
        if !text.is_empty() && t != self.last_result {
            self.last_result = t.clone();
            self.partial_seq = self.partial_seq.saturating_add(1);
            logged = Some(
                PartialEvent {
                    seq: self.partial_seq,
                    text: t,
                    samples_so_far: self.samples_in_session,
                    printed: false,
                },
            );
        }
        let mut printed: Option<PartialEvent> = None;
        if !self.last_result.as_str().is_empty() && self.last_result != self.last_printed && since_print_ms
            >= debounce_ms {
            self.last_printed = self.last_result.clone();
            printed = Some(
                PartialEvent {
                    seq: self.partial_seq,
                    text: self.last_printed.clone(),
                    samples_so_far: self.samples_in_session,
                    printed: true,
                },
            );
        }
        PartialStep { logged, printed }
    }

    /// A segment of `n_samples` samples starting at `start_sample` was cut;
    /// `final_text` is the trimmed recogniser text at that moment. The commit
    /// record takes the current segment number, which then advances
    /// (saturating). A non-empty final text is printed and committed.
    pub fn on_segment(
        &mut self,
        final_text: &str,
        start_sample: i32,
        n_samples: usize,
        sample_rate: u32,
    ) -> (res: SegmentStep)
        requires
            n_samples * 1000 <= u64::MAX,
        ensures
            res.commit.segment_id == old(self).segment_id,
            res.commit.start_sample == start_sample,
            res.commit.samples == n_samples as u32,
            res.commit.duration_ms == duration_ms_spec(n_samples as nat, sample_rate as nat),
            final(self).segment_id == saturating_add_spec(old(self).segment_id, 1),
            final(self).last_result == old(self).last_result,
            final(self).partial_seq == old(self).partial_seq,
            final(self).samples_in_session == old(self).samples_in_session,
            final_text@.len() > 0 ==> {
                &&& res.final_text matches Some(t) && t@ == final_text@
                &&& final(self).last_printed@ == final_text@
                &&& final(self).last_committed_final@ == final_text@
            },
            final_text@.len() == 0 ==> {
                &&& res.final_text is None
                &&& final(self).last_printed == old(self).last_printed
                &&& final(self).last_committed_final == old(self).last_committed_final
            },
    {
        let commit = segment_commit_info(self.segment_id, start_sample, n_samples, sample_rate);
        let mut final_out: Option<String> = None;
        if !final_text.is_empty() {
            let t = final_text.to_string();
            self.last_printed = t.clone();
            self.last_committed_final = t.clone();
            final_out = Some(t);
        }
        self.segment_id = self.segment_id.saturating_add(1);
        SegmentStep { commit, final_text: final_out }
    }

    /// The offline recogniser refined the segment whose final text was
    /// `streaming_final` into `refined`. An empty refinement is ignored
    /// (`None`). Otherwise the two texts are scored; the refinement replaces
    /// the final line, and becomes the printed and committed text, when the
    /// decision is not `Rejected` and the texts differ.
    pub fn on_refine(&mut self, streaming_final: &str, refined: &str) -> (res: Option<RefineStep>)
        ensures
            final(self).last_result == old(self).last_result,
            final(self).partial_seq == old(self).partial_seq,
            final(self).samples_in_session == old(self).samples_in_session,
            final(self).segment_id == old(self).segment_id,
            refined@.len() == 0 ==> res is None && final(self).last_printed == old(self).last_printed && final(self).last_committed_final == old(self).last_committed_final,
            refined@.len() > 0 ==> (res matches Some(step) && {
                &&& is_score_of(step.score, streaming_final@, refined@)
                &&& step.decision == decision_spec(step.score)
                &&& step.replace == (step.decision != RefineDecision::Rejected && refined@
                    != streaming_final@)
                &&& step.replace ==> final(self).last_printed@ == refined@ && final(self).last_committed_final@ == refined@
                &&& !step.replace ==> final(self).last_printed == old(self).last_printed && final(self).last_committed_final == old(self).last_committed_final
            }),
    {
        if refined.is_empty() {
            return None;
        }
        let score = combined_score(streaming_final, refined);
        let decision = refine_decision(score);
        let r = refined.to_string();
        let s = streaming_final.to_string();
        let rejected = match decision {
            RefineDecision::Rejected => true,
            _ => false,
        };
        let replace = !rejected && r != s;
        if replace {
            self.last_printed = r.clone();
            self.last_committed_final = r;
        }
        Some(RefineStep { score, decision, replace })
    }

    /// All segments of a round were handled; the recogniser starts a new
    /// utterance, so the latest text is cleared.
    pub fn end_of_segments(&mut self)
        ensures
            final(self).last_result@ == Seq::<char>::empty(),
            final(self).last_printed == old(self).last_printed,
            final(self).last_committed_final == old(self).last_committed_final,
            final(self).partial_seq == old(self).partial_seq,
            final(self).samples_in_session == old(self).samples_in_session,
            final(self).segment_id == old(self).segment_id,
    {
        self.last_result = String::new();
    }

    /// When the session closes and the detector yielded `drained_segments`
    /// final segments: with none, printed text that was never committed is
    /// returned to be committed now.
    pub fn closing_final(&self, drained_segments: usize) -> (res: Option<String>)
        ensures
            res is Some <==> needs_closing_commit(*self, drained_segments as nat),
            res matches Some(t) ==> t@ == self.last_printed@,
    {
        if drained_segments == 0 && !self.last_printed.as_str().is_empty() && self.last_printed
            != self.last_committed_final {
            Some(self.last_printed.clone())
        } else {
            None
        }
    }
}

/// Text committed as a final result (by a segment or an accepted
/// refinement) is never committed again when the session closes, until new
/// text is printed.
pub proof fn lemma_committed_text_not_recommitted(s: StreamingSession, drained: nat)
    requires
        s.last_printed@ == s.last_committed_final@,
    ensures
        !needs_closing_commit(s, drained),
{
}

/// The positions, in order, of the segments among the first `n` whose
/// sample count is not zero.
pub open spec fn nonempty_indices(counts: Seq<usize>, n: int) -> Seq<usize>
    decreases n,
{
    if n <= 0 {
        Seq::empty()
    } else if counts[n - 1] > 0 {
        nonempty_indices(counts, n - 1).push((n - 1) as usize)
    } else {
        nonempty_indices(counts, n - 1)
    }
}

/// Of the segments drained from the detector, given by their sample counts,
/// the positions of those to commit: empty segments are skipped.
pub fn nonempty_segments(sample_counts: &[usize]) -> (res: Vec<usize>)
    ensures
        res@ == nonempty_indices(sample_counts@, sample_counts@.len() as int),
{
    let n = sample_counts.len();
    let mut res: Vec<usize> = Vec::new();
    let mut i: usize = 0;
    while i < n
        invariant
            n == sample_counts@.len(),
            i <= n,
            res@ == nonempty_indices(sample_counts@, i as int),
        decreases n - i,
    {
        if sample_counts[i] > 0 {
            res.push(i);
        }
        i = i + 1;
    }
    res
}

/// The segments kept are exactly the non-empty ones, each once, in the
/// order they were drained.
pub proof fn lemma_nonempty_indices(counts: Seq<usize>, n: int)
    requires
        0 <= n <= counts.len(),
        counts.len() <= usize::MAX,
    ensures
        forall|i: int|
            0 <= i < nonempty_indices(counts, n).len() ==> {
                let k = #[trigger] nonempty_indices(counts, n)[i];
                0 <= k < n && counts[k as int] > 0
            },
        forall|i: int, j: int|
            0 <= i < j < nonempty_indices(counts, n).len() ==> nonempty_indices(counts, n)[i]
                < nonempty_indices(counts, n)[j],
        forall|k: int| 0 <= k < n && counts[k] > 0 ==> nonempty_indices(counts, n).contains(k as usize),
    decreases n,
{
    if n > 0 {
        lemma_nonempty_indices(counts, n - 1);
        let prev = nonempty_indices(counts, n - 1);
        if counts[n - 1] > 0 {
            let cur = prev.push((n - 1) as usize);
            assert(cur == nonempty_indices(counts, n));
            assert forall|i: int| 0 <= i < cur.len() implies {
                let k = #[trigger] cur[i];
                0 <= k < n && counts[k as int] > 0
            } by {
                if i < prev.len() {
                    assert(cur[i] == prev[i]);
                }
            }
            assert forall|i: int, j: int| 0 <= i < j < cur.len() implies cur[i] < cur[j] by {
                assert(cur[i] == prev[i]);
                if j < prev.len() {
                    assert(cur[j] == prev[j]);
                }
            }
            assert forall|k: int| 0 <= k < n && counts[k] > 0 implies cur.contains(k as usize) by {
                if k < n - 1 {
                    let i = choose|i: int| 0 <= i < prev.len() && prev[i] == k as usize;
                    assert(cur[i] == k as usize);
                } else {
                    assert(cur[prev.len() as int] == k as usize);
                }
            }
        } else {
            assert(prev == nonempty_indices(counts, n));
        }
    }
}

} // verus!
