//! The choice of the capture format: the recogniser takes 16 kHz mono, which
//! is recorded directly when the input device offers it; otherwise the
//! device's default format is recorded and resampled.

use vstd::prelude::*;

verus! {

/// The sample rate the recogniser expects, in Hz.
pub const TARGET_SAMPLE_RATE: u32 = 16000;

/// A capture format the input device offers: a channel count and a range of
/// sample rates.
#[derive(Clone, Copy, Debug, PartialEq, Eq, Structural)]
pub struct InputRange {
    pub channels: u16,
    pub min_rate: u32,
    pub max_rate: u32,
}

/// A format that records the target rate in mono.
pub open spec fn offers_target_mono(r: InputRange) -> bool {
    r.channels == 1 && r.min_rate <= TARGET_SAMPLE_RATE <= r.max_rate
}

/// Whether one of the device's formats records the target rate in mono.
pub fn supports_target_mono(ranges: &[InputRange]) -> (res: bool)
    ensures
        res == exists|i: int| 0 <= i < ranges@.len() && offers_target_mono(#[trigger] ranges@[i]),
{
    let n = ranges.len();
    let mut i: usize = 0;
    while i < n
        invariant
            n == ranges@.len(),
            i <= n,
            forall|k: int| 0 <= k < i ==> !offers_target_mono(#[trigger] ranges@[k]),
        decreases n - i,
    {
        let r = ranges[i];
        if r.channels == 1 && r.min_rate <= TARGET_SAMPLE_RATE && TARGET_SAMPLE_RATE <= r.max_rate {
            return true;
        }
        i = i + 1;
    }
    false
}

/// The format to record in: 16 kHz mono when the device offers it, its
/// default format (`default_channels`, `default_rate`) otherwise.
#[derive(Clone, Copy, Debug, PartialEq, Eq, Structural)]
pub struct CapturePlan {
    pub channels: u16,
    pub sample_rate: u32,
    /// Whether the recorded audio must be resampled to the target rate.
    pub resample: bool,
}

/// Chooses the capture format; `default_channels` and `default_rate`
/// describe the device's default format and count only when `supported` is
/// false.
pub fn capture_plan(supported: bool, default_channels: u16, default_rate: u32) -> (res:
    CapturePlan)
    ensures
        supported ==> res == (CapturePlan {
            channels: 1,
            sample_rate: TARGET_SAMPLE_RATE,
            resample: false,
        }),
        !supported ==> res == (CapturePlan {
            channels: default_channels,
            sample_rate: default_rate,
            resample: default_rate != TARGET_SAMPLE_RATE,
        }),
{
    if supported {
        CapturePlan { channels: 1, sample_rate: TARGET_SAMPLE_RATE, resample: false }
    } else {
        CapturePlan {
            channels: default_channels,
            sample_rate: default_rate,
            resample: default_rate != TARGET_SAMPLE_RATE,
        }
    }
}

} // verus!
