//! Reading a local WAV file into the same chunked stream of audio as the
//! microphone: the accepted format, and the cutting of the samples into
//! chunks of a fixed size (the last chunk carries the remainder).

use vstd::prelude::*;

verus! {

/// Default chunk: 30 ms at 16 kHz, 480 samples.
pub const DEFAULT_CHUNK_SAMPLES: usize = 480;

/// The only accepted format: 16 kHz, one channel, 16-bit integer PCM.
pub open spec fn is_supported_spec(sample_rate: u32, channels: u16, bits_per_sample: u16, is_int:
    bool) -> bool {
    sample_rate == 16_000 && channels == 1 && bits_per_sample == 16 && is_int
}

/// Whether a WAV header describes the accepted format (16 kHz, mono,
/// 16-bit integer samples).
pub fn is_supported_format(sample_rate: u32, channels: u16, bits_per_sample: u16, is_int: bool)
    -> (res: bool)
    ensures
        res == is_supported_spec(sample_rate, channels, bits_per_sample, is_int),
{
    sample_rate == 16_000 && channels == 1 && bits_per_sample == 16 && is_int
}

/// Cuts a stream of samples into chunks of `chunk_samples` samples (a chunk
/// size of 0 gives one-sample chunks) and counts the samples read.
pub struct ChunkBuffer {
    pending: Vec<i16>,
    chunk_samples: usize,
    total: u64,
}

impl ChunkBuffer {
    /// The buffer never holds a full chunk.
    #[verifier::type_invariant]
    spec fn inv(self) -> bool {
        self.pending@.len() < vstd::math::max(self.chunk_samples as int, 1)
    }

    /// The number of samples of a full chunk: the chunk size, or 1 when the
    /// chunk size is 0.
    pub open spec fn full_len(chunk_size: nat) -> nat {
        vstd::math::max(chunk_size as int, 1) as nat
    }

    /// The samples received since the last full chunk.
    pub closed spec fn pending(&self) -> Seq<i16> {
        self.pending@
    }

    /// The chunk size asked for.
    pub closed spec fn chunk_size(&self) -> nat {
        self.chunk_samples as nat
    }

    /// The number of samples pushed so far, saturating at `u64::MAX`.
    pub closed spec fn count(&self) -> nat {
        self.total as nat
    }

    /// An empty buffer for chunks of `chunk_samples` samples.
    pub fn new(chunk_samples: usize) -> (res: ChunkBuffer)
        ensures
            res.pending() == Seq::<i16>::empty(),
            res.chunk_size() == chunk_samples,
            res.count() == 0,
    {
        ChunkBuffer { pending: Vec::new(), chunk_samples, total: 0 }
    }

    /// Adds one sample. When the buffer reaches the chunk size, the full
    /// chunk is handed out and the buffer starts empty again. No sample is
    /// lost or reordered: the chunk handed out (if any) followed by the new
    /// buffer is the old buffer followed by `sample`.
    pub fn push(&mut self, sample: i16) -> (res: Option<Vec<i16>>)
        ensures
            old(self).pending().len() < Self::full_len(old(self).chunk_size()),
            res matches Some(c) ==> c@.len() == Self::full_len(old(self).chunk_size()),
            final(self).chunk_size() == old(self).chunk_size(),
            final(self).count() == vstd::math::min(old(self).count() + 1int, u64::MAX as int),
            old(self).pending().len() + 1 >= old(self).chunk_size() ==> (res matches Some(c)
                && c@ == old(self).pending().push(sample) && final(self).pending()
                == Seq::<i16>::empty()),
            old(self).pending().len() + 1 < old(self).chunk_size() ==> (res is None
                && final(self).pending() == old(self).pending().push(sample)),
    {
        proof {
            use_type_invariant(&*self);
        }
        let mut taken: Vec<i16> = Vec::new();
        std::mem::swap(&mut taken, &mut self.pending);
        taken.push(sample);
        self.total = self.total.saturating_add(1);
        if taken.len() >= self.chunk_samples {
            Some(taken)
        } else {
            self.pending = taken;
            None
        }
    }

    /// The remaining samples, if any, as the last (shorter) chunk.
    pub fn finish(self) -> (res: Option<Vec<i16>>)
        ensures
            self.pending().len() < Self::full_len(self.chunk_size()),
            self.pending().len() > 0 ==> (res matches Some(c) && c@ == self.pending()),
            self.pending().len() == 0 ==> res is None,
    {
        proof {
            use_type_invariant(&self);
        }
        if self.pending.len() > 0 {
            Some(self.pending)
        } else {
            None
        }
    }

    /// The number of samples pushed so far (saturating).
    pub fn total(&self) -> (res: u64)
        ensures
            res == self.count(),
    {
        self.total
    }
}

} // verus!
