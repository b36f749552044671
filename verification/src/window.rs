//! Window extractor for file-playback mode: each frame covers the span
//! `[elapsed - frame_span, elapsed]` of the decoded source, clamped at
//! zero for the first frames, and the matching samples are sliced out of
//! the fully decoded sample vector. (In live-capture mode the window is
//! simply whatever `SampleChannel::drain` returns.)

use vstd::prelude::*;

verus! {

/// Start of the frame window in milliseconds: `frame_span` before the
/// elapsed clock, clamped at zero.
pub open spec fn window_start_spec(elapsed_ms: u64, span_ms: u64) -> u64 {
    if elapsed_ms >= span_ms {
        (elapsed_ms - span_ms) as u64
    } else {
        0
    }
}

/// Index of the first sample at or after the given time, for an
/// interleaved stream of `channels` channels at `sample_rate` Hz.
pub open spec fn sample_index_spec(ms: u64, sample_rate: u64, channels: u64) -> int {
    ms * sample_rate * channels / 1000
}

/// The window bounds for one frame: start time and length, both in
/// milliseconds. The length is the full span except during the first
/// frames, when only `elapsed` milliseconds of audio exist yet.
pub fn window_bounds(elapsed_ms: u64, span_ms: u64) -> (r: (u64, u64))
    ensures
        r.0 == window_start_spec(elapsed_ms, span_ms),
        r.0 + r.1 == elapsed_ms,
{
    if elapsed_ms >= span_ms {
        (elapsed_ms - span_ms, span_ms)
    } else {
        (0, elapsed_ms)
    }
}

/// Slice the samples of the current frame window out of a fully decoded
/// source. Both bounds are clamped to the decoded length, so a window
/// reaching past the end of the track yields what is there (possibly
/// nothing); downstream stages tolerate an empty window.
pub fn extract_window(
    samples: &Vec<i16>,
    elapsed_ms: u64,
    span_ms: u64,
    sample_rate: u64,
    channels: u64,
) -> (w: Vec<i16>)
    requires
        elapsed_ms * sample_rate <= u64::MAX,
        elapsed_ms * sample_rate * channels <= u64::MAX,
    ensures
        ({
            let lo = vstd::math::min(
                sample_index_spec(window_start_spec(elapsed_ms, span_ms), sample_rate, channels),
                samples@.len() as int,
            );
            let hi = vstd::math::min(
                sample_index_spec(elapsed_ms, sample_rate, channels),
                samples@.len() as int,
            );
            w@ == samples@.subrange(lo, hi)
        }),
{
    let start_ms: u64 = if elapsed_ms >= span_ms {
        elapsed_ms - span_ms
    } else {
        0
    };
    proof {
        vstd::arithmetic::mul::lemma_mul_inequality(start_ms as int, elapsed_ms as int,
            sample_rate as int);
        vstd::arithmetic::mul::lemma_mul_inequality(start_ms * sample_rate,
            elapsed_ms * sample_rate, channels as int);
        vstd::arithmetic::div_mod::lemma_div_is_ordered(start_ms * sample_rate * channels,
            elapsed_ms * sample_rate * channels, 1000);
    }
    let lo64: u64 = start_ms * sample_rate * channels / 1000;
    let hi64: u64 = elapsed_ms * sample_rate * channels / 1000;
    let len64: u64 = samples.len() as u64;
    let lo: usize = if lo64 < len64 {
        lo64 as usize
    } else {
        samples.len()
    };
    let hi: usize = if hi64 < len64 {
        hi64 as usize
    } else {
        samples.len()
    };
    let mut w: Vec<i16> = Vec::new();
    let mut k: usize = lo;
    proof {
        assert(samples@.subrange(lo as int, lo as int) =~= Seq::<i16>::empty());
    }
    while k < hi
        invariant
            lo <= k <= hi <= samples@.len(),
            w@ == samples@.subrange(lo as int, k as int),
        decreases hi - k,
    {
        w.push(samples[k]);
        proof {
            assert(samples@.subrange(lo as int, k + 1) =~= samples@.subrange(lo as int,
                k as int).push(samples@[k as int]));
        }
        k = k + 1;
    }
    w
}

} // verus!
