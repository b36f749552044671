//! Spectrum bucketer: folds the frequency/volume pairs produced by the
//! spectrum transform into a fixed-length band vector. The audible range
//! `[0, 20000)` Hz is split into 200 equal bands of 100 Hz; each band sums
//! the volume of every bin whose frequency falls inside it, half-open at
//! the top, so no bin is counted twice or dropped at a boundary. A band
//! with no bins gets a small fixed floor instead of zero, so bars do not
//! collapse during silence.

use vstd::prelude::*;

verus! {

/// Number of frequency bands in a band vector.
pub const BAND_COUNT: usize = 200;

/// Width of one band in Hz.
pub const BAND_WIDTH: u32 = 100;

/// Raw value of a band that no bin fell into: a deliberate floor, not a
/// measurement.
pub const SILENT_BAND_FLOOR: u64 = 30;

/// One output pair of the spectrum transform, with the frequency in Hz
/// and the volume scaled to an integer amplitude.
#[derive(Clone, Copy, PartialEq, Eq, Structural, Debug)]
pub struct FreqBin {
    pub freq: u32,
    pub volume: u64,
}

/// Does the bin fall into band `i`, i.e. into `[100 * i, 100 * (i + 1))`?
pub open spec fn in_band(b: FreqBin, i: int) -> bool {
    BAND_WIDTH * i <= b.freq < BAND_WIDTH * (i + 1)
}

/// Sum of the volumes of the bins that fall into band `i`.
pub open spec fn band_sum(bins: Seq<FreqBin>, i: int) -> int
    decreases bins.len(),
{
    if bins.len() == 0 {
        0
    } else {
        band_sum(bins.drop_last(), i) + if in_band(bins.last(), i) {
            bins.last().volume as int
        } else {
            0
        }
    }
}

/// Does any bin fall into band `i`?
pub open spec fn band_occupied(bins: Seq<FreqBin>, i: int) -> bool {
    exists|k: int| 0 <= k < bins.len() && in_band(bins[k], i)
}

/// The raw value of band `i`: the summed volume of its bins, or the
/// silence floor when it has none.
pub open spec fn band_value(bins: Seq<FreqBin>, i: int) -> int {
    if band_occupied(bins, i) {
        band_sum(bins, i)
    } else {
        SILENT_BAND_FLOOR as int
    }
}

/// Sum of the volumes of all bins, whatever their frequency.
pub open spec fn total_volume(bins: Seq<FreqBin>) -> int
    decreases bins.len(),
{
    if bins.len() == 0 {
        0
    } else {
        total_volume(bins.drop_last()) + bins.last().volume
    }
}

proof fn lemma_total_volume_nonneg(bins: Seq<FreqBin>)
    ensures
        0 <= total_volume(bins),
    decreases bins.len(),
{
    if bins.len() > 0 {
        lemma_total_volume_nonneg(bins.drop_last());
    }
}

proof fn lemma_total_volume_prefix(bins: Seq<FreqBin>, k: int)
    requires
        0 <= k <= bins.len(),
    ensures
        total_volume(bins.take(k)) <= total_volume(bins),
    decreases bins.len() - k,
{
    if k < bins.len() {
        assert(bins.take(k + 1).drop_last() =~= bins.take(k));
        lemma_total_volume_prefix(bins, k + 1);
    } else {
        assert(bins.take(k) =~= bins);
    }
}

/// Fold the transform's bins into the fixed-length band vector for this
/// frame. When the transform produced nothing (an empty capture window),
/// the previously displayed band vector is returned unchanged, so the
/// bars hold still instead of flashing to zero.
pub fn bucket(bins: &Vec<FreqBin>, previous: &Vec<u64>) -> (r: Vec<u64>)
    requires
        total_volume(bins@) <= u64::MAX,
    ensures
        bins@.len() == 0 ==> r@ == previous@,
        bins@.len() > 0 ==> r@.len() == BAND_COUNT && forall|i: int|
            0 <= i < BAND_COUNT ==> r@[i] == band_value(bins@, i),
{
    if bins.len() == 0 {
        return previous.clone();
    }
    let n = bins.len();
    let mut out: Vec<u64> = Vec::new();
    let mut band: usize = 0;
    while band < BAND_COUNT
        invariant
            n == bins@.len(),
            total_volume(bins@) <= u64::MAX,
            band <= BAND_COUNT,
            out@.len() == band,
            forall|i: int| 0 <= i < band ==> out@[i] == band_value(bins@, i),
        decreases BAND_COUNT - band,
    {
        let lo: u32 = (band as u32) * BAND_WIDTH;
        let hi: u32 = lo + BAND_WIDTH;
        let mut sum: u64 = 0;
        let mut occupied = false;
        let mut k: usize = 0;
        proof {
            assert(bins@.take(0) =~= Seq::<FreqBin>::empty());
            lemma_total_volume_nonneg(bins@);
        }
        while k < n
            invariant
                n == bins@.len(),
                total_volume(bins@) <= u64::MAX,
                k <= n,
                lo == BAND_WIDTH * band,
                hi == BAND_WIDTH * (band + 1),
                sum == band_sum(bins@.take(k as int), band as int),
                occupied == band_occupied(bins@.take(k as int), band as int),
                sum <= total_volume(bins@.take(k as int)),
                total_volume(bins@.take(k as int)) <= total_volume(bins@),
            decreases n - k,
        {
            proof {
                assert(bins@.take(k + 1).drop_last() =~= bins@.take(k as int));
                lemma_total_volume_prefix(bins@, k + 1);
            }
            let b = bins[k];
            if b.freq >= lo && b.freq < hi {
                sum = sum + b.volume;
                occupied = true;
                proof {
                    assert(in_band(bins@[k as int], band as int));
                }
            } else {
                proof {
                    assert(!in_band(bins@[k as int], band as int));
                    if band_occupied(bins@.take(k + 1), band as int) {
                        let w = choose|j: int|
                            0 <= j < k + 1 && #[trigger] in_band(bins@.take(k + 1)[j], band as int);
                        assert(w < k && in_band(bins@.take(k as int)[w], band as int));
                    }
                }
            }
            k = k + 1;
        }
        proof {
            assert(bins@.take(n as int) =~= bins@);
        }
        if occupied {
            out.push(sum);
        } else {
            out.push(SILENT_BAND_FLOOR);
        }
        band = band + 1;
    }
    out
}

} // verus!
