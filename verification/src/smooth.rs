//! Temporal smoother: blends each frame's raw band amplitudes with the
//! previously displayed ones, easing one tenth of the gap per frame so
//! that the bars move without flicker.

use vstd::prelude::*;

verus! {

/// One eased step of a single band: the displayed value moves from
/// `previous` one tenth of the way toward `raw` (integer division, so
/// the last few units of a small gap may never close).
pub open spec fn eased_spec(previous: u64, raw: u64) -> u64 {
    if raw == previous {
        previous
    } else if raw < previous {
        (previous - (previous - raw) / 10) as u64
    } else {
        (previous + (raw - previous) / 10) as u64
    }
}

/// The whole smoothed frame, band by band.
pub open spec fn smooth_spec(raw: Seq<u64>, previous: Seq<u64>) -> Seq<u64> {
    Seq::new(raw.len(), |i: int| eased_spec(previous[i], raw[i]))
}

/// Ease one band of the displayed vector toward its raw target.
pub fn eased(previous: u64, raw: u64) -> (r: u64)
    ensures
        r == eased_spec(previous, raw),
{
    if raw == previous {
        previous
    } else if raw < previous {
        previous - (previous - raw) / 10
    } else {
        let step: u64 = (raw - previous) / 10;
        assert(step <= raw - previous) by {
            vstd::arithmetic::div_mod::lemma_div_is_ordered_by_denominator(
                (raw - previous) as int, 1, 10);
        }
        previous + step
    }
}

/// Blend a raw band vector with the previously displayed one.
pub fn smooth(raw: &Vec<u64>, previous: &Vec<u64>) -> (r: Vec<u64>)
    requires
        raw@.len() == previous@.len(),
    ensures
        r@ == smooth_spec(raw@, previous@),
{
    let mut out: Vec<u64> = Vec::new();
    let n = raw.len();
    let mut i: usize = 0;
    while i < n
        invariant
            n == raw@.len() == previous@.len(),
            i <= n,
            out@.len() == i,
            forall|j: int| 0 <= j < i ==> out@[j] == eased_spec(previous@[j], raw@[j]),
        decreases n - i,
    {
        out.push(eased(previous[i], raw[i]));
        i = i + 1;
    }
    assert(out@ =~= smooth_spec(raw@, previous@));
    out
}

/// One frame of the smoother including the very first one: with no
/// previously displayed vector yet, smoothing is skipped and the raw
/// vector is shown directly.
pub fn smooth_frame(raw: &Vec<u64>, previous: &Option<Vec<u64>>) -> (r: Vec<u64>)
    requires
        previous matches Some(p) ==> p@.len() == raw@.len(),
    ensures
        previous is None ==> r@ == raw@,
        previous matches Some(p) ==> r@ == smooth_spec(raw@, p@),
{
    match previous {
        None => raw.clone(),
        Some(p) => smooth(raw, p),
    }
}

proof fn lemma_eased_between(previous: u64, raw: u64)
    ensures
        raw <= previous ==> raw <= eased_spec(previous, raw) <= previous,
        previous <= raw ==> previous <= eased_spec(previous, raw) <= raw,
{
    if raw < previous {
        let gap = previous - raw;
        vstd::arithmetic::div_mod::lemma_div_pos_is_pos(gap, 10);
        vstd::arithmetic::div_mod::lemma_div_is_ordered_by_denominator(gap, 1, 10);
    } else if previous < raw {
        let gap = raw - previous;
        vstd::arithmetic::div_mod::lemma_div_pos_is_pos(gap, 10);
        vstd::arithmetic::div_mod::lemma_div_is_ordered_by_denominator(gap, 1, 10);
    }
}

/// Law: smoothing is a fixed point on an unchanged input — when the raw
/// vector equals the displayed one, the displayed one comes back as is.
pub proof fn lemma_smooth_fixed_point(raw: Seq<u64>, previous: Seq<u64>)
    requires
        raw == previous,
    ensures
        smooth_spec(raw, previous) == previous,
{
    assert(smooth_spec(raw, previous) =~= previous);
}

/// Law: the ease never overshoots — every smoothed band lies between the
/// previously displayed value and the raw target, inclusive.
pub proof fn lemma_smooth_no_overshoot(raw: Seq<u64>, previous: Seq<u64>)
    requires
        raw.len() == previous.len(),
    ensures
        forall|i: int|
            0 <= i < raw.len() ==> vstd::math::min(previous[i] as int, raw[i] as int)
                <= #[trigger] smooth_spec(raw, previous)[i] <= vstd::math::max(
                previous[i] as int,
                raw[i] as int,
            ),
{
    assert forall|i: int|
        0 <= i < raw.len() implies vstd::math::min(previous[i] as int, raw[i] as int)
        <= #[trigger] smooth_spec(raw, previous)[i] <= vstd::math::max(
        previous[i] as int,
        raw[i] as int,
    ) by {
        lemma_eased_between(previous[i], raw[i]);
    }
}

} // verus!
