//! Display-mode configuration and the per-frame decisions of the render
//! loop: which key toggles which flag, how far the playback progress bar
//! is, and the minimum height a bar is drawn with.

use vstd::prelude::*;

verus! {

/// Orthogonal display toggles: `is_horizontal` swaps the bar
/// orientation, `is_stereo` duplicates the visualization into two panes.
pub struct Config {
    pub is_horizontal: bool,
    pub is_stereo: bool,
}

impl Default for Config {
    /// Both toggles start off.
    fn default() -> (c: Config)
        ensures
            !c.is_horizontal,
            !c.is_stereo,
    {
        Config { is_horizontal: false, is_stereo: false }
    }
}

impl Config {
    /// React to one key press: `q` requests shutdown, `r` flips the bar
    /// orientation, space flips the stereo split; every other key does
    /// nothing. Returns whether shutdown was requested.
    pub fn apply_key(&mut self, key: char) -> (quit: bool)
        ensures
            quit == (key == 'q'),
            final(self).is_horizontal == if key == 'r' {
                !old(self).is_horizontal
            } else {
                old(self).is_horizontal
            },
            final(self).is_stereo == if key == ' ' {
                !old(self).is_stereo
            } else {
                old(self).is_stereo
            },
    {
        if key == 'q' {
            true
        } else {
            if key == 'r' {
                self.is_horizontal = !self.is_horizontal;
            } else if key == ' ' {
                self.is_stereo = !self.is_stereo;
            }
            false
        }
    }
}

/// Playback progress in thousandths, clamped to `[0, 1000]`. A track of
/// unknown (zero) length counts as finished.
pub fn progress_permille(elapsed_ms: u64, total_ms: u64) -> (p: u64)
    ensures
        total_ms == 0 ==> p == 1000,
        total_ms > 0 ==> p == vstd::math::min(elapsed_ms * 1000 / total_ms as int, 1000),
{
    if total_ms == 0 {
        return 1000;
    }
    let scaled: u128 = (elapsed_ms as u128) * 1000;
    let q: u128 = scaled / (total_ms as u128);
    if q >= 1000 {
        1000
    } else {
        q as u64
    }
}

/// The height a band is drawn with: the amplitude itself, but never
/// below a small floor so every bar stays visible.
pub fn bar_value(amplitude: u64) -> (v: u64)
    ensures
        v == vstd::math::max(amplitude as int, 5),
{
    if amplitude >= 5 {
        amplitude
    } else {
        5
    }
}

} // verus!
