//! Core of a terminal audio visualizer: a bounded single-producer /
//! single-consumer sample channel, window extraction, frequency-band
//! bucketing, temporal smoothing of the displayed amplitudes, and a
//! timestamped-lyric cursor.

pub mod bands;
pub mod channel;
pub mod control;
pub mod lyrics;
pub mod smooth;
pub mod window;

pub use bands::FreqBin;
pub use bands::bucket;
pub use channel::SampleChannel;
pub use control::Config;
pub use control::bar_value;
pub use control::progress_permille;
pub use lyrics::get_lyric_at_time;
pub use lyrics::parse_lrc_file;
pub use lyrics::parse_time;
pub use smooth::eased;
pub use smooth::smooth;
pub use smooth::smooth_frame;
pub use window::extract_window;
pub use window::window_bounds;
