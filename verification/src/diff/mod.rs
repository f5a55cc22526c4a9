pub mod apply;
pub mod container;
pub mod encode;

pub use apply::apply_diff;
pub use container::{FrameInstruction, SessionDiff, TrackDiff};
pub use encode::{encode_diff, extract_raw_frames};
