pub mod schema;

pub use schema::{Fade, FadeShape, GainPoint, MuteRegion, TrackEdits};
