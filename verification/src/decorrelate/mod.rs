pub mod cross_track;
pub mod stereo;
pub mod dag;
pub mod klt;
