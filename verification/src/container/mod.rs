pub mod frame;
pub mod bytes;
pub mod header;
pub mod seek_index;
pub mod flac_metadata;
pub mod padding_block;
pub mod picture_block;
pub mod metadata_tags;
pub mod session;
pub mod block_decode;
pub mod session_read;
pub mod session_frames;
pub mod edit_block;
pub mod frame_roundtrip;
pub mod session_meta;
pub mod session_audio;
pub mod session_roundtrip;
pub mod readable;
