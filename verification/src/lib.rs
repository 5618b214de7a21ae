//! Decoder for the block-compressed bitmaps and the archive directory
//! entries of the JAM asset format.

pub mod error;
pub mod cursor;
pub mod expand;
pub mod expand_lemmas;
pub mod rows;
pub mod stream;
pub mod stream_lemmas;
pub mod bmp;
pub mod archive;
