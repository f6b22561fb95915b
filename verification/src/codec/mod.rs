//! The data codec: modes and segments, the encoder and the decoder.
pub mod charset;
pub mod decoder;
pub mod encoder;
pub mod kanji;
pub mod roundtrip;
pub mod stream;
pub mod types;

pub use types::{Mode, Segment, MODES, PADDING_CODEWORDS};
