//! A verified core for a chunked, self-describing binary container format:
//! little-endian primitive codecs, a read-while-mirroring tee codec,
//! tagged and aligned sections, and a structured document model with
//! a reader and writer for the whole container.

pub mod error;
pub mod stream;
pub mod codec;
pub mod tee;
pub mod section;
pub mod model;
pub mod encode;
pub mod parse;
pub mod assemble;
pub mod laws;
