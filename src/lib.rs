//! Packs a directory tree into one flat archive stream and unpacks it again.
//!
//! The archive is a sequence of frames, one per file: a header line
//! `====<path>|<tag>====\n` followed by the file's payload. Four modes decide
//! how payloads are written and whether the whole stream is compressed.
pub mod bytes;
pub mod decode;
pub mod encode;
pub mod filter;
pub mod format;
pub mod frame;
pub mod layers;
