//! Analysis of newline-delimited password corpora: byte classification,
//! `$HEX[...]` escaped-binary transcoding, mask derivation, charset-run
//! segmentation, and streaming frequency aggregation.

pub mod aggregate;
pub mod cgrams;
pub mod classes;
pub mod codec;
pub mod filtermask;
pub mod hex;
pub mod masks;
pub mod options;
pub mod report;
pub mod statsgen;
