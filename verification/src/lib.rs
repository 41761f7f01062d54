//! Codec for TIFF-style image-file-directory (IFD) chains.
//!
//! A stream holds a linked list of directories: each directory is a 16-bit
//! entry count followed by fixed 12-byte entries, and after each directory's
//! entries sits a 4-byte absolute offset naming where the next directory
//! starts, or zero to end the chain. Both big- and little-endian layouts are
//! supported, chosen per call. The codec works on in-memory byte streams;
//! reading a file into memory and writing it back out is the caller's job.

pub mod chain;
pub mod codec;
pub mod raw_ifd;
