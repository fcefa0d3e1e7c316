//! Indexing of a music collection. The tags of FLAC and MP3 files become
//! normalized records, a walk through a directory tree groups the records by
//! folder and counts the failures of the file system, and the result is
//! written as one MessagePack envelope.
//!
//! The library touches no file. Whoever uses it lists the directories and
//! reads the tags that the walker asks for, and writes the envelope out.

pub mod data;
pub mod decode;
pub mod encode;
pub mod error;
pub mod extract;
pub mod number;
pub mod report;
pub mod tree;
pub mod walker;
pub mod wire;
