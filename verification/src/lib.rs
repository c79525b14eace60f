//! Streaming archive pipeline for a directory server: a lazy directory walk,
//! tar and zip encoders that emit their output piece by piece, a bounded
//! bridge between the encoding producer and the network-facing consumer, and
//! the response bookkeeping around them.

pub mod archive;
pub mod bridge;
pub mod collector;
pub mod crc32;
pub mod dostime;
pub mod encoding;
pub mod entry;
pub mod lexical;
pub mod producer;
pub mod response;
pub mod startup;
pub mod tar;
pub mod tar_reader;
pub mod terminal;
pub mod walk_laws;
pub mod zip;
pub mod zip_reader;
