//! Reading and writing of Motorola S-record (SREC) files.
//!
//! An SREC file is a line-oriented, checksummed text encoding of a binary
//! memory image.  Each line is one record: an `S` marker, a type digit, a
//! byte count, an address or count field, an optional payload, and a one's
//! complement checksum.  This crate provides the record model
//! ([`Record`]), a parser ([`read_records`]), a generator
//! ([`generate_srec_file`]), and a memory-image builder ([`image::Image`])
//! that coalesces data writes into contiguous blocks for re-serialisation.
//!
//! The writer and the reader are inverses: [`laws`] states and proves that a
//! generated file reads back to exactly the records it was generated from.

pub mod checksum;
pub mod generate;
pub mod image;
pub mod laws;
pub mod reader;
pub mod record;
pub mod writer;

pub use reader::{read_records, Error as ReaderError};
pub use record::{Address, Address16, Address24, Address32, Count16, Count24, Data, Record};
pub use writer::generate_srec_file;
