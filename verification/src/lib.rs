//! Conversion of tabular data to SPSS system files.
//!
//! The library infers the types of the columns from the text of the
//! fields (`schema`), lays out the dictionary of a system file
//! (`dictionary`) and encodes the rows either with byte-code compression
//! (`sav_writer`, `compress`) or with zlib compression (`zsav_writer`,
//! `zsav`). `converter` leads from the records of a source to the bytes of
//! a file. The library reads and writes no files: it takes texts and
//! numbers and gives bytes. `reader` states what a reader makes of the
//! data and proves that it is what was written.
//!
//! Numbers are taken as the bit patterns of IEEE 754 doubles (`ieee`).
//! Every function states what it returns as a contract over byte
//! sequences, and the contracts are proved.

pub mod bytes;
pub mod compress;
pub mod converter;
pub mod dictionary;
pub mod error;
pub mod ieee;
pub mod literal;
pub mod reader;
pub mod row;
pub mod sav_writer;
pub mod schema;
pub mod text;
pub mod zsav;
pub mod zsav_writer;
