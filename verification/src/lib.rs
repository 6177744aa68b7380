//! A verified codec for the BCSV binary tabular file format: a 16-byte
//! header, a block of 12-byte field descriptors, a fixed-stride row-major
//! entry block, and a trailing deduplicated table of null-terminated strings.
//!
//! The [`bcsv::BCSV`] struct owns a whole table and offers the read and
//! write pipelines; [`types`] holds the header, descriptor and value
//! model; [`hash`] holds the name-hash recurrence;
//! [`string_table::StringTable`] assigns deduplicated string offsets; and
//! [`roundtrip`] proves that parsing a written image restores the table.

pub mod bcsv;
pub mod codec;
pub mod hash;
pub mod roundtrip;
pub mod sjis;
pub mod string_table;
pub mod text;
pub mod transform;
pub mod types;
