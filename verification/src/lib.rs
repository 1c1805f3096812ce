//! A read-only query engine for the single-file embedded relational
//! database format: a page decoder, a record decoder, and the B-tree
//! traversals that answer row counts, full table scans and index-assisted
//! lookups directly from the on-disk pages.
//!
//! Every byte-level decoder carries an exact specification of the format
//! it reads, and the executors are specified against those models. The
//! front-end (argument handling, file reading, SQL parsing and printing)
//! lives outside this crate and hands the engine plain values.
//!
//! Floating point stays outside the library by design: a float field
//! decodes to its eight raw big-endian bytes, stated as such in the
//! record contracts, and any numeric rendering is the front-end's.

pub mod byte_cursor;
pub mod data_filter_processor;
pub mod errors;
pub mod numtext;
pub mod page;
pub mod page_reader;
pub mod page_type;
pub mod parser;
pub mod schema;
pub mod varint;
