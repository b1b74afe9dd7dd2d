//! EPUB reading and writing over in-memory byte buffers.
//!
//! `reader::parse` turns the bytes of an EPUB 2 or EPUB 3 file into a
//! `types::Document`; `writer::build` turns a `Document` into the bytes of an
//! EPUB 3 file (with a `toc.ncx` for EPUB 2 readers).

pub mod error;
pub mod types;
pub mod text;
pub mod paths;
pub mod xml;
pub mod zipio;
pub mod opf;
pub mod toc;
pub mod reader;
pub mod ident;
pub mod generator;
pub mod writer;
