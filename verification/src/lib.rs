//! Verified bitstream codecs and string table rewriting for Source 2 demo files.
#![allow(unused_imports)]

pub mod error;
pub mod bits;
pub mod writer;
pub mod varint;
pub mod reader;
pub mod roundtrip;
pub mod compression;
pub mod message;
pub mod entry;
pub mod string_table;
pub mod table_laws;
pub mod rewrite;
pub mod table_update;
pub mod packet;
pub mod packet_rewrite;
pub mod demo_run;
pub mod entity_splice;
pub mod field_path;
pub mod text;
pub mod type_utils;
pub mod observer;
pub mod field_type;
pub mod codec;
pub mod locality;
pub mod preserve_laws;


pub use error::ParserError;
pub use writer::BitstreamWriter;
pub use reader::SliceReader;

