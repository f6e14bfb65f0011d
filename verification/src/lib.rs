use vstd::prelude::*;

pub mod build_info;
pub mod bytes;
pub mod chars;
pub mod config;
pub mod dsv;
pub mod block_table;
pub mod encoding;
pub mod span_header;
pub mod zlib;
pub mod text;
pub mod tvfs;
pub mod idx;
pub mod entry;
pub mod error;
pub mod file;
pub mod file_info;
pub mod path_flags;
pub mod root_handler;
pub mod span_info;
pub mod storage;

pub use error::CascError;
