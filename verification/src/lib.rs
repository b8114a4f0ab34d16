//! A read-only decoder for ESE (Extensible Storage Engine) database images.
//!
//! The database is handed over as the bytes of the file. Pages are served by a
//! pager with a two-queue page cache; on top of it stand the page decoder, the
//! tree walker, the catalog loader, the long-value index, the record decoder
//! and a cursor interface over tables, rows and columns.

pub mod bytes;
pub mod cache;
pub mod catalog;
pub mod cursor;
pub mod error;
pub mod ese_parser;
pub mod gen_db;
pub mod gen_laws;
pub mod jet;
pub mod long_value;
pub mod page;
pub mod reader;
pub mod record;
pub mod row_laws;
pub mod tree;
