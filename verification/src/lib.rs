//! An embedded, single-file, page-oriented relational storage engine
//! together with the SQL front-end that produces its inputs: a
//! fixed-size-page file format with per-page checksums, a clock-replacement
//! page cache, slotted table pages (leaf and interior), record
//! serialization, and a lexer and Pratt parser for `SELECT`, `INSERT` and
//! `CREATE TABLE`.

pub mod ast;
pub mod byteops;
pub mod cache;
pub mod checksum;
pub mod disk;
pub mod error;
pub mod header;
pub mod interior;
pub mod layout;
pub mod leaf;
pub mod lexer;
pub mod parser;
pub mod record;
pub mod sql_error;
pub mod table_page;
pub mod token;
pub mod types;
pub mod varint;
