//! A local index of slide decks and PDFs.
//!
//! The index holds one item for each document under the linked
//! directories: the text of its slides or pages as previews, a snippet,
//! keywords, and what is needed to tell whether the file has changed. It
//! is built by scans, searched by queries, and kept in one state.
//!
//! - [`text`], [`keywords`], [`xml`] and [`pdf`] turn the content of a file
//!   into clean text, and [`extract`] turns that into an item.
//! - [`scan`] decides for every file of a scan whether its stored item
//!   still stands, and [`state`] applies the outcome of a scan, and every
//!   other operation, to the stored state.
//! - [`query`] takes queries apart and matches items against them.
//! - [`laws`] states what holds of whole scans.
//!
//! The library reads no file and runs no program. Its callers hand it
//! the bytes, the times and the output of the programs they ran.

pub mod chars;
pub mod digest;
pub mod error;
pub mod extract;
pub mod keywords;
pub mod laws;
pub mod models;
pub mod order;
pub mod pdf;
pub mod query;
pub mod scan;
pub mod state;
pub mod text;
pub mod tools;
pub mod xml;
