//! A grid-document editor core: a rectangular table of text cells with a
//! cursor, structural edits, range sorts, a delimited text format, and
//! snapshot-based linear undo/redo.
//!
//! The grid itself lives in [`sheet`], its text format in [`sheet_text`]
//! and its column sorts in [`sheet_sort`]. The document — the grid plus
//! its snapshot history, file path and dirty flag — lives in [`sheetdata`].
//! The viewport computation, the configuration store, the command
//! tokenizer and the text utilities they all share fill out the rest.

pub mod command;
pub mod configdata;
pub mod numtext;
pub mod order;
pub mod remdata;
pub mod sheet;
pub mod sheet_sort;
pub mod sheet_text;
pub mod sheetdata;
pub mod text;
pub mod viewport;
