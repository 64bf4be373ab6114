//! Editing core of a text editor: a piece table over a read-only mapped
//! original plus an append-only add buffer, a B-tree line index kept in step
//! with it, and a two-level undo history with keystroke batching.

pub mod btree;
pub mod cursor;
pub mod document;
pub mod enums;
pub mod history;
pub mod errors;
pub mod lines;
pub mod mapped;
pub mod node;
pub mod piece;
pub mod piece_table;
pub mod scan;
pub mod state;
pub mod text;
