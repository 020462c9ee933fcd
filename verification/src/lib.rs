//! Text-storage engine for an interactive editor: a persistent chunk tree,
//! snapshot-pinned byte cursors, streaming overlapping search windows, a
//! sparse line-index cache, and a buffer facade tying them together.
pub mod ansi;
pub mod buffer;
pub mod chunks;
pub mod cursor;
pub mod cursors;
pub mod line_cache;
pub mod lines;
pub mod session;
pub mod store;
pub mod suggest;
pub mod text;
pub mod tree;
pub mod window;
