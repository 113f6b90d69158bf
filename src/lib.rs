//! Editing core of a terminal code editor: text buffers with cursor,
//! selection, undo and search, and a tiled layout of panes.
pub mod selection;
pub mod text;
pub mod undo;
pub mod buffer;
pub mod buffer_manager;
pub mod indent;
pub mod comment;
pub mod search;
pub mod brackets;
pub mod split;
pub mod cursor;
pub mod theme;
pub mod config;
pub mod diff;
