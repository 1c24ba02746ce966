//! An editor core: a text buffer with undo and redo, an editor widget that
//! turns key events into edits and cursor moves, entity ids, and the integer
//! parts of glyph rasterization and atlas packing.
pub mod lines;
pub mod rope;
pub mod buffer;
pub mod editor;
pub mod entity;
pub mod glyph;
pub mod atlas;
pub mod input;
