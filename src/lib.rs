//! Engine of a terminal text editor: text storage with undo/redo, cursor and
//! viewport, mode dispatch and a terminal compositor.

pub mod geometry;
pub mod text;
pub mod util;
pub mod color;
pub mod input;
pub mod draw;
pub mod view;
pub mod editor;
