//! Text layout and glyph compositing onto an RGBA canvas.
pub mod canvas;
pub mod chars;
pub mod composite;
pub mod layout;
