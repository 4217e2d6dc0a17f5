//! Document model, readers, renderers and viewer state for a terminal
//! document viewer (DOCX and Markdown), with their behaviour stated as
//! contracts and proved by Verus.

pub mod style;
pub mod document;
pub mod text;
pub mod xml;
pub mod docx;
pub mod markdown;
pub mod width;
pub mod config;
pub mod render;
pub mod table;
pub mod columns;
pub mod grid;
pub mod dump;
pub mod viewer;
pub mod formats;
pub mod screen;
pub mod archive;
