//! Core of a PDF document generator: binary encoders, markup span
//! extraction, and the PDF object writer that assembles the final file
//! with its cross-reference table.

pub mod ascii85;
pub mod objects;
pub mod numfmt;
pub mod styles;
pub mod text;
pub mod winansi;
pub mod zlib;
