//! Text and file formats: decimal numbers, PPM output, PNG and OBJ input.

pub mod decimal;
pub mod export;
pub mod import;
pub mod text;
