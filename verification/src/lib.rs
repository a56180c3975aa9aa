//! Turns the colorized text stream of a terminal-art renderer into a JSON
//! document of per-frame, per-pixel colored character cells.
//!
//! The library has three parts: a pixel decoder ([`decode`]) that reads one
//! escape-annotated text line into a row of colored cells, a frame assembler
//! ([`assemble`]) that batches rows into fixed-height frames under a frame
//! cap, and a JSON writer ([`json`]) that serializes the finished document.
//! Reading the renderer's stream and writing the output file are the
//! caller's business: the library works on lines in and text out.

pub mod assemble;
pub mod chars;
pub mod decode;
pub mod json;
