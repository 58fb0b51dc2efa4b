//! Encoding and decoding of the ANSI-art picture format: a parser for the
//! colored text the picture is drawn in, the removal of repeated colors, the
//! compact byte encoding with its lookup tables, and the decoder that turns the
//! encoding back into terminal text.

pub mod text;
pub mod ansi;
pub mod parse;
pub mod dedupe;
pub mod mapping;
pub mod encode;
pub mod picture;
pub mod inflate;
