//! A decoder for short binary instruction encodings that a disassembler left
//! unrecognized.  A text line holding an address, a colon and hexadecimal
//! byte groups is parsed into 16-bit raw words, the words are packed into one
//! integer per instruction width, the integer is matched against an ordered
//! table of bit templates, and the matched record is rendered as assembly-like
//! text that replaces the unresolved region of the line.

pub mod decode;
pub mod error;
pub mod insn;
pub mod parse;
pub mod render;
pub mod template;

pub use decode::decode;
pub use error::DecodeError;
pub use insn::Insn;
pub use parse::parse_insn;
pub use parse::parse_line;
