//! A two-stage assembler for a small word-addressed RISC-style instruction
//! set: a decoder that parses source text into label-resolved instruction
//! records, and an encoder that turns each record into one 32-bit word.

pub mod decoder;
pub mod encoder;
pub mod text;
