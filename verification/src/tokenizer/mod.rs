//! Byte-level BPE tokens, with the vocabulary and merges of a GGUF file.
//!
//! Encoding splits the raw text into words, writes each word's UTF-8 bytes as letters of the
//! byte table, merges neighbouring symbols by rank, and looks the symbols up. What is not in the
//! vocabulary is tried letter by letter; a letter that is missing too is refused, since it means
//! a corrupt vocabulary. Decoding is the inverse: control, unknown and unused tokens are
//! silent, user-defined ones stand for themselves, all others go back through the byte table.
//!
//! - [`byte_table`]: bytes as printable letters.
//! - [`classes`]: letters, numbers, marks and white space.
//! - [`split`]: the words of a text.
//! - [`bpe`]: merging symbols by rank.
//! - [`gpt2`]: the tokenizer.
//! - [`from_gguf`]: the tokenizer of a file.
//! - [`laws`]: encoding and decoding undo each other.
//! - [`pattern`]: words by the published patterns.

pub mod bpe;
pub mod byte_table;
pub mod classes;
pub mod from_gguf;
pub mod gpt2;
pub mod laws;
pub mod pattern;
pub mod split;
pub mod token_type;
