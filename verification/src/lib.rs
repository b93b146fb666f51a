//! The decision-making core of an inference runtime for quantised language models: reading a
//! GGUF container, splitting and merging text into tokens, checking a model against its own
//! configuration, planning memory, and choosing the next token.
//!
//! One rule runs through all of it: refuse rather than guess. A field that is missing, a size
//! that does not add up or a type that is not known is an error with a message, never a default.
//! The contracts say for every input which answer, or which refusal, comes back.
//!
//! Floating point is carried as bit patterns here ([`ieee`]). Where numbers are computed with,
//! the arithmetic is a parameter, and what is fixed is which numbers meet and in which order
//! ([`kernels`], [`packed`], [`wiring`]). Files, memory maps and the command line are the
//! application's part.

pub mod arch;
pub mod budget;
pub mod dataflow;
pub mod engine;
pub mod error;
pub mod forward;
pub mod gguf;
pub mod greedy;
pub mod ieee;
pub mod kernels;
pub mod layers;
pub mod order;
pub mod packed;
pub mod plan;
pub mod products;
pub mod quants;
pub mod qwen35;
pub mod report;
pub mod session;
pub mod tensor;
pub mod text;
pub mod tokenizer;
pub mod units;
pub mod weights;
pub mod wiring;
