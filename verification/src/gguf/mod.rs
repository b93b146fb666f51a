//! The GGUF container: header, metadata and the table of tensors.
//!
//! Everything is checked before a byte of weights is served. Lengths and counts read from the
//! file are held against its real size before anything is sized by them; offsets are held
//! against the alignment, the end of the file and each other. A ggml type that is not known
//! leaves a tensor without a size: none is guessed.
//!
//! - [`value`]: metadata values and their types.
//! - [`ggml_type`]: the table of tensor types.
//! - [`source`]: the primitive readers and what stands at a position of the file.
//! - [`metadata`]: lists, values and key-value pairs in the file.
//! - [`tensor_info`]: the entries of the tensor table.
//! - [`ranges`]: the checks on the places of the tensors' data.
//! - [`reader`]: the whole file.
//! - [`laws`]: what holds of every file that is accepted.

pub mod ggml_type;
pub mod laws;
pub mod metadata;
pub mod ranges;
pub mod reader;
pub mod source;
pub mod tensor_info;
pub mod value;

pub use ggml_type::{ggml_type_blocksize, ggml_type_name};
pub use ranges::GGUF_ALIGN;
pub use reader::{parse, GgufReader, WeightIndex};
pub use tensor_info::TensorMeta;
pub use value::{GgufArray, GgufValue, GgufValueType};
