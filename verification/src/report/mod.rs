//! What the commands decide and lay out before anything is read from or written to the outside.

pub mod arguments;
pub mod binary;
pub mod compare;
pub mod inspect;
pub mod measure;
