//! The types of tokens that a vocabulary tells apart.

use vstd::prelude::*;

verus! {

/// A piece of text.
pub const NORMAL: i32 = 1;

/// What stands for the unknown; silent.
pub const UNKNOWN: i32 = 2;

/// A sign to the model; silent.
pub const CONTROL: i32 = 3;

/// A text that stands for itself.
pub const USER_DEFINED: i32 = 4;

/// Not used; silent.
pub const UNUSED: i32 = 5;

/// A single byte.
pub const BYTE: i32 = 6;

} // verus!
