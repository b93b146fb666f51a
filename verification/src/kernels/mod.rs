//! The order in which numbers are combined.
//!
//! What a sum or a product of two numbers is, the caller says; which numbers are combined with
//! which, and in which order, is fixed here. The result of a long sum depends on it.
//!
//! - [`sums`]: sums by pairs.
//! - [`strides`]: rows, columns, products, and sums in turn.
//! - [`rows`]: rows changed number by number.
//! - [`matmul`]: products of matrices.
//! - [`norms`]: norms of rows.
//! - [`softmax`](mod@softmax): shares of numbers in their sum.
//! - [`conv`]: convolution along rows.
//! - [`delta`]: steps of a recurrent state.
//! - [`attention`]: attention over the tokens so far.
//! - [`rotation`]: rotations of pairs.
//! - [`exact`]: what all of these compute, where the arithmetic is exact.

pub mod attention;
pub mod conv;
pub mod delta;
pub mod exact;
pub mod matmul;
pub mod norms;
pub mod rotation;
pub mod rows;
pub mod softmax;
pub mod strides;
pub mod sums;

pub use attention::{attend, attend_heads, kv_head_of, score_tokens};
pub use conv::ssm_conv;
pub use delta::{delta_heads, gdn_fused_step};
pub use matmul::matmul_acc;
pub use norms::{l2_norm_rows, rmsnorm, rmsnorm_rows};
pub use rotation::{turn_halves, turn_heads, turn_neighbours};
pub use rows::{map_all, zip_all};
pub use softmax::softmax;
pub use strides::{chain, dot};
pub use sums::pairwise_sum;
