//! Succinct data structures: bit-packed integer vectors and a rank index.

mod bits;
mod block_type;
mod int_vec;
mod rank;
mod select;
mod text;

pub use block_type::BlockType;
pub use int_vec::{IntVec, Iter};
pub use rank::RankSupport;
pub use select::{SelectSupport, SelectSupport0, SelectSupport1};
