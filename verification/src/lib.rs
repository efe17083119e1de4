//! Minimal primitives for experimenting with ranked arithmetic coders.
pub mod bignum;
pub mod bits;
pub mod dyadic;

pub use dyadic::BigDyadic;
pub mod prefix;

pub use prefix::RankedPrefix;
pub mod coder;

pub use coder::Coder;
pub mod model;
pub mod partition;
pub mod serde_model;
pub mod jeffreys;
pub mod reference;
pub mod frontier;
pub mod frontier_reference;
pub mod critdash;

pub use jeffreys::JeffreysU8;
