//! This codec takes a large number space (u128) and reduces it to a compact number space.
//!
//! It will find spaces in the number range. For example:
//!
//! 100, 101, 102, 103, 104, 50000, 50001
//! could be mapped to
//! 100..=104 -> 1..=5
//! 50000..=50001 -> 6..=7
//!
//! 0 is kept for missing values. Compact space 0..=7 requires much less bits than 100..=50001
//!
//! The codec is created to compress ip addresses, but may be employed in other use cases.
pub mod bitpack;
pub mod bits;
pub mod builder;
pub mod compressor;
pub mod cutting;
pub mod decompressor;
pub mod error;
pub mod ip;
pub mod laws;
pub mod order;
pub mod params;
pub mod space;
pub mod wire;

pub use crate::builder::get_compact_space;
pub use crate::compressor::{ColumnWriter, CompactSpaceCompressor};
pub use crate::decompressor::CompactSpaceDecompressor;
pub use crate::error::CodecError;
pub use crate::ip::{ip_to_u128, IpAddr};
pub use crate::params::IPCodecParams;
pub use crate::space::{CompactSpace, RangeMapping};
