//! Binary codecs for a small set of chain values: a compact fixed-width form for
//! scalars and byte carriers, and an RLP form for structured records.

pub mod error;
pub mod fixed;
pub mod rlp_bytes;
pub mod types;

pub use error::CodecError;
pub use fixed::FixedCodec;
pub use rlp_bytes::{decode_data, decode_list, encode_data, encode_list};
pub use types::{Address, Hex, Metadata, ValidatorExtend};
