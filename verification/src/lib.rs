pub mod compressor;
pub mod errors;
pub mod hash;

pub use crate::compressor::{Coordinate, Vinf, compress, decompress};
pub use crate::errors::Error;
pub use crate::hash::{
    Graph as VinfGraph, NODE_DIGEST_BYTES, Node as VinfNode, basic_hash, build_vinf_hash,
};

use vstd::prelude::*;

verus! {

/// Version of this library.
pub const VINF_LIB_VERSION: &'static str = "0.1.0";

} // verus!
