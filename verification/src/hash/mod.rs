pub mod encoding;
pub mod graph;
pub mod layers;
pub mod node_order;
pub mod permutation;
pub mod sorting;
pub mod sponge;

pub use self::encoding::encode_u64_le;
pub use self::graph::{Edge, Graph, Node, build_vinf_hash};
pub use self::layers::{
    LAYER_SIZES, Layer, get_layer_slice, partial_layer_match, partial_match_up_to,
};
pub use self::permutation::{NODE_DIGEST_BYTES, R_P, ROT, vinf_p};
pub use self::sponge::{
    DOMAIN_FINAL, DOMAIN_MIX, DOMAIN_NODE, DOMAIN_NONE, RATE_BYTES, absorb, basic_hash,
    gen_round_constants, h_node, squeeze, xof_bytes,
};
