//! Verified core of a Patricia-Merkle tree committer: node indexing, skeleton
//! trees before and after an update, and the computation of the filled tree
//! with its hashes.
pub mod assoc;
pub mod bits;
pub mod uint256;
pub mod felt;
pub mod stark_felt;
pub mod hash;
pub mod leaf;
pub mod node_data;
pub mod types;
pub mod storage;
pub mod errors;
pub mod input;
pub mod filled_node;
pub mod original_skeleton;
pub mod entries;
pub mod updated_skeleton;
pub mod filled_tree;
pub mod skeleton_tree;
pub mod input_handle;
pub mod io_handle;
pub mod forest;
pub mod json;
pub mod leaf_serde;
pub mod deserialization;
pub mod random;
pub mod config;

pub use stark_felt::dummy;
