//! Core storage and commit model of a versioned data repository engine:
//! a content-addressed version store, a Merkle commit tree with
//! vnode-sharded directories, a per-commit dir-hashes index for fast
//! path lookup, and a depth-aware node cache.

pub mod cache;
pub mod codec;
pub mod commit;
pub mod compare;
pub mod commit_merkle_tree;
pub mod content_validator;
pub mod db;
pub mod error;
pub mod fork;
pub mod hash;
pub mod node;
pub mod paths;
pub mod repo;
pub mod server_params;
pub mod store;
pub mod text;
pub mod tree;
pub mod tree_node;
