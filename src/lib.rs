//! Navigation index for a tree of documents: selects the documents found
//! under a root directory, rebuilds their directory hierarchy as a forest,
//! and renders every path as a forward-slash string for a client.
pub mod normalize;
pub mod paths;
pub mod tree;
mod forest_proofs;
pub mod dto;
pub mod discovery;
pub mod nav;
pub mod server_state;
