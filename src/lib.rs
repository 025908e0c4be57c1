//! A small content-addressed object store in the style of a version-control
//! plumbing layer: object framing, tree encoding, hashing, compression and the
//! decisions of the tree and commit builders.
pub mod builder;
pub mod bytes;
pub mod codec;
pub mod order;
pub mod store;
pub mod tree;
