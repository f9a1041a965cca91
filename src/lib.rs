//! Binary codec for the nodes and the manifest of a versioned radix-16 Merkle tree.
//!
//! Four entities are encoded: leaves, internal nodes, roots and the tree manifest. Each
//! encoder appends to a byte vector and cannot fail; each decoder reads a byte slice and
//! returns a [`DeserializeError`] on malformed input. The layouts are stated as
//! specification functions in [`layout`] and [`tags`], and the decoders and encoders are
//! proved against them. [`laws`] and [`tag_laws`] prove how the two sides relate.

pub mod args;
pub mod errors;
pub mod laws;
pub mod layout;
pub mod serialization;
pub mod tag_laws;
pub mod tags;
pub mod types;
pub mod varint;

pub use args::{AllArgs, ExecutionMode, RevertArgs, RunServerArgs, RunServerArgsFinal};
pub use errors::{DeserializeError, DeserializeErrorKind, ErrorContext, TagParseError};
pub use types::{
    ChildKind, ChildRef, InternalNode, Key, LeafNode, Manifest, Node, Root, TreeTags, ValueHash,
    CHILD_COUNT, HASH_SIZE, KEY_SIZE,
};
pub use varint::Leb128Error;
