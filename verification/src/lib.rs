//! A minimal content-addressable object store: identifiers, the object
//! envelope, tree and commit payloads, and an in-memory staging store.

pub mod buffer;
pub mod builder;
pub mod codec;
pub mod commit;
pub mod deflate;
pub mod digits;
pub mod error;
pub mod hexcode;
pub mod order;
pub mod reader;
pub mod scan;
pub mod sha1hash;
pub mod store;
pub mod text;
pub mod tree;
