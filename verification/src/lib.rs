//! A content-addressed block store for linked, self-describing data.
//!
//! Blocks are opaque byte sequences addressed by a content identifier (CID)
//! that combines a codec tag with a multihash of the bytes. Structured
//! values decoded from block bytes may embed links to other blocks, forming
//! a directed acyclic graph. The store validates and ingests blocks,
//! maintains the reference graph between them, and controls block lifetime
//! through explicit pins, named aliases and the links of retained blocks.

pub mod block;
pub mod cbor;
pub mod cid;
pub mod error;
pub mod gc;
pub mod ipld;
pub mod cache;
pub mod mem;
pub mod store;

pub use cid::Cid;
pub use error::{BlockError, IpldError};
pub use ipld::Ipld;
