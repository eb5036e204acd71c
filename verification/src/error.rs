//! Error types of the library.
use vstd::prelude::*;

use crate::cid::Cid;

verus! {

/// Error raised when a structured value does not have the expected shape.
#[derive(Debug, Clone, PartialEq, Eq, Structural)]
pub enum IpldError {
    /// Expected a boolean.
    NotBool,
    /// Expected an integer.
    NotInteger,
    /// Expected a string.
    NotString,
    /// Expected bytes.
    NotBytes,
    /// Expected a list.
    NotList,
    /// Expected a map.
    NotMap,
    /// Expected a link.
    NotLink,
    /// Expected a key.
    NotKey,
    /// Index not found.
    IndexNotFound,
    /// Key not found.
    KeyNotFound,
}

/// Reasons the canonical codec rejects a value or a byte sequence.
#[derive(Debug, Clone, PartialEq, Eq, Structural)]
pub enum CodecFault {
    /// An integer lies outside the range an encoding head can carry.
    NumberOutOfRange,
    /// Map keys are not in strictly increasing byte order.
    KeysUnsorted,
    /// The bytes do not follow the canonical form.
    Malformed,
    /// The bytes end before the value does.
    Eof,
    /// Bytes remain after the value's end.
    Trailing,
    /// A text string does not hold valid UTF-8.
    Utf8,
    /// A link is not in the canonical binary form.
    Link,
}

/// Error raised while validating, encoding or decoding a block.
#[derive(Debug, Clone, PartialEq, Eq)]
pub enum BlockError {
    /// The block's size exceeds the store's maximum block size.
    BlockTooLarge(usize),
    /// The digest recomputed from the block's bytes differs from the one the
    /// CID carries; the payload is the recomputed digest.
    InvalidHash(Vec<u8>),
    /// The codec id is not recognized by the codec registry.
    UnsupportedCodec(u64),
    /// The multihash code is not in the digest function table.
    UnsupportedMultihash(u64),
    /// The codec rejected the value or the bytes.
    CodecError(CodecFault),
    /// A link is malformed.
    InvalidLink,
}

/// Error raised by a store operation.
#[derive(Debug, Clone, PartialEq, Eq)]
pub enum StoreError {
    /// No block is stored under the identifier.
    BlockNotFound(Cid),
    /// A batch insert was handed no blocks.
    EmptyBatch,
    /// A block's bytes were rejected while decoding at insert time.
    Block(BlockError),
}

} // verus!
