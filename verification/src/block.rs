//! Blocks and their validation: a block is a pair of an identifier and
//! bytes, valid when the identifier's digest is the digest of the bytes.
use vstd::prelude::*;

use crate::cbor;
use crate::cbor::{cid_bytes, dec, enc, encodable};
use crate::cid::{Cid, CidV, DAG_CBOR, RAW, SHA2_256};
use crate::error::BlockError;
use crate::ipld::{links_of, Ipld, IpldV};

verus! {

/// The largest number of bytes a block may hold.
pub const MAX_BLOCK_SIZE: usize = usize::MAX;

/// A pair of a content identifier and the addressed bytes.
#[derive(Debug, Clone, PartialEq, Eq)]
pub struct Block {
    /// The identifier of the bytes.
    pub cid: Cid,
    /// The bytes.
    pub data: Vec<u8>,
}

/// The SHA-256 digest of a byte sequence.
pub uninterp spec fn sha256_of(data: Seq<u8>) -> Seq<u8>;

/// Relies on sha2::Sha256::digest: the 32-byte digest is a function of the
/// bytes alone.
#[verifier::external_body]
fn sha256(data: &[u8]) -> (r: Vec<u8>)
    ensures
        r@ == sha256_of(data@),
        r@.len() == 32,
{
    <sha2::Sha256 as sha2::Digest>::digest(data).to_vec()
}

/// Whether an identifier correctly addresses the given bytes: the bytes fit
/// the size bound, the digest function is in the table, and recomputing the
/// digest gives the digest the identifier carries.
pub open spec fn valid_block(c: CidV, d: Seq<u8>) -> bool {
    &&& d.len() <= MAX_BLOCK_SIZE
    &&& c.hash_code == SHA2_256
    &&& c.digest == sha256_of(d)
}

/// Checks that an identifier correctly addresses the given bytes.
pub fn validate(cid: &Cid, data: &Vec<u8>) -> (r: Result<(), BlockError>)
    ensures
        r is Ok <==> valid_block(cid@, data@),
        match r {
            Ok(()) => true,
            Err(e) => match e {
                BlockError::BlockTooLarge(n) => n == data@.len() && data@.len() > MAX_BLOCK_SIZE,
                BlockError::UnsupportedMultihash(code) => data@.len() <= MAX_BLOCK_SIZE && code
                    == cid@.hash_code && cid@.hash_code != SHA2_256,
                BlockError::InvalidHash(h) => data@.len() <= MAX_BLOCK_SIZE && cid@.hash_code
                    == SHA2_256 && h@ == sha256_of(data@) && cid@.digest != sha256_of(data@),
                _ => false,
            },
        },
{
    if data.len() > MAX_BLOCK_SIZE {
        return Err(BlockError::BlockTooLarge(data.len()));
    }
    if cid.hash_code() != SHA2_256 {
        return Err(BlockError::UnsupportedMultihash(cid.hash_code()));
    }
    let hash = sha256(data.as_slice());
    if crate::cid::bytes_equal(&hash, cid.digest()) {
        Ok(())
    } else {
        Err(BlockError::InvalidHash(hash))
    }
}

/// Wraps bytes as a block under the raw codec, addressed by their SHA-256
/// digest.
pub fn create_raw_block(data: Vec<u8>) -> (r: Result<Block, BlockError>)
    ensures
        match r {
            Ok(b) => {
                &&& b.data@ == data@
                &&& b.cid@ == (CidV {
                    version: 1,
                    codec: RAW,
                    hash_code: SHA2_256,
                    digest: sha256_of(data@),
                })
                &&& valid_block(b.cid@, b.data@)
            },
            Err(e) => e == BlockError::BlockTooLarge(data@.len() as usize) && data@.len()
                > MAX_BLOCK_SIZE,
        },
{
    if data.len() > MAX_BLOCK_SIZE {
        return Err(BlockError::BlockTooLarge(data.len()));
    }
    let hash = sha256(data.as_slice());
    let cid = Cid::new_v1(RAW, SHA2_256, hash);
    Ok(Block { cid, data })
}

/// Serializes a value under the canonical CBOR codec and addresses the
/// bytes by their SHA-256 digest.
pub fn create_cbor_block(v: &Ipld) -> (r: Result<Block, BlockError>)
    ensures
        match r {
            Ok(b) => {
                &&& encodable(v@)
                &&& b.data@ == enc(v@)
                &&& b.cid@ == (CidV {
                    version: 1,
                    codec: DAG_CBOR,
                    hash_code: SHA2_256,
                    digest: sha256_of(enc(v@)),
                })
                &&& valid_block(b.cid@, b.data@)
            },
            Err(e) => !encodable(v@) || enc(v@).len() > MAX_BLOCK_SIZE,
        },
{
    let data = match cbor::encode(v) {
        Ok(d) => d,
        Err(e) => {
            return Err(e);
        },
    };
    if data.len() > MAX_BLOCK_SIZE {
        return Err(BlockError::BlockTooLarge(data.len()));
    }
    let hash = sha256(data.as_slice());
    let cid = Cid::new_v1(DAG_CBOR, SHA2_256, hash);
    Ok(Block { cid, data })
}

/// The value a block's bytes decode to under the codec its identifier
/// declares: raw bytes decode to themselves, canonical CBOR through the
/// codec; other codec ids decode to nothing.
pub open spec fn ipld_of(c: CidV, d: Seq<u8>) -> Option<IpldV> {
    if c.codec == RAW {
        Some(IpldV::Bytes(d))
    } else if c.codec == DAG_CBOR {
        match dec(d) {
            Some((v, consumed)) => if consumed == d.len() {
                Some(v)
            } else {
                None
            },
            None => None,
        }
    } else {
        None
    }
}

/// Decodes a block's bytes under the codec its identifier declares.
pub fn decode_ipld(cid: &Cid, data: &Vec<u8>) -> (r: Result<Ipld, BlockError>)
    ensures
        match r {
            Ok(v) => ipld_of(cid@, data@) == Some(v@),
            Err(e) => {
                &&& ipld_of(cid@, data@) is None
                &&& (cid@.codec != RAW && cid@.codec != DAG_CBOR ==> e
                    == BlockError::UnsupportedCodec(cid@.codec))
                &&& (cid@.codec == DAG_CBOR ==> e matches BlockError::CodecError(_))
            },
        },
{
    let codec = cid.codec();
    if codec == RAW {
        Ok(Ipld::Bytes(data.clone()))
    } else if codec == DAG_CBOR {
        cbor::decode(data)
    } else {
        Err(BlockError::UnsupportedCodec(codec))
    }
}

/// The set of links the block's decoded value holds, or the empty set where
/// the bytes do not decode.
pub open spec fn links_in_block(c: CidV, d: Seq<u8>) -> Set<CidV> {
    match ipld_of(c, d) {
        Some(v) => links_of(v),
        None => Set::empty(),
    }
}

} // verus!
