//! Content identifiers: self-describing addresses of blocks.
use vstd::prelude::*;

verus! {

/// Codec id of raw byte blocks.
pub const RAW: u64 = 0x55;
/// Codec id of the canonical CBOR codec for linked data.
pub const DAG_CBOR: u64 = 0x71;
/// Codec id of the JSON codec for linked data.
pub const DAG_JSON: u64 = 0x0129;
/// Codec id implied by version 0 identifiers.
pub const DAG_PB: u64 = 0x70;

/// Multihash code of SHA-256.
pub const SHA2_256: u64 = 0x12;

/// Mathematical model of a content identifier.
pub struct CidV {
    /// Identifier format version, 0 or 1.
    pub version: u64,
    /// Codec id of the addressed block's bytes.
    pub codec: u64,
    /// Code of the digest function in the multihash.
    pub hash_code: u64,
    /// Digest bytes of the multihash.
    pub digest: Seq<u8>,
}

/// A content identifier: the triple of a format version, a codec id and a
/// multihash, where the multihash pairs a digest function code with the
/// digest of the addressed bytes.
#[derive(Debug, PartialEq, Eq, Hash)]
pub struct Cid {
    version: u64,
    codec: u64,
    hash_code: u64,
    digest: Vec<u8>,
}

impl View for Cid {
    type V = CidV;

    closed spec fn view(&self) -> CidV {
        CidV {
            version: self.version,
            codec: self.codec,
            hash_code: self.hash_code,
            digest: self.digest@,
        }
    }
}

impl Clone for Cid {
    /// Clones an identifier; the copy models the same identifier.
    fn clone(&self) -> (r: Self)
        ensures
            r@ == self@,
    {
        let r = Cid {
            version: self.version,
            codec: self.codec,
            hash_code: self.hash_code,
            digest: self.digest.clone(),
        };
        assert(r@ =~= self@);
        r
    }
}

impl Cid {
    /// Builds a version 1 identifier from its parts.
    pub fn new_v1(codec: u64, hash_code: u64, digest: Vec<u8>) -> (r: Cid)
        ensures
            r@ == (CidV { version: 1u64, codec, hash_code, digest: digest@ }),
    {
        Cid { version: 1, codec, hash_code, digest }
    }

    /// Builds a version 0 identifier, which always carries a SHA-256
    /// multihash and addresses protobuf-coded bytes.
    pub fn new_v0(digest: Vec<u8>) -> (r: Cid)
        ensures
            r@ == (CidV { version: 0u64, codec: DAG_PB, hash_code: SHA2_256, digest: digest@ }),
    {
        Cid { version: 0, codec: DAG_PB, hash_code: SHA2_256, digest }
    }

    /// The identifier's format version.
    pub fn version(&self) -> (r: u64)
        ensures
            r == self@.version,
    {
        self.version
    }

    /// The codec id the identifier declares for its block's bytes.
    pub fn codec(&self) -> (r: u64)
        ensures
            r == self@.codec,
    {
        self.codec
    }

    /// The code of the digest function of the multihash.
    pub fn hash_code(&self) -> (r: u64)
        ensures
            r == self@.hash_code,
    {
        self.hash_code
    }

    /// The digest bytes of the multihash.
    pub fn digest(&self) -> (r: &Vec<u8>)
        ensures
            r@ == self@.digest,
    {
        &self.digest
    }

    /// Decides equality of two identifiers.
    pub fn equals(&self, other: &Cid) -> (r: bool)
        ensures
            r == (self@ == other@),
    {
        if self.version != other.version
            || self.codec != other.codec
            || self.hash_code != other.hash_code
        {
            return false;
        }
        if bytes_equal(&self.digest, &other.digest) {
            assert(self@ =~= other@);
            true
        } else {
            false
        }
    }
}

/// Decides equality of two byte vectors.
pub fn bytes_equal(a: &Vec<u8>, b: &Vec<u8>) -> (r: bool)
    ensures
        r == (a@ == b@),
{
    if a.len() != b.len() {
        assert(a@ != b@);
        return false;
    }
    let n: usize = a.len();
    let mut i: usize = 0;
    while i < n
        invariant
            n == a@.len() == b@.len(),
            i <= n,
            forall|j: int| 0 <= j < i ==> a@[j] == b@[j],
        decreases n - i,
    {
        if a[i] != b[i] {
            return false;
        }
        i += 1;
    }
    assert(a@ =~= b@);
    true
}

} // verus!
