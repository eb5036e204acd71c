//! Tests of the block store: retention, link extraction, aliasing and the
//! transactional cache.
use libipld::block::{create_cbor_block, create_raw_block, decode_ipld, validate, Block};
use libipld::cache::IpldCache;
use libipld::cid::{Cid, DAG_CBOR, RAW, SHA2_256};
use libipld::error::{BlockError, CodecFault, StoreError};
use libipld::gc::{closure, dead_paths, references};
use libipld::mem::MemStore;
use libipld::store::{dyn_alias, query, PathSegment};
use libipld::Ipld;

fn sha256(data: &[u8]) -> Vec<u8> {
    <sha2::Sha256 as sha2::Digest>::digest(data).to_vec()
}

fn dict(entries: Vec<(&str, Ipld)>) -> Ipld {
    Ipld::Dict(entries.into_iter().map(|(k, v)| (k.to_string(), v)).collect())
}

fn insert_value(store: &mut MemStore, v: &Ipld) -> Cid {
    let block = create_cbor_block(v).unwrap();
    let cid = block.cid.clone();
    store.insert(&cid, block.data).unwrap();
    cid
}

fn present(store: &MemStore, cid: &Cid) -> bool {
    store.get(cid).is_ok()
}

#[test]
fn test_alias() {
    assert_eq!(
        dyn_alias("libipld::store::tests::aliases::CHAIN_ALIAS", 3).as_str(),
        "libipld::store::tests::aliases::CHAIN_ALIAS::3"
    );
    assert_eq!(dyn_alias("a::b", 0).as_str(), "a::b::0");
    assert_eq!(dyn_alias("x", 1234567890).as_str(), "x::1234567890");
}

#[test]
fn test_gc() {
    let mut store = MemStore::new();
    let a = insert_value(&mut store, &dict(vec![("a", Ipld::List(vec![]))]));
    let b = insert_value(
        &mut store,
        &dict(vec![("b", Ipld::List(vec![Ipld::Link(a.clone())]))]),
    );
    store.unpin(&a).unwrap();
    let c = insert_value(
        &mut store,
        &dict(vec![("c", Ipld::List(vec![Ipld::Link(a.clone())]))]),
    );
    assert!(present(&store, &a));
    assert!(present(&store, &b));
    assert!(present(&store, &c));
    store.unpin(&b).unwrap();
    assert!(present(&store, &a));
    assert!(!present(&store, &b));
    assert!(present(&store, &c));
    store.unpin(&c).unwrap();
    assert!(!present(&store, &a));
    assert!(!present(&store, &b));
    assert!(!present(&store, &c));
}

#[test]
fn test_gc_2() {
    let mut store = MemStore::new();
    let a = insert_value(&mut store, &dict(vec![("a", Ipld::List(vec![]))]));
    let b = insert_value(
        &mut store,
        &dict(vec![("b", Ipld::List(vec![Ipld::Link(a.clone())]))]),
    );
    store.unpin(&a).unwrap();
    // the same value encodes to the same bytes, so this is the same block
    let c = insert_value(
        &mut store,
        &dict(vec![("b", Ipld::List(vec![Ipld::Link(a.clone())]))]),
    );
    assert_eq!(b, c);
    assert!(present(&store, &a));
    assert!(present(&store, &b));
    assert!(present(&store, &c));
    store.unpin(&b).unwrap();
    assert!(present(&store, &a));
    assert!(present(&store, &b));
    assert!(present(&store, &c));
    store.unpin(&c).unwrap();
    assert!(!present(&store, &a));
    assert!(!present(&store, &b));
    assert!(!present(&store, &c));
}

#[test]
fn test_references() {
    let cid1 = Cid::new_v0(sha256(b"cid1"));
    let cid2 = Cid::new_v0(sha256(b"cid2"));
    let cid3 = Cid::new_v0(sha256(b"cid3"));
    let ipld = dict(vec![
        ("cid1", Ipld::Link(cid1.clone())),
        (
            "cid2",
            dict(vec![
                ("other", Ipld::Bool(true)),
                ("cid2", dict(vec![("cid2", Ipld::Link(cid2.clone()))])),
            ]),
        ),
        (
            "cid3",
            Ipld::List(vec![Ipld::List(vec![
                Ipld::Link(cid3.clone()),
                Ipld::Link(cid1.clone()),
            ])]),
        ),
    ]);
    let refs = references(&ipld);
    assert_eq!(refs.len(), 3);
    assert!(refs.contains(&cid1));
    assert!(refs.contains(&cid2));
    assert!(refs.contains(&cid3));
}

#[test]
fn test_cache() {
    let store = MemStore::new();
    let mut cache = IpldCache::new(store, DAG_CBOR, SHA2_256, 1);
    let mut tx = cache.transaction_with_capacity(2);
    let cid = tx.insert(Ipld::Integer(42)).unwrap();
    tx.pin(&cid);
    cache.commit(tx).unwrap();
    let res = cache.get(&cid).unwrap();
    assert_eq!(res, Ipld::Integer(42));
    cache.unpin(&cid).unwrap();
    match cache.get(&cid) {
        Err(StoreError::BlockNotFound(c)) => assert_eq!(c, cid),
        other => panic!("expected a missing block, got {:?}", other),
    }
}

#[test]
fn test_alias_survival() {
    let mut store = MemStore::new();
    let c = insert_value(&mut store, &dict(vec![("k", Ipld::Integer(7))]));
    let name = b"root".to_vec();
    store.alias(&name, &c).unwrap();
    store.unpin(&c).unwrap();
    assert!(present(&store, &c));
    assert_eq!(store.resolve(&name), Some(c.clone()));
    store.unalias(&name).unwrap();
    assert!(!present(&store, &c));
    assert_eq!(store.resolve(&name), None);
}

#[test]
fn test_cbor_round_trip() {
    let cid = Cid::new_v1(RAW, SHA2_256, sha256(b"leaf"));
    let v = dict(vec![
        ("bytes", Ipld::Bytes(vec![0, 1, 2, 255])),
        ("link", Ipld::Link(cid)),
        (
            "list",
            Ipld::List(vec![
                Ipld::Null,
                Ipld::Bool(true),
                Ipld::Bool(false),
                Ipld::Integer(-1),
                Ipld::Integer(23),
                Ipld::Integer(24),
                Ipld::Integer(65535),
                Ipld::Integer(65536),
                Ipld::Integer(4294967296),
                Ipld::Integer(-4294967297),
            ]),
        ),
        ("text", Ipld::String("Hello World!".to_string())),
    ]);
    let bytes = libipld::cbor::encode(&v).unwrap();
    let back = libipld::cbor::decode(&bytes).unwrap();
    assert_eq!(back, v);
    // a second encoding of the decoded value is byte-identical
    let bytes2 = libipld::cbor::encode(&back).unwrap();
    assert_eq!(bytes, bytes2);
}

#[test]
fn test_cbor_exact_bytes() {
    assert_eq!(libipld::cbor::encode(&Ipld::Null).unwrap(), vec![0xf6]);
    assert_eq!(libipld::cbor::encode(&Ipld::Bool(false)).unwrap(), vec![0xf4]);
    assert_eq!(libipld::cbor::encode(&Ipld::Bool(true)).unwrap(), vec![0xf5]);
    assert_eq!(libipld::cbor::encode(&Ipld::Integer(0)).unwrap(), vec![0x00]);
    assert_eq!(libipld::cbor::encode(&Ipld::Integer(23)).unwrap(), vec![0x17]);
    assert_eq!(libipld::cbor::encode(&Ipld::Integer(24)).unwrap(), vec![0x18, 24]);
    assert_eq!(libipld::cbor::encode(&Ipld::Integer(-1)).unwrap(), vec![0x20]);
    assert_eq!(
        libipld::cbor::encode(&Ipld::String("a".to_string())).unwrap(),
        vec![0x61, 0x61]
    );
    assert_eq!(
        libipld::cbor::encode(&Ipld::Bytes(vec![1, 2])).unwrap(),
        vec![0x42, 1, 2]
    );
    assert_eq!(
        libipld::cbor::encode(&Ipld::List(vec![Ipld::Integer(1)])).unwrap(),
        vec![0x81, 0x01]
    );
    let m = dict(vec![("a", Ipld::Integer(1))]);
    assert_eq!(libipld::cbor::encode(&m).unwrap(), vec![0xa1, 0x61, 0x61, 0x01]);
}

#[test]
fn test_cbor_rejects_unsorted_and_noncanonical() {
    let unsorted = dict(vec![("b", Ipld::Integer(1)), ("a", Ipld::Integer(2))]);
    match libipld::cbor::encode(&unsorted) {
        Err(BlockError::CodecError(CodecFault::KeysUnsorted)) => {}
        other => panic!("expected unsorted keys to be refused, got {:?}", other),
    }
    // 0x18 0x00 writes the integer 0 in a longer head than needed
    assert!(libipld::cbor::decode(&vec![0x18, 0x00]).is_err());
    // a float is not part of the canonical model
    assert!(libipld::cbor::decode(&vec![0xf9, 0x00, 0x00]).is_err());
    // trailing bytes after a complete value
    assert!(libipld::cbor::decode(&vec![0x00, 0x00]).is_err());
    // duplicate map keys
    let dup = vec![0xa2, 0x61, 0x61, 0x01, 0x61, 0x61, 0x02];
    assert!(libipld::cbor::decode(&dup).is_err());
    let out_of_range = Ipld::Integer(36893488147419103232);
    match libipld::cbor::encode(&out_of_range) {
        Err(BlockError::CodecError(CodecFault::NumberOutOfRange)) => {}
        other => panic!("expected an out of range number, got {:?}", other),
    }
}

#[test]
fn test_validate_and_raw_blocks() {
    let block = create_raw_block(b"abc".to_vec()).unwrap();
    assert!(validate(&block.cid, &block.data).is_ok());
    // the digest is the real SHA-256 of the bytes
    let expected = vec![
        0xbau8, 0x78, 0x16, 0xbf, 0x8f, 0x01, 0xcf, 0xea, 0x41, 0x41, 0x40, 0xde, 0x5d, 0xae,
        0x22, 0x23, 0xb0, 0x03, 0x61, 0xa3, 0x96, 0x17, 0x7a, 0x9c, 0xb4, 0x10, 0xff, 0x61,
        0xf2, 0x00, 0x15, 0xad,
    ];
    assert_eq!(block.cid.digest(), &expected);
    // a wrong digest is found out
    let bad = Cid::new_v1(RAW, SHA2_256, sha256(b"something else"));
    match validate(&bad, &block.data) {
        Err(BlockError::InvalidHash(h)) => assert_eq!(h, expected),
        other => panic!("expected an invalid hash, got {:?}", other),
    }
    // an unknown digest function is refused
    let odd = Cid::new_v1(RAW, 0x13, sha256(b"abc"));
    match validate(&odd, &block.data) {
        Err(BlockError::UnsupportedMultihash(code)) => assert_eq!(code, 0x13),
        other => panic!("expected an unsupported multihash, got {:?}", other),
    }
    // raw block bytes decode to themselves
    let v = decode_ipld(&block.cid, &block.data).unwrap();
    assert_eq!(v, Ipld::Bytes(b"abc".to_vec()));
}

#[test]
fn test_unsupported_codec() {
    let cid = Cid::new_v1(0x0129, SHA2_256, sha256(b"x"));
    match decode_ipld(&cid, &b"x".to_vec()) {
        Err(BlockError::UnsupportedCodec(code)) => assert_eq!(code, 0x0129),
        other => panic!("expected an unsupported codec, got {:?}", other),
    }
}

#[test]
fn test_empty_batch() {
    let mut store = MemStore::new();
    match store.insert_batch(vec![]) {
        Err(StoreError::EmptyBatch) => {}
        other => panic!("expected an empty batch error, got {:?}", other),
    }
    let b = create_cbor_block(&Ipld::Integer(1)).unwrap();
    let b2 = create_cbor_block(&Ipld::Integer(2)).unwrap();
    let last = store
        .insert_batch(vec![b.clone(), b2.clone()])
        .unwrap();
    assert_eq!(last, b2.cid);
    assert!(present(&store, &b.cid));
    assert!(present(&store, &b2.cid));
}

#[test]
fn test_block_not_found() {
    let store = MemStore::new();
    let cid = Cid::new_v0(sha256(b"nothing"));
    match store.get(&cid) {
        Err(StoreError::BlockNotFound(c)) => assert_eq!(c, cid),
        other => panic!("expected a missing block, got {:?}", other),
    }
}

#[test]
fn test_cid_binary_form() {
    let c0 = Cid::new_v0(sha256(b"v0"));
    let b0 = c0.to_bytes();
    assert_eq!(b0.len(), 34);
    assert_eq!(b0[0], 0x12);
    assert_eq!(b0[1], 32);
    let c1 = Cid::new_v1(DAG_CBOR, SHA2_256, sha256(b"v1"));
    let b1 = c1.to_bytes();
    assert_eq!(b1[0], 0x01);
    assert_eq!(b1[1], 0x71);
    assert_eq!(b1[2], 0x12);
    assert_eq!(b1[3], 32);
    assert_eq!(b1.len(), 4 + 32);
    let rt = libipld::cbor::cid_from_bytes(&b1).unwrap();
    assert_eq!(rt, c1);
    let rt0 = libipld::cbor::cid_from_bytes(&b0).unwrap();
    assert_eq!(rt0, c0);
}

#[test]
fn test_batch_links_lead_existence() {
    // a block may link to an identifier whose block never arrived
    let mut store = MemStore::new();
    let ghost_cid = Cid::new_v0(sha256(b"never inserted"));
    let v = dict(vec![("lead", Ipld::Link(ghost_cid.clone()))]);
    let c = insert_value(&mut store, &v);
    assert!(present(&store, &c));
    assert!(!present(&store, &ghost_cid));
    store.unpin(&c).unwrap();
    assert!(!present(&store, &c));
}

#[test]
fn test_closure() {
    let mut store = MemStore::new();
    let cid1 = insert_value(&mut store, &Ipld::Bool(true));
    let cid2 = insert_value(&mut store, &dict(vec![("cid1", Ipld::Link(cid1.clone()))]));
    let cid3 = insert_value(&mut store, &Ipld::List(vec![Ipld::Link(cid2.clone())]));
    let refs = closure(&store, &vec![cid3.clone()]);
    assert_eq!(refs.len(), 3);
    assert!(refs.contains(&cid1));
    assert!(refs.contains(&cid2));
    assert!(refs.contains(&cid3));
}

#[test]
fn test_dead_paths() {
    let mut store = MemStore::new();
    let a = insert_value(&mut store, &Ipld::Integer(1));
    let b = insert_value(&mut store, &dict(vec![("a", Ipld::Link(a.clone()))]));
    let c = insert_value(&mut store, &Ipld::Integer(3));
    let all = vec![a.clone(), b.clone(), c.clone()];
    let dead = dead_paths(&store, &all, &vec![b.clone()]);
    assert_eq!(dead.len(), 1);
    assert!(dead.contains(&c));
    // a missing block is part of the closure but contributes no links
    let ghost_cid = Cid::new_v0(sha256(b"missing"));
    let dead2 = dead_paths(&store, &all, &vec![ghost_cid]);
    assert_eq!(dead2.len(), 3);
}

#[test]
fn test_query() {
    let mut store = MemStore::new();
    let leaf = insert_value(&mut store, &dict(vec![("c", Ipld::Integer(7))]));
    let root = insert_value(
        &mut store,
        &dict(vec![("a", dict(vec![("b", Ipld::Link(leaf.clone()))]))]),
    );
    let path = vec![
        PathSegment::Key("a".to_string()),
        PathSegment::Key("b".to_string()),
        PathSegment::Key("c".to_string()),
    ];
    let v = query(&store, &root, &path).unwrap();
    assert_eq!(v, Ipld::Integer(7));
    let bad = vec![PathSegment::Key("missing".to_string())];
    assert!(query(&store, &root, &bad).is_err());
    let by_index = vec![
        PathSegment::Key("a".to_string()),
        PathSegment::Index(0),
    ];
    assert!(query(&store, &root, &by_index).is_err());
}

#[test]
fn test_batch_rejected_whole() {
    let mut store = MemStore::new();
    let good = create_cbor_block(&Ipld::Integer(5)).unwrap();
    // bytes that do not decode under the canonical codec
    let bad = libipld::block::Block {
        cid: Cid::new_v1(DAG_CBOR, SHA2_256, sha256(b"junk")),
        data: vec![0xff, 0xff],
    };
    let r = store.insert_batch(vec![good.clone(), bad]);
    assert!(r.is_err());
    // the whole batch was refused: the good block was not stored either
    assert!(!present(&store, &good.cid));
}

#[test]
fn test_unpin_protects_alias() {
    let mut store = MemStore::new();
    let c = insert_value(&mut store, &Ipld::Integer(9));
    let name = b"keep".to_vec();
    store.alias(&name, &c).unwrap();
    // drop the user pin taken by the insert, then try once more: the
    // alias pin is protected and the block stays
    store.unpin(&c).unwrap();
    store.unpin(&c).unwrap();
    assert!(present(&store, &c));
    store.unalias(&name).unwrap();
    assert!(!present(&store, &c));
}
